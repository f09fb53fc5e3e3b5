//! The cache of specification files and devices: refresh with conflict
//! resolution, lookups, and injection of devices into a container.
use vstd::prelude::*;
use crate::chars::same_text;
use crate::container_edits::{append_view, edits_view, empty_view, ContainerEdits, EditsView, hook_view, hook_views, lemma_hook_views};
use crate::parser::{qualified, qualified_name, qualifier_parts};
use crate::runtime::{applied, hooks_known, nodes_resolve, ApplyError, HostProbe, RuntimeConfig};
use crate::spec::{loaded_spec, new_spec, spec_fault, Device, Spec, SpecError};
use crate::container_edits::hook_name_spec;
use crate::specs::{self, items};
use crate::textorder::{sorted_insert, strictly_sorted, text_views};

verus! {

/// A file found by a scan of the specification directories: its path, the
/// index of its directory, and its content or why it could not be read.
pub struct ScannedFile {
    pub path: String,
    pub priority: usize,
    pub content: Result<specs::Spec, String>,
}

/// What went wrong for one file during a refresh.
#[derive(Debug)]
pub enum CacheError {
    /// The file could not be read or parsed.
    Load(String),
    /// The file is not a valid specification.
    Invalid(SpecError),
    /// Two files of equal priority declare the same device.
    Conflict { name: String, dev_path: String, old_path: String },
}

/// A claim on a qualified device name: the name, the index of the claiming
/// file among the loaded ones, the device's index in it, and the file's priority.
pub type Claim = (Seq<char>, int, int, int);

/// What conflict resolution needs of a loaded file: vendor, class,
/// priority and device names.
pub type SpecView = (Seq<char>, Seq<char>, int, Seq<Seq<char>>);

pub open spec fn device_names(ds: Seq<Device>) -> Seq<Seq<char>> {
    ds.map_values(|d: Device| d.cdi_device.name@)
}

pub open spec fn raw_device_names(ds: Seq<specs::Device>) -> Seq<Seq<char>> {
    ds.map_values(|d: specs::Device| d.name@)
}

pub open spec fn spec_view(s: Spec) -> SpecView {
    (s.vendor@, s.class@, s.priority as int, device_names(s.devices@))
}

pub open spec fn spec_views(s: Seq<Spec>) -> Seq<SpecView> {
    s.map_values(|x: Spec| spec_view(x))
}

/// What a scanned file gives when it is a valid specification.
pub open spec fn raw_view(raw: specs::Spec, priority: usize) -> SpecView {
    (qualifier_parts(raw.kind@).0, qualifier_parts(raw.kind@).1, priority as int, raw_device_names(raw.devices@))
}

/// The files of a scan that load, in scan order.
pub open spec fn loaded_views(scan: Seq<ScannedFile>) -> Seq<SpecView>
    decreases scan.len(),
{
    if scan.len() == 0 {
        Seq::empty()
    } else {
        let rest = loaded_views(scan.drop_last());
        match scan.last().content {
            Ok(raw) => if spec_fault(raw) is None {
                rest.push(raw_view(raw, scan.last().priority))
            } else {
                rest
            },
            Err(_) => rest,
        }
    }
}

/// A scanned file that was read and is a valid specification.
pub open spec fn file_loads(f: ScannedFile) -> bool {
    f.content is Ok && spec_fault(f.content->Ok_0) is None
}

/// The files of a scan that load, in scan order.
pub open spec fn loaded_files(scan: Seq<ScannedFile>) -> Seq<ScannedFile>
    decreases scan.len(),
{
    if scan.len() == 0 {
        Seq::empty()
    } else if file_loads(scan.last()) {
        loaded_files(scan.drop_last()).push(scan.last())
    } else {
        loaded_files(scan.drop_last())
    }
}

/// `specs` are, one for one, what validation makes of the files of `scan` that load.
pub open spec fn specs_loaded(specs: Seq<Spec>, scan: Seq<ScannedFile>) -> bool {
    &&& specs.len() == loaded_files(scan).len()
    &&& forall|k: int| 0 <= k < specs.len() ==> loaded_spec(
        #[trigger] specs[k],
        loaded_files(scan)[k].content->Ok_0,
        loaded_files(scan)[k].path@,
        loaded_files(scan)[k].priority,
    )
}

/// The scan lists the files in directory order: priorities never decrease.
pub open spec fn scan_sorted(scan: Seq<ScannedFile>) -> bool {
    forall|i: int, j: int| 0 <= i < j < scan.len() ==> (#[trigger] scan[i]).priority <= (#[trigger] scan[j]).priority
}

/// The device name and the two paths a conflict error holds.
pub open spec fn conflict_parts(e: CacheError) -> Option<(Seq<char>, Seq<char>, Seq<char>)> {
    match e {
        CacheError::Conflict { name, dev_path, old_path } => Some((name@, dev_path@, old_path@)),
        _ => None,
    }
}

/// `s` declares a device with the qualified name `q`.
pub open spec fn declares(s: Spec, q: Seq<char>) -> bool {
    exists|d: int| 0 <= d < s.devices@.len() && qualified(s.vendor@, s.class@, (#[trigger] s.devices@[d]).cdi_device.name@) == q
}

/// A conflict on `q` between two files of equal priority that declare it is
/// recorded under the path of each, naming `q` and both paths.
pub open spec fn conflict_logged(errors: Seq<(String, CacheError)>, specs: Seq<Spec>, q: Seq<char>) -> bool {
    exists|i: int, j: int, k1: int, k2: int|
        #![trigger specs[i], specs[j], errors[k1], errors[k2]]
        0 <= i < specs.len() && 0 <= j < specs.len() && declares(specs[i], q) && declares(specs[j], q)
            && specs[i].priority == specs[j].priority && 0 <= k1 < errors.len() && 0 <= k2 < errors.len()
            && errors[k1].0@ == specs[i].path@ && errors[k2].0@ == specs[j].path@
            && conflict_parts(errors[k1].1) == Some((q, specs[i].path@, specs[j].path@))
            && conflict_parts(errors[k2].1) == Some((q, specs[i].path@, specs[j].path@))
}

proof fn lemma_conflict_logged_grows(a: Seq<(String, CacheError)>, b: Seq<(String, CacheError)>, specs: Seq<Spec>, q: Seq<char>)
    requires
        conflict_logged(a, specs, q),
        a.len() <= b.len(),
        forall|j: int| 0 <= j < a.len() ==> b[j] == a[j],
    ensures
        conflict_logged(b, specs, q),
{
    let (i, j, k1, k2) = choose|i: int, j: int, k1: int, k2: int|
        #![trigger specs[i], specs[j], a[k1], a[k2]]
        0 <= i < specs.len() && 0 <= j < specs.len() && declares(specs[i], q) && declares(specs[j], q)
            && specs[i].priority == specs[j].priority && 0 <= k1 < a.len() && 0 <= k2 < a.len()
            && a[k1].0@ == specs[i].path@ && a[k2].0@ == specs[j].path@
            && conflict_parts(a[k1].1) == Some((q, specs[i].path@, specs[j].path@))
            && conflict_parts(a[k2].1) == Some((q, specs[i].path@, specs[j].path@));
    assert(b[k1] == a[k1] && b[k2] == a[k2]);
}

/// An error is recorded under `path`.
pub open spec fn error_for(errors: Seq<(String, CacheError)>, path: Seq<char>) -> bool {
    exists|k: int| 0 <= k < errors.len() && (#[trigger] errors[k]).0@ == path
}

/// Every file of a scan loads.
pub open spec fn all_load(scan: Seq<ScannedFile>) -> bool {
    forall|i: int| 0 <= i < scan.len() ==> (#[trigger] scan[i]).content is Ok && spec_fault(scan[i].content->Ok_0) is None
}

/// The claims of the file at index `si`.
pub open spec fn spec_claims(v: SpecView, si: int) -> Seq<Claim> {
    Seq::new(v.3.len(), |di: int| (qualified(v.0, v.1, v.3[di]), si, di, v.2))
}

/// The claims of all loaded files, file by file, each file's devices in order.
pub open spec fn claims_of(vs: Seq<SpecView>) -> Seq<Claim>
    decreases vs.len(),
{
    if vs.len() == 0 {
        Seq::empty()
    } else {
        claims_of(vs.drop_last()) + spec_claims(vs.last(), vs.len() - 1)
    }
}

/// One claim taken into the index: a new name is added; against a held
/// name, a claim of lower priority (higher number) is dropped, one of equal
/// priority marks the name as conflicting, and one of higher priority replaces it.
pub open spec fn resolve_step(state: (Map<Seq<char>, Claim>, Set<Seq<char>>), c: Claim) -> (Map<Seq<char>, Claim>, Set<Seq<char>>) {
    let (m, conflicts) = state;
    if m.contains_key(c.0) {
        if c.3 > m[c.0].3 {
            (m, conflicts)
        } else if c.3 == m[c.0].3 {
            (m, conflicts.insert(c.0))
        } else {
            (m.insert(c.0, c), conflicts)
        }
    } else {
        (m.insert(c.0, c), conflicts)
    }
}

/// The index and the conflicting names after taking `claims` in order.
pub open spec fn resolve(claims: Seq<Claim>) -> (Map<Seq<char>, Claim>, Set<Seq<char>>)
    decreases claims.len(),
{
    if claims.len() == 0 {
        (Map::empty(), Set::empty())
    } else {
        resolve_step(resolve(claims.drop_last()), claims.last())
    }
}

/// The device index of loaded files: each name held by the claim of
/// highest priority, and no name that two claims of equal priority fought over.
pub open spec fn device_index(vs: Seq<SpecView>) -> Map<Seq<char>, Claim> {
    resolve(claims_of(vs)).0.remove_keys(resolve(claims_of(vs)).1)
}

/// A device of the index: its qualified name, where it is, and its priority.
#[derive(Clone, Debug)]
pub struct IndexEntry {
    pub name: String,
    pub spec: usize,
    pub device: usize,
    pub priority: usize,
}

pub open spec fn entry_claim(e: IndexEntry) -> Claim {
    (e.name@, e.spec as int, e.device as int, e.priority as int)
}

/// `s` lists, once each, the names of `m` with their claims.
pub open spec fn index_ok(s: Seq<IndexEntry>, m: Map<Seq<char>, Claim>) -> bool {
    &&& forall|i: int, j: int| 0 <= i < j < s.len() ==> (#[trigger] s[i]).name@ != (#[trigger] s[j]).name@
    &&& forall|i: int| 0 <= i < s.len() ==> m.contains_key((#[trigger] s[i]).name@) && m[s[i].name@] == entry_claim(s[i])
    &&& forall|k: Seq<char>| #[trigger] m.contains_key(k) ==> exists|i: int| 0 <= i < s.len() && (#[trigger] s[i]).name@ == k
}

/// `s` names exactly the texts of `set`.
pub open spec fn names_ok(s: Seq<String>, set: Set<Seq<char>>) -> bool {
    forall|k: Seq<char>| #[trigger] set.contains(k) <==> exists|i: int| 0 <= i < s.len() && (#[trigger] s[i])@ == k
}

/// `e` points at a device of `specs` whose qualified name it carries.
pub open spec fn entry_valid(e: IndexEntry, specs: Seq<Spec>) -> bool {
    &&& e.spec < specs.len()
    &&& e.device < specs[e.spec as int].devices@.len()
    &&& e.priority == specs[e.spec as int].priority
    &&& e.name@ == qualified(
        specs[e.spec as int].vendor@,
        specs[e.spec as int].class@,
        specs[e.spec as int].devices@[e.device as int].cdi_device.name@,
    )
}

/// Why devices could not be injected.
#[derive(Debug)]
pub enum InjectError {
    /// The requested names that no device has, in request order.
    Unresolved(Vec<String>),
    /// The accumulated edits could not be applied.
    Apply(ApplyError),
}

/// An option that turns automatic refresh on or off.
pub struct WithAutoRefresh(pub bool);

/// The cache of specification files and devices.
pub struct Cache {
    /// The specification directories, highest priority first.
    pub spec_dirs: Vec<String>,
    /// The loaded files, in scan order.
    pub specs: Vec<Spec>,
    /// The device index.
    pub devices: Vec<IndexEntry>,
    /// What went wrong, file by file, during the last refresh.
    pub errors: Vec<(String, CacheError)>,
    /// What went wrong with the directories themselves.
    pub dir_errors: Vec<(String, String)>,
    pub auto_refresh: bool,
}

impl Cache {
    pub open spec fn wf(&self) -> bool {
        &&& index_ok(self.devices@, device_index(spec_views(self.specs@)))
        &&& forall|i: int| 0 <= i < self.devices@.len() ==> entry_valid(#[trigger] self.devices@[i], self.specs@)
        &&& forall|i: int| 0 <= i < self.specs@.len() ==> (#[trigger] self.specs@[i]).wf()
    }

    /// The device index: each qualified name with the claim that holds it.
    pub open spec fn device_map(&self) -> Map<Seq<char>, Claim> {
        device_index(spec_views(self.specs@))
    }

    /// An empty cache over `spec_dirs`, without automatic refresh.
    pub fn new(spec_dirs: Vec<String>) -> (r: Cache)
        ensures
            r.wf(),
            r.spec_dirs@ == spec_dirs@,
            r.specs@.len() == 0,
            r.devices@.len() == 0,
            !r.auto_refresh,
    {
        let r = Cache {
            spec_dirs,
            specs: Vec::new(),
            devices: Vec::new(),
            errors: Vec::new(),
            dir_errors: Vec::new(),
            auto_refresh: false,
        };
        proof {
            assert(spec_views(r.specs@) =~= Seq::<SpecView>::empty());
            assert(claims_of(Seq::<SpecView>::empty()) =~= Seq::<Claim>::empty());
            assert(device_index(spec_views(r.specs@)) =~= Map::<Seq<char>, Claim>::empty());
        }
        r
    }

    /// Turns automatic refresh on or off.
    pub fn configure(&mut self, option: WithAutoRefresh)
        ensures
            final(self).auto_refresh == option.0,
            final(self).specs == old(self).specs,
            final(self).devices == old(self).devices,
            final(self).spec_dirs == old(self).spec_dirs,
    {
        self.auto_refresh = option.0;
    }

    /// Whether a refresh is due before a read: when it is forced or the
    /// cache refreshes automatically.
    pub fn refresh_if_required(&self, force: bool) -> (r: bool)
        ensures
            r == (force || self.auto_refresh),
    {
        force || self.auto_refresh
    }

    /// What went wrong during the last refresh, file by file.
    pub fn get_errors(&self) -> (r: &Vec<(String, CacheError)>)
        ensures
            r == &self.errors,
    {
        &self.errors
    }

    fn find_entry(&self, name: &str) -> (r: Option<usize>)
        ensures
            match r {
                Some(i) => i < self.devices@.len() && self.devices@[i as int].name@ == name@,
                None => forall|i: int| 0 <= i < self.devices@.len() ==> (#[trigger] self.devices@[i]).name@ != name@,
            },
    {
        find_in(&self.devices, name)
    }

    /// The device with the qualified name `name`, if the index has it.
    pub fn get_device(&self, name: &str) -> (r: Option<&Device>)
        requires
            self.wf(),
        ensures
            r is Some <==> self.device_map().contains_key(name@),
            r is Some ==> qualified(
                self.specs@[self.device_map()[name@].1].vendor@,
                self.specs@[self.device_map()[name@].1].class@,
                r->0.cdi_device.name@,
            ) == name@,
            r is Some ==> *r->0 == self.specs@[self.device_map()[name@].1].devices@[self.device_map()[name@].2],
    {
        match self.find_entry(name) {
            Some(i) => {
                let e = &self.devices[i];
                assert(entry_valid(self.devices@[i as int], self.specs@));
                Some(&self.specs[e.spec].devices[e.device])
            },
            None => None,
        }
    }

    /// The qualified names of all indexed devices, sorted.
    pub fn list_devices(&self) -> (r: Vec<String>)
        requires
            self.wf(),
        ensures
            strictly_sorted(text_views(r@)),
            forall|k: Seq<char>| text_views(r@).contains(k) <==> self.device_map().contains_key(k),
    {
        let mut out: Vec<String> = Vec::new();
        let mut i: usize = 0;
        while i < self.devices.len()
            invariant
                0 <= i <= self.devices@.len(),
                self.wf(),
                strictly_sorted(text_views(out@)),
                forall|k: Seq<char>| text_views(out@).contains(k) <==> exists|j: int| 0 <= j < i && (#[trigger] self.devices@[j]).name@ == k,
            decreases self.devices@.len() - i,
        {
            let ghost before = text_views(out@);
            sorted_insert(&mut out, self.devices[i].name.clone());
            assert forall|k: Seq<char>| text_views(out@).contains(k) <==> exists|j: int| 0 <= j < i + 1 && (#[trigger] self.devices@[j]).name@ == k by {
                if exists|j: int| 0 <= j < i + 1 && (#[trigger] self.devices@[j]).name@ == k {
                    let j = choose|j: int| 0 <= j < i + 1 && (#[trigger] self.devices@[j]).name@ == k;
                    if j < i {
                        assert(before.contains(k));
                    }
                }
            }
            i = i + 1;
        }
        assert forall|k: Seq<char>| text_views(out@).contains(k) <==> self.device_map().contains_key(k) by {
            if self.device_map().contains_key(k) {
                let j = choose|j: int| 0 <= j < self.devices@.len() && (#[trigger] self.devices@[j]).name@ == k;
            }
        }
        out
    }

    /// The vendors of all loaded files, sorted, each once.
    pub fn list_vendors(&self) -> (r: Vec<String>)
        ensures
            strictly_sorted(text_views(r@)),
            forall|k: Seq<char>| text_views(r@).contains(k) <==> exists|i: int| 0 <= i < self.specs@.len() && (#[trigger] self.specs@[i]).vendor@ == k,
    {
        let mut out: Vec<String> = Vec::new();
        let mut i: usize = 0;
        while i < self.specs.len()
            invariant
                0 <= i <= self.specs@.len(),
                strictly_sorted(text_views(out@)),
                forall|k: Seq<char>| text_views(out@).contains(k) <==> exists|j: int| 0 <= j < i && (#[trigger] self.specs@[j]).vendor@ == k,
            decreases self.specs@.len() - i,
        {
            let ghost before = text_views(out@);
            sorted_insert(&mut out, self.specs[i].vendor.clone());
            assert forall|k: Seq<char>| text_views(out@).contains(k) <==> exists|j: int| 0 <= j < i + 1 && (#[trigger] self.specs@[j]).vendor@ == k by {
                if exists|j: int| 0 <= j < i + 1 && (#[trigger] self.specs@[j]).vendor@ == k {
                    let j = choose|j: int| 0 <= j < i + 1 && (#[trigger] self.specs@[j]).vendor@ == k;
                    if j < i {
                        assert(before.contains(k));
                    }
                }
            }
            i = i + 1;
        }
        out
    }

    /// The loaded files of `vendor`, in scan order.
    pub fn get_vendor_specs(&self, vendor: &str) -> (r: Vec<&Spec>)
        ensures
            r@.len() == vendor_specs(self.specs@, vendor@).len(),
            forall|i: int| 0 <= i < r@.len() ==> *(#[trigger] r@[i]) == vendor_specs(self.specs@, vendor@)[i],
    {
        let mut out: Vec<&Spec> = Vec::new();
        let mut i: usize = 0;
        while i < self.specs.len()
            invariant
                0 <= i <= self.specs@.len(),
                out@.len() == vendor_specs(self.specs@.subrange(0, i as int), vendor@).len(),
                forall|k: int| 0 <= k < out@.len() ==> *(#[trigger] out@[k]) == vendor_specs(self.specs@.subrange(0, i as int), vendor@)[k],
            decreases self.specs@.len() - i,
        {
            let ghost sub = self.specs@.subrange(0, i + 1);
            assert(sub.drop_last() =~= self.specs@.subrange(0, i as int));
            if same_text(self.specs[i].vendor.as_str(), vendor) {
                out.push(&self.specs[i]);
            }
            i = i + 1;
        }
        assert(self.specs@.subrange(0, self.specs@.len() as int) =~= self.specs@);
        out
    }
}

/// The files of `specs` whose vendor is `vendor`, in order.
pub open spec fn vendor_specs(specs: Seq<Spec>, vendor: Seq<char>) -> Seq<Spec>
    decreases specs.len(),
{
    if specs.len() == 0 {
        Seq::empty()
    } else if specs.last().vendor@ == vendor {
        vendor_specs(specs.drop_last(), vendor).push(specs.last())
    } else {
        vendor_specs(specs.drop_last(), vendor)
    }
}

fn find_in(index: &Vec<IndexEntry>, name: &str) -> (r: Option<usize>)
    ensures
        match r {
            Some(i) => i < index@.len() && index@[i as int].name@ == name@,
            None => forall|i: int| 0 <= i < index@.len() ==> (#[trigger] index@[i]).name@ != name@,
        },
{
    let mut i: usize = 0;
    while i < index.len()
        invariant
            0 <= i <= index@.len(),
            forall|k: int| 0 <= k < i ==> (#[trigger] index@[k]).name@ != name@,
        decreases index@.len() - i,
    {
        if same_text(index[i].name.as_str(), name) {
            return Some(i);
        }
        i = i + 1;
    }
    None
}

fn names_contain(names: &Vec<String>, name: &str) -> (r: bool)
    ensures
        r == exists|i: int| 0 <= i < names@.len() && (#[trigger] names@[i])@ == name@,
{
    let mut i: usize = 0;
    while i < names.len()
        invariant
            0 <= i <= names@.len(),
            forall|k: int| 0 <= k < i ==> (#[trigger] names@[k])@ != name@,
        decreases names@.len() - i,
    {
        if same_text(names[i].as_str(), name) {
            return true;
        }
        i = i + 1;
    }
    false
}

fn copy_entry(e: &IndexEntry) -> (r: IndexEntry)
    ensures
        r == *e,
{
    IndexEntry { name: e.name.clone(), spec: e.spec, device: e.device, priority: e.priority }
}

proof fn lemma_claims_step(vs: Seq<SpecView>, si: int)
    requires
        0 <= si < vs.len(),
    ensures
        claims_of(vs.subrange(0, si + 1)) == claims_of(vs.subrange(0, si)) + spec_claims(vs[si], si),
{
    let sub = vs.subrange(0, si + 1);
    assert(sub.drop_last() =~= vs.subrange(0, si));
    assert(sub.last() == vs[si]);
}

proof fn lemma_resolve_push(cp: Seq<Claim>, c: Claim)
    ensures
        resolve(cp.push(c)) == resolve_step(resolve(cp), c),
{
    assert(cp.push(c).drop_last() =~= cp);
}

/// Loads the files of a scan, in order; what fails is recorded by path.
fn load_specs(scan: Vec<ScannedFile>) -> (r: (Vec<Spec>, Vec<(String, CacheError)>))
    ensures
        spec_views(r.0@) == loaded_views(scan@),
        forall|i: int| 0 <= i < r.0@.len() ==> (#[trigger] r.0@[i]).wf(),
        r.1@.len() == 0 <==> all_load(scan@),
        forall|i: int| 0 <= i < scan@.len() && !file_loads(#[trigger] scan@[i]) ==> error_for(r.1@, scan@[i].path@),
        specs_loaded(r.0@, scan@),
{
    let ghost all = scan@;
    let mut rest = scan;
    let mut specs: Vec<Spec> = Vec::new();
    let mut errors: Vec<(String, CacheError)> = Vec::new();
    let ghost mut k: int = 0;
    while rest.len() > 0
        invariant
            0 <= k <= all.len(),
            rest@ == all.subrange(k, all.len() as int),
            spec_views(specs@) == loaded_views(all.subrange(0, k)),
            forall|i: int| 0 <= i < specs@.len() ==> (#[trigger] specs@[i]).wf(),
            errors@.len() == 0 <==> all_load(all.subrange(0, k)),
            forall|i: int| 0 <= i < k && !file_loads(#[trigger] all[i]) ==> error_for(errors@, all[i].path@),
            specs_loaded(specs@, all.subrange(0, k)),
        decreases rest@.len(),
    {
        let f = rest.remove(0);
        let ghost done = all.subrange(0, k + 1);
        proof {
            assert(f == all[k]);
            assert(done.drop_last() =~= all.subrange(0, k));
            assert(done.last() == f);
        }
        let ScannedFile { path, priority, content } = f;
        match content {
            Err(msg) => {
                let ghost before = errors@;
                errors.push((path, CacheError::Load(msg)));
                proof {
                    lemma_error_for_push(before, errors@, all, k);
                }
                proof {
                    assert(!all_load(done)) by {
                        assert(!(done[k].content is Ok));
                    }
                }
            },
            Ok(raw) => {
                let ghost raw0 = raw;
                match new_spec(raw, path.as_str(), priority) {
                    Err(e) => {
                        let ghost before = errors@;
                        errors.push((path, CacheError::Invalid(e)));
                        proof {
                            lemma_error_for_push(before, errors@, all, k);
                        }
                        proof {
                            assert(!all_load(done)) by {
                                assert(spec_fault(done[k].content->Ok_0) is Some);
                            }
                        }
                    },
                    Ok(spec) => {
                        proof {
                            assert(device_names(spec.devices@) =~= raw_device_names(raw0.devices@));
                            assert(spec_view(spec) == raw_view(raw0, priority));
                            assert(all_load(done) == all_load(all.subrange(0, k))) by {
                                if all_load(all.subrange(0, k)) {
                                    assert forall|i: int| 0 <= i < done.len() implies (#[trigger] done[i]).content is Ok && spec_fault(done[i].content->Ok_0) is None by {
                                        if i < k {
                                            assert(done[i] == all.subrange(0, k)[i]);
                                        }
                                    }
                                }
                                if all_load(done) {
                                    assert forall|i: int| 0 <= i < all.subrange(0, k).len() implies (#[trigger] all.subrange(0, k)[i]).content is Ok && spec_fault(all.subrange(0, k)[i].content->Ok_0) is None by {
                                        assert(done[i] == all.subrange(0, k)[i]);
                                    }
                                }
                            }
                        }
                        let ghost before = specs@;
                        specs.push(spec);
                        assert(spec_views(specs@) =~= spec_views(before).push(spec_view(spec)));
                        proof {
                            assert(file_loads(done.last()));
                            assert(loaded_files(done) == loaded_files(all.subrange(0, k)).push(f));
                            assert forall|q: int| 0 <= q < specs@.len() implies loaded_spec(
                                #[trigger] specs@[q],
                                loaded_files(done)[q].content->Ok_0,
                                loaded_files(done)[q].path@,
                                loaded_files(done)[q].priority,
                            ) by {
                                if q < before.len() {
                                    assert(specs@[q] == before[q]);
                                }
                            }
                        }
                    },
                }
            },
        }
        proof {
            k = k + 1;
        }
    }
    assert(all.subrange(0, all.len() as int) =~= all);
    (specs, errors)
}

proof fn lemma_error_for_push(before: Seq<(String, CacheError)>, after: Seq<(String, CacheError)>, all: Seq<ScannedFile>, k: int)
    requires
        0 <= k < all.len(),
        after.len() == before.len() + 1,
        forall|j: int| 0 <= j < before.len() ==> after[j] == before[j],
        after.last().0@ == all[k].path@,
        forall|i: int| 0 <= i < k && !file_loads(#[trigger] all[i]) ==> error_for(before, all[i].path@),
    ensures
        forall|i: int| 0 <= i < k + 1 && !file_loads(#[trigger] all[i]) ==> error_for(after, all[i].path@),
{
    assert forall|i: int| 0 <= i < k + 1 && !file_loads(#[trigger] all[i]) implies error_for(after, all[i].path@) by {
        if i < k {
            let j = choose|j: int| 0 <= j < before.len() && (#[trigger] before[j]).0@ == all[i].path@;
            assert(after[j] == before[j]);
        } else {
            assert(after[after.len() - 1].0@ == all[i].path@);
        }
    }
}

/// Takes the claim of device `di` of file `si` into the index; a conflict
/// of equal priority is recorded for both files.
fn take_claim(
    index: &mut Vec<IndexEntry>,
    conflicts: &mut Vec<String>,
    errors: &mut Vec<(String, CacheError)>,
    specs: &Vec<Spec>,
    si: usize,
    di: usize,
    cp: Ghost<Seq<Claim>>,
)
    requires
        si < specs@.len(),
        di < specs@[si as int].devices@.len(),
        index_ok(old(index)@, resolve(cp@).0),
        names_ok(old(conflicts)@, resolve(cp@).1),
        forall|i: int| 0 <= i < old(index)@.len() ==> entry_valid(#[trigger] old(index)@[i], specs@),
        forall|q: Seq<char>| #[trigger] resolve(cp@).1.contains(q) ==> conflict_logged(old(errors)@, specs@, q),
    ensures
        forall|q: Seq<char>| #[trigger] resolve(cp@.push(spec_claims(spec_views(specs@)[si as int], si as int)[di as int])).1.contains(q)
            ==> conflict_logged(final(errors)@, specs@, q),
        index_ok(final(index)@, resolve(cp@.push(spec_claims(spec_views(specs@)[si as int], si as int)[di as int])).0),
        names_ok(final(conflicts)@, resolve(cp@.push(spec_claims(spec_views(specs@)[si as int], si as int)[di as int])).1),
        forall|i: int| 0 <= i < final(index)@.len() ==> entry_valid(#[trigger] final(index)@[i], specs@),
        final(errors)@.len() == old(errors)@.len() + 2 * (final(conflicts)@.len() - old(conflicts)@.len()),
        final(conflicts)@.len() >= old(conflicts)@.len(),
        forall|j: int| 0 <= j < old(errors)@.len() ==> final(errors)@[j] == old(errors)@[j],
{
    let s = &specs[si];
    let q = qualified_name(s.vendor.as_str(), s.class.as_str(), s.devices[di].cdi_device.name.as_str());
    let ghost v = spec_views(specs@)[si as int];
    let ghost c = spec_claims(v, si as int)[di as int];
    proof {
        assert(v == spec_view(specs@[si as int]));
        assert(device_names(s.devices@)[di as int] == s.devices@[di as int].cdi_device.name@);
        assert(c == (q@, si as int, di as int, s.priority as int));
        lemma_resolve_push(cp@, c);
    }
    let ghost m = resolve(cp@).0;
    let ghost conf = resolve(cp@).1;
    let entry = IndexEntry { name: q, spec: si, device: di, priority: s.priority };
    assert(entry_claim(entry) == c);
    assert(entry_valid(entry, specs@));
    match find_in(index, entry.name.as_str()) {
        None => {
            proof {
                assert(!m.contains_key(c.0)) by {
                    if m.contains_key(c.0) {
                        let i = choose|i: int| 0 <= i < index@.len() && (#[trigger] index@[i]).name@ == c.0;
                    }
                }
            }
            let ghost before = index@;
            index.push(entry);
            proof {
                let m2 = m.insert(c.0, c);
                assert forall|k: Seq<char>| #[trigger] m2.contains_key(k) implies exists|i: int| 0 <= i < index@.len() && (#[trigger] index@[i]).name@ == k by {
                    if k == c.0 {
                        assert(index@[before.len() as int].name@ == k);
                    } else {
                        let i = choose|i: int| 0 <= i < before.len() && (#[trigger] before[i]).name@ == k;
                        assert(index@[i].name@ == k);
                    }
                }
                assert forall|i: int| 0 <= i < index@.len() implies m2.contains_key((#[trigger] index@[i]).name@) && m2[index@[i].name@] == entry_claim(index@[i]) by {
                    if i < before.len() {
                        assert(index@[i] == before[i]);
                    }
                }
                assert forall|i: int, j: int| 0 <= i < j < index@.len() implies (#[trigger] index@[i]).name@ != (#[trigger] index@[j]).name@ by {
                    if j < before.len() {
                        assert(index@[i] == before[i] && index@[j] == before[j]);
                    } else {
                        assert(index@[i] == before[i]);
                    }
                }
            }
        },
        Some(k) => {
            let held = index[k].priority;
            let held_spec = index[k].spec;
            proof {
                assert(m.contains_key(c.0));
                assert(m[c.0] == entry_claim(index@[k as int]));
            }
            if s.priority > held {
            } else if s.priority == held {
                let old_path = specs[held_spec].path.clone();
                let ghost errs_before = errors@;
                errors.push((s.path.clone(), CacheError::Conflict {
                    name: entry.name.clone(),
                    dev_path: s.path.clone(),
                    old_path: old_path.clone(),
                }));
                errors.push((old_path, CacheError::Conflict {
                    name: entry.name.clone(),
                    dev_path: s.path.clone(),
                    old_path: specs[held_spec].path.clone(),
                }));
                proof {
                    let held_e = index@[k as int];
                    assert(entry_valid(held_e, specs@));
                    assert(declares(specs@[si as int], c.0)) by {
                        assert(qualified(s.vendor@, s.class@, (s.devices@[di as int]).cdi_device.name@) == c.0);
                    }
                    assert(declares(specs@[held_spec as int], c.0)) by {
                        assert(qualified(specs@[held_spec as int].vendor@, specs@[held_spec as int].class@, (specs@[held_spec as int].devices@[held_e.device as int]).cdi_device.name@) == c.0);
                    }
                    let n0 = errs_before.len() as int;
                    assert(errors@[n0].0@ == specs@[si as int].path@);
                    assert(errors@[n0 + 1].0@ == specs@[held_spec as int].path@);
                    assert(conflict_parts(errors@[n0].1) == Some((c.0, specs@[si as int].path@, specs@[held_spec as int].path@)));
                    assert(conflict_parts(errors@[n0 + 1].1) == Some((c.0, specs@[si as int].path@, specs@[held_spec as int].path@)));
                    assert(conflict_logged(errors@, specs@, c.0));
                    assert forall|q: Seq<char>| #[trigger] conf.insert(c.0).contains(q) implies conflict_logged(errors@, specs@, q) by {
                        if q != c.0 {
                            lemma_conflict_logged_grows(errs_before, errors@, specs@, q);
                        }
                    }
                }
                let ghost before = conflicts@;
                conflicts.push(entry.name);
                proof {
                    let conf2 = conf.insert(c.0);
                    assert forall|x: Seq<char>| #[trigger] conf2.contains(x) <==> exists|i: int| 0 <= i < conflicts@.len() && (#[trigger] conflicts@[i])@ == x by {
                        if conf2.contains(x) {
                            if x == c.0 {
                                assert(conflicts@[before.len() as int]@ == x);
                            } else {
                                let i = choose|i: int| 0 <= i < before.len() && (#[trigger] before[i])@ == x;
                                assert(conflicts@[i]@ == x);
                            }
                        }
                        if exists|i: int| 0 <= i < conflicts@.len() && (#[trigger] conflicts@[i])@ == x {
                            let i = choose|i: int| 0 <= i < conflicts@.len() && (#[trigger] conflicts@[i])@ == x;
                            if i < before.len() {
                                assert(before[i]@ == x);
                            }
                        }
                    }
                }
            } else {
                let ghost before = index@;
                index.set(k, entry);
                proof {
                    let m2 = m.insert(c.0, c);
                    assert forall|x: Seq<char>| #[trigger] m2.contains_key(x) implies exists|i: int| 0 <= i < index@.len() && (#[trigger] index@[i]).name@ == x by {
                        let i = choose|i: int| 0 <= i < before.len() && (#[trigger] before[i]).name@ == x;
                        if i == k {
                            assert(index@[i].name@ == x);
                        } else {
                            assert(index@[i] == before[i]);
                        }
                    }
                    assert forall|i: int| 0 <= i < index@.len() implies m2.contains_key((#[trigger] index@[i]).name@) && m2[index@[i].name@] == entry_claim(index@[i]) by {
                        if i != k {
                            assert(index@[i] == before[i]);
                            assert(before[i].name@ != before[k as int].name@);
                        }
                    }
                    assert forall|i: int, j: int| 0 <= i < j < index@.len() implies (#[trigger] index@[i]).name@ != (#[trigger] index@[j]).name@ by {
                        assert(index@[i].name@ == before[i].name@);
                        assert(index@[j].name@ == before[j].name@);
                    }
                    assert forall|i: int| 0 <= i < index@.len() implies entry_valid(#[trigger] index@[i], specs@) by {
                        if i != k {
                            assert(index@[i] == before[i]);
                        }
                    }
                }
            }
        },
    }
}

/// The entries of `s` whose names are not in `conf`, in order.
pub open spec fn keep_free(s: Seq<IndexEntry>, conf: Set<Seq<char>>) -> Seq<IndexEntry>
    decreases s.len(),
{
    if s.len() == 0 {
        s
    } else if conf.contains(s.last().name@) {
        keep_free(s.drop_last(), conf)
    } else {
        keep_free(s.drop_last(), conf).push(s.last())
    }
}

proof fn lemma_keep_free(s: Seq<IndexEntry>, conf: Set<Seq<char>>)
    requires
        forall|i: int, j: int| 0 <= i < j < s.len() ==> (#[trigger] s[i]).name@ != (#[trigger] s[j]).name@,
    ensures
        forall|p: int| 0 <= p < keep_free(s, conf).len() ==> exists|j: int| 0 <= j < s.len() && #[trigger] keep_free(s, conf)[p] == #[trigger] s[j] && !conf.contains(s[j].name@),
        forall|j: int| 0 <= j < s.len() && !conf.contains((#[trigger] s[j]).name@) ==> exists|p: int| 0 <= p < keep_free(s, conf).len() && #[trigger] keep_free(s, conf)[p] == s[j],
        forall|p: int, q: int| 0 <= p < q < keep_free(s, conf).len() ==> (#[trigger] keep_free(s, conf)[p]).name@ != (#[trigger] keep_free(s, conf)[q]).name@,
    decreases s.len(),
{
    if s.len() > 0 {
        let t = s.drop_last();
        lemma_keep_free(t, conf);
        let kt = keep_free(t, conf);
        let k = keep_free(s, conf);
        assert forall|p: int| 0 <= p < k.len() implies exists|j: int| 0 <= j < s.len() && #[trigger] k[p] == #[trigger] s[j] && !conf.contains(s[j].name@) by {
            if p < kt.len() {
                let j = choose|j: int| 0 <= j < t.len() && #[trigger] kt[p] == #[trigger] t[j] && !conf.contains(t[j].name@);
                assert(s[j] == t[j]);
            } else {
                assert(k[p] == s[s.len() - 1]);
            }
        }
        assert forall|j: int| 0 <= j < s.len() && !conf.contains((#[trigger] s[j]).name@) implies exists|p: int| 0 <= p < k.len() && #[trigger] k[p] == s[j] by {
            if j < t.len() {
                assert(t[j] == s[j]);
                let p = choose|p: int| 0 <= p < kt.len() && #[trigger] kt[p] == t[j];
                assert(k[p] == kt[p]);
            } else {
                assert(k[kt.len() as int] == s[j]);
            }
        }
        assert forall|p: int, q: int| 0 <= p < q < k.len() implies (#[trigger] k[p]).name@ != (#[trigger] k[q]).name@ by {
            if q < kt.len() {
                assert(k[p] == kt[p] && k[q] == kt[q]);
            } else {
                let j = choose|j: int| 0 <= j < t.len() && #[trigger] kt[p] == #[trigger] t[j] && !conf.contains(t[j].name@);
                assert(k[p] == kt[p]);
                assert(k[q] == s.last());
                assert(s[j] == t[j]);
            }
        }
    }
}

/// Builds the device index of loaded files, recording every conflict.
fn build_index(specs: &Vec<Spec>, errors: &mut Vec<(String, CacheError)>) -> (r: Vec<IndexEntry>)
    ensures
        index_ok(r@, device_index(spec_views(specs@))),
        forall|i: int| 0 <= i < r@.len() ==> entry_valid(#[trigger] r@[i], specs@),
        final(errors)@.len() == old(errors)@.len() <==> resolve(claims_of(spec_views(specs@))).1 == Set::<Seq<char>>::empty(),
        final(errors)@.len() >= old(errors)@.len(),
        forall|j: int| 0 <= j < old(errors)@.len() ==> final(errors)@[j] == old(errors)@[j],
        forall|q: Seq<char>| #[trigger] resolve(claims_of(spec_views(specs@))).1.contains(q) ==> conflict_logged(final(errors)@, specs@, q),
{
    let ghost vs = spec_views(specs@);
    let ghost errs0 = errors@;
    let mut index: Vec<IndexEntry> = Vec::new();
    let mut conflicts: Vec<String> = Vec::new();
    let ghost e0 = errors@.len();
    let mut si: usize = 0;
    proof {
        assert(vs.subrange(0, 0) =~= Seq::<SpecView>::empty());
        assert(resolve(claims_of(vs.subrange(0, 0))).0 =~= Map::<Seq<char>, Claim>::empty());
        assert(resolve(claims_of(vs.subrange(0, 0))).1 =~= Set::<Seq<char>>::empty());
    }
    while si < specs.len()
        invariant
            vs == spec_views(specs@),
            0 <= si <= specs@.len(),
            index_ok(index@, resolve(claims_of(vs.subrange(0, si as int))).0),
            names_ok(conflicts@, resolve(claims_of(vs.subrange(0, si as int))).1),
            forall|i: int| 0 <= i < index@.len() ==> entry_valid(#[trigger] index@[i], specs@),
            errors@.len() == e0 + 2 * conflicts@.len(),
            e0 == errs0.len(),
            errs0 == old(errors)@,
            forall|j: int| 0 <= j < e0 ==> errors@[j] == errs0[j],
            forall|q: Seq<char>| #[trigger] resolve(claims_of(vs.subrange(0, si as int))).1.contains(q) ==> conflict_logged(errors@, specs@, q),
        decreases specs@.len() - si,
    {
        let ghost base = claims_of(vs.subrange(0, si as int));
        let ghost sc = spec_claims(vs[si as int], si as int);
        proof {
            lemma_claims_step(vs, si as int);
            assert(vs[si as int] == spec_view(specs@[si as int]));
            assert(sc.len() == specs@[si as int].devices@.len());
            assert(base + sc.subrange(0, 0) =~= base);
        }
        let mut di: usize = 0;
        while di < specs[si].devices.len()
            invariant
                vs == spec_views(specs@),
                0 <= si < specs@.len(),
                0 <= di <= specs@[si as int].devices@.len(),
                base == claims_of(vs.subrange(0, si as int)),
                sc == spec_claims(vs[si as int], si as int),
                sc.len() == specs@[si as int].devices@.len(),
                index_ok(index@, resolve(base + sc.subrange(0, di as int)).0),
                names_ok(conflicts@, resolve(base + sc.subrange(0, di as int)).1),
                forall|i: int| 0 <= i < index@.len() ==> entry_valid(#[trigger] index@[i], specs@),
                errors@.len() == e0 + 2 * conflicts@.len(),
                e0 == errs0.len(),
                errs0 == old(errors)@,
                forall|j: int| 0 <= j < e0 ==> errors@[j] == errs0[j],
                forall|q: Seq<char>| #[trigger] resolve(base + sc.subrange(0, di as int)).1.contains(q) ==> conflict_logged(errors@, specs@, q),
            decreases specs@[si as int].devices@.len() - di,
        {
            take_claim(&mut index, &mut conflicts, errors, specs, si, di, Ghost(base + sc.subrange(0, di as int)));
            assert((base + sc.subrange(0, di as int)).push(sc[di as int]) =~= base + sc.subrange(0, di + 1));
            di = di + 1;
        }
        assert(sc.subrange(0, sc.len() as int) =~= sc);
        si = si + 1;
    }
    assert(vs.subrange(0, specs@.len() as int) =~= vs);
    let ghost m = resolve(claims_of(vs)).0;
    let ghost conf = resolve(claims_of(vs)).1;
    proof {
        if conflicts@.len() == 0 {
            assert(conf =~= Set::<Seq<char>>::empty());
        } else {
            assert(conf.contains(conflicts@[0]@));
        }
    }
    drop_conflicts(&index, &conflicts, specs, Ghost(m), Ghost(conf))
}

/// The entries of `index` whose names are not among `conflicts`.
fn drop_conflicts(
    index: &Vec<IndexEntry>,
    conflicts: &Vec<String>,
    specs: &Vec<Spec>,
    m: Ghost<Map<Seq<char>, Claim>>,
    conf: Ghost<Set<Seq<char>>>,
) -> (out: Vec<IndexEntry>)
    requires
        index_ok(index@, m@),
        names_ok(conflicts@, conf@),
        forall|j: int| 0 <= j < index@.len() ==> entry_valid(#[trigger] index@[j], specs@),
    ensures
        index_ok(out@, m@.remove_keys(conf@)),
        forall|i: int| 0 <= i < out@.len() ==> entry_valid(#[trigger] out@[i], specs@),
{
    let ghost m = m@;
    let ghost conf = conf@;
    let mut out: Vec<IndexEntry> = Vec::new();
    let mut i: usize = 0;
    while i < index.len()
        invariant
            0 <= i <= index@.len(),
            names_ok(conflicts@, conf),
            out@ == keep_free(index@.subrange(0, i as int), conf),
        decreases index@.len() - i,
    {
        let ghost sub = index@.subrange(0, i + 1);
        assert(sub.drop_last() =~= index@.subrange(0, i as int));
        assert(sub.last() == index@[i as int]);
        if !names_contain(&conflicts, index[i].name.as_str()) {
            let e = copy_entry(&index[i]);
            assert(!conf.contains(index@[i as int].name@));
            out.push(e);
        } else {
            assert(conf.contains(index@[i as int].name@));
        }
        i = i + 1;
    }
    proof {
        assert(index@.subrange(0, index@.len() as int) =~= index@);
        lemma_keep_free(index@, conf);
        let m2 = m.remove_keys(conf);
        assert forall|p: int| 0 <= p < out@.len() implies m2.contains_key((#[trigger] out@[p]).name@) && m2[out@[p].name@] == entry_claim(out@[p]) by {
            let j = choose|j: int| 0 <= j < index@.len() && #[trigger] out@[p] == #[trigger] index@[j] && !conf.contains(index@[j].name@);
        }
        assert forall|k: Seq<char>| #[trigger] m2.contains_key(k) implies exists|p: int| 0 <= p < out@.len() && (#[trigger] out@[p]).name@ == k by {
            let j = choose|j: int| 0 <= j < index@.len() && (#[trigger] index@[j]).name@ == k;
            assert(!conf.contains(index@[j].name@));
            let p = choose|p: int| 0 <= p < out@.len() && #[trigger] out@[p] == index@[j];
        }
        assert forall|p: int| 0 <= p < out@.len() implies entry_valid(#[trigger] out@[p], specs@) by {
            let j = choose|j: int| 0 <= j < index@.len() && #[trigger] out@[p] == #[trigger] index@[j] && !conf.contains(index@[j].name@);
        }
    }
    out
}

impl Cache {
    /// Replaces the cache's files and device index with those of `scan`, a
    /// fresh scan of the specification directories in directory order. Files that cannot be read
    /// or are not valid are left out, and so is every device that two files
    /// of equal priority declare; a device declared by files of different
    /// priority goes to the file of lower priority number. What went wrong is
    /// recorded by file, and the refresh fails when anything did; the new
    /// state is installed either way.
    pub fn refresh(&mut self, scan: Vec<ScannedFile>) -> (r: Result<(), usize>)
        requires
            scan_sorted(scan@),
        ensures
            specs_loaded(final(self).specs@, scan@),
            forall|q: Seq<char>| #[trigger] resolve(claims_of(loaded_views(scan@))).1.contains(q) ==> conflict_logged(
                final(self).errors@,
                final(self).specs@,
                q,
            ),
            final(self).wf(),
            spec_views(final(self).specs@) == loaded_views(scan@),
            final(self).device_map() == device_index(loaded_views(scan@)),
            final(self).spec_dirs == old(self).spec_dirs,
            final(self).auto_refresh == old(self).auto_refresh,
            r is Ok <==> final(self).errors@.len() == 0,
            r is Err ==> r->Err_0 == final(self).errors@.len(),
            final(self).errors@.len() == 0 <==> (all_load(scan@) && resolve(claims_of(loaded_views(scan@))).1 == Set::<Seq<char>>::empty()),
            forall|i: int| 0 <= i < scan@.len() && !file_loads(#[trigger] scan@[i]) ==> error_for(final(self).errors@, scan@[i].path@),
    {
        let (specs, mut errors) = load_specs(scan);
        let ghost load_errors = errors@.len();
        let ghost loaded_errors = errors@;
        let devices = build_index(&specs, &mut errors);
        proof {
            assert forall|i: int| 0 <= i < scan@.len() && !file_loads(#[trigger] scan@[i]) implies error_for(errors@, scan@[i].path@) by {
                let k = choose|k: int| 0 <= k < loaded_errors.len() && (#[trigger] loaded_errors[k]).0@ == scan@[i].path@;
                assert(errors@[k] == loaded_errors[k]);
            }
        }
        self.specs = specs;
        self.devices = devices;
        self.errors = errors;
        let n = self.errors.len();
        if n == 0 {
            Ok(())
        } else {
            Err(n)
        }
    }
}

/// Two loaded files hold the same: the same fields, the same devices.
pub open spec fn same_spec(a: Spec, b: Spec) -> bool {
    &&& a.version == b.version
    &&& a.kind == b.kind
    &&& a.annotations == b.annotations
    &&& a.container_edits == b.container_edits
    &&& a.vendor@ == b.vendor@
    &&& a.class@ == b.class@
    &&& a.path@ == b.path@
    &&& a.priority == b.priority
    &&& a.devices@.len() == b.devices@.len()
    &&& forall|i: int| 0 <= i < a.devices@.len() ==> (#[trigger] a.devices@[i]).cdi_device == b.devices@[i].cdi_device
}

/// Refreshing twice from the same scan, that is with nothing changed on
/// disk in between, loads the same files with the same content and gives
/// the same device index both times.
pub proof fn lemma_refresh_idempotent(scan: Seq<ScannedFile>, first: Cache, second: Cache)
    requires
        specs_loaded(first.specs@, scan),
        specs_loaded(second.specs@, scan),
    ensures
        first.specs@.len() == second.specs@.len(),
        forall|k: int| 0 <= k < first.specs@.len() ==> same_spec(#[trigger] first.specs@[k], second.specs@[k]),
        first.device_map() == second.device_map(),
{
    let n = first.specs@.len();
    assert forall|k: int| 0 <= k < n implies same_spec(#[trigger] first.specs@[k], second.specs@[k]) by {
        let a = first.specs@[k];
        let b = second.specs@[k];
        assert(loaded_spec(a, loaded_files(scan)[k].content->Ok_0, loaded_files(scan)[k].path@, loaded_files(scan)[k].priority));
        assert(loaded_spec(b, loaded_files(scan)[k].content->Ok_0, loaded_files(scan)[k].path@, loaded_files(scan)[k].priority));
    }
    assert(spec_views(first.specs@) =~= spec_views(second.specs@)) by {
        assert forall|k: int| 0 <= k < n implies spec_views(first.specs@)[k] == spec_views(second.specs@)[k] by {
            let a = first.specs@[k];
            let b = second.specs@[k];
            assert(same_spec(a, b));
            assert(device_names(a.devices@) =~= device_names(b.devices@));
        }
    }
}

/// Two files that each declare one device under the same qualified name:
/// with equal priority the name is a conflict and leaves the index; else the
/// file of lower priority number keeps it.
pub proof fn lemma_two_files_one_name(a: SpecView, b: SpecView)
    requires
        a.3.len() == 1,
        b.3.len() == 1,
        qualified(a.0, a.1, a.3[0]) == qualified(b.0, b.1, b.3[0]),
    ensures
        ({
            let q = qualified(a.0, a.1, a.3[0]);
            let vs = seq![a, b];
            &&& a.2 == b.2 ==> !device_index(vs).contains_key(q) && resolve(claims_of(vs)).1.contains(q)
            &&& a.2 < b.2 ==> device_index(vs).contains_key(q) && device_index(vs)[q] == (q, 0int, 0int, a.2)
            &&& b.2 < a.2 ==> device_index(vs).contains_key(q) && device_index(vs)[q] == (q, 1int, 0int, b.2)
        }),
{
    let q = qualified(a.0, a.1, a.3[0]);
    let vs = seq![a, b];
    let ca = (q, 0int, 0int, a.2);
    let cb = (q, 1int, 0int, b.2);
    assert(spec_claims(a, 0) =~= seq![ca]);
    assert(spec_claims(b, 1) =~= seq![cb]);
    assert(vs.drop_last() =~= seq![a]);
    assert(seq![a].drop_last() =~= Seq::<SpecView>::empty());
    assert(claims_of(Seq::<SpecView>::empty()) =~= Seq::<Claim>::empty());
    assert(claims_of(seq![a]) == claims_of(Seq::<SpecView>::empty()) + spec_claims(a, 0));
    assert(claims_of(seq![a]) =~= seq![ca]);
    assert(claims_of(vs) =~= seq![ca, cb]);
    assert(seq![ca, cb].drop_last() =~= seq![ca]);
    assert(seq![ca].drop_last() =~= Seq::<Claim>::empty());
    assert(resolve(Seq::<Claim>::empty()) == (Map::<Seq<char>, Claim>::empty(), Set::<Seq<char>>::empty()));
    let r1 = resolve(seq![ca]);
    assert(r1 == resolve_step(resolve(Seq::<Claim>::empty()), ca));
    assert(r1.0 == Map::<Seq<char>, Claim>::empty().insert(q, ca));
    assert(r1.1 == Set::<Seq<char>>::empty());
}

/// The requested names that the index does not have, in request order.
pub open spec fn unresolved(m: Map<Seq<char>, Claim>, names: Seq<Seq<char>>) -> Seq<Seq<char>>
    decreases names.len(),
{
    if names.len() == 0 {
        Seq::empty()
    } else if m.contains_key(names.last()) {
        unresolved(m, names.drop_last())
    } else {
        unresolved(m, names.drop_last()).push(names.last())
    }
}

/// The edits accumulated for a request of `names`, with the files whose
/// global edits are already in: for each known name in request order, the
/// global edits of its file the first time the file comes up, then the
/// device's own edits.
pub open spec fn inject_view(specs: Seq<Spec>, m: Map<Seq<char>, Claim>, names: Seq<Seq<char>>) -> (EditsView, Set<int>)
    decreases names.len(),
{
    if names.len() == 0 {
        (empty_view(), Set::empty())
    } else {
        let (v, seen) = inject_view(specs, m, names.drop_last());
        let n = names.last();
        if !m.contains_key(n) {
            (v, seen)
        } else {
            let si = m[n].1;
            let di = m[n].2;
            let with_global = if !seen.contains(si) && specs[si].container_edits is Some {
                append_view(v, edits_view(specs[si].container_edits->0))
            } else {
                v
            };
            (append_view(with_global, edits_view(specs[si].devices@[di].cdi_device.container_edits)), seen.insert(si))
        }
    }
}

pub open spec fn view_items<T>(o: Option<Seq<T>>) -> Seq<T> {
    match o {
        Some(s) => s,
        None => Seq::empty(),
    }
}

/// Edits that can be applied: every device node can be completed from
/// `probes`, and every hook has a known name.
pub open spec fn view_applicable(v: EditsView, probes: Seq<HostProbe>) -> bool {
    &&& nodes_resolve(view_items(v.device_nodes), probes)
    &&& forall|i: int| 0 <= i < view_items(v.hooks).len() ==> (#[trigger] hook_name_spec(view_items(v.hooks)[i].0@)) is Some
}

proof fn lemma_applicable(e: specs::ContainerEdits, probes: Seq<HostProbe>)
    ensures
        view_applicable(edits_view(e), probes) <==> (nodes_resolve(items(e.device_nodes), probes) && hooks_known(items(e.hooks))),
{
    let hs = items(e.hooks);
    lemma_hook_views(hs);
    assert(view_items(edits_view(e).hooks) == hook_views(hs));
    assert(view_items(edits_view(e).device_nodes) == items(e.device_nodes));
    if hooks_known(hs) {
        assert forall|i: int| 0 <= i < hook_views(hs).len() implies (#[trigger] hook_name_spec(hook_views(hs)[i].0@)) is Some by {
            assert(hook_views(hs)[i] == hook_view(hs[i]));
            assert(hook_name_spec(hs[i].hook_name@) is Some);
        }
    }
    if forall|i: int| 0 <= i < hook_views(hs).len() ==> (#[trigger] hook_name_spec(hook_views(hs)[i].0@)) is Some {
        assert forall|i: int| 0 <= i < hs.len() implies (#[trigger] hook_name_spec(hs[i].hook_name@)) is Some by {
            assert(hook_views(hs)[i] == hook_view(hs[i]));
            assert(hook_name_spec(hook_views(hs)[i].0@) is Some);
        }
    }
}

fn seen_contains(seen: &Vec<usize>, x: usize) -> (r: bool)
    ensures
        r == seen@.contains(x),
{
    let mut i: usize = 0;
    while i < seen.len()
        invariant
            0 <= i <= seen@.len(),
            forall|k: int| 0 <= k < i ==> seen@[k] != x,
        decreases seen@.len() - i,
    {
        if seen[i] == x {
            assert(seen@[i as int] == x);
            return true;
        }
        i = i + 1;
    }
    false
}

impl Cache {
    /// Injects the devices named `devices` into a container's runtime
    /// configuration. Every name must be in the index; otherwise the names
    /// that are not are the error and nothing is changed. The edits are
    /// accumulated in request order, each file's global edits before the
    /// first of its devices, and applied once (see `ContainerEdits::apply`);
    /// when that fails nothing is changed either.
    pub fn inject_devices(&self, target: &mut RuntimeConfig, devices: Vec<String>, probes: &Vec<HostProbe>) -> (r: Result<(), InjectError>)
        requires
            self.wf(),
        ensures
            unresolved(self.device_map(), text_views(devices@)).len() > 0 ==> r is Err && r->Err_0 is Unresolved
                && text_views(r->Err_0->Unresolved_0@) == unresolved(self.device_map(), text_views(devices@)),
            unresolved(self.device_map(), text_views(devices@)).len() == 0 ==> (r is Ok <==> view_applicable(
                inject_view(self.specs@, self.device_map(), text_views(devices@)).0,
                probes@,
            )),
            r is Err ==> *final(target) == *old(target),
            r is Ok ==> exists|e: specs::ContainerEdits|
                edits_view(e) == inject_view(self.specs@, self.device_map(), text_views(devices@)).0
                    && #[trigger] applied(*old(target), e, probes@, *final(target)),
    {
        let ghost m = self.device_map();
        let ghost names = text_views(devices@);
        let mut missing: Vec<String> = Vec::new();
        let mut i: usize = 0;
        while i < devices.len()
            invariant
                self.wf(),
                m == self.device_map(),
                names == text_views(devices@),
                0 <= i <= devices@.len(),
                text_views(missing@) == unresolved(m, names.subrange(0, i as int)),
            decreases devices@.len() - i,
        {
            let ghost sub = names.subrange(0, i + 1);
            assert(sub.drop_last() =~= names.subrange(0, i as int));
            assert(sub.last() == devices@[i as int]@);
            match self.find_entry(devices[i].as_str()) {
                Some(k) => {
                    assert(m.contains_key(devices@[i as int]@));
                },
                None => {
                    assert(!m.contains_key(devices@[i as int]@)) by {
                        if m.contains_key(devices@[i as int]@) {
                            let j = choose|j: int| 0 <= j < self.devices@.len() && (#[trigger] self.devices@[j]).name@ == devices@[i as int]@;
                        }
                    }
                    let ghost before = text_views(missing@);
                    missing.push(devices[i].clone());
                    assert(text_views(missing@) =~= before.push(devices@[i as int]@));
                },
            }
            i = i + 1;
        }
        assert(names.subrange(0, names.len() as int) =~= names);
        if missing.len() > 0 {
            return Err(InjectError::Unresolved(missing));
        }
        let mut edits = ContainerEdits::new();
        let mut seen: Vec<usize> = Vec::new();
        let mut i: usize = 0;
        while i < devices.len()
            invariant
                self.wf(),
                m == self.device_map(),
                names == text_views(devices@),
                0 <= i <= devices@.len(),
                edits.view() == inject_view(self.specs@, m, names.subrange(0, i as int)).0,
                forall|x: int| #[trigger] inject_view(self.specs@, m, names.subrange(0, i as int)).1.contains(x) <==> (exists|j: int| 0 <= j < seen@.len() && (#[trigger] seen@[j]) as int == x),
            decreases devices@.len() - i,
        {
            let ghost sub = names.subrange(0, i + 1);
            assert(sub.drop_last() =~= names.subrange(0, i as int));
            assert(sub.last() == devices@[i as int]@);
            match self.find_entry(devices[i].as_str()) {
                Some(k) => {
                    let e = &self.devices[k];
                    let si = e.spec;
                    let di = e.device;
                    proof {
                        assert(entry_valid(self.devices@[k as int], self.specs@));
                        assert(m.contains_key(devices@[i as int]@));
                        assert(m[devices@[i as int]@] == entry_claim(self.devices@[k as int]));
                    }
                    let ghost set0 = inject_view(self.specs@, m, names.subrange(0, i as int)).1;
                    let ghost seen0 = seen@;
                    let fresh = !seen_contains(&seen, si);
                    proof {
                        if set0.contains(si as int) {
                            let j = choose|j: int| 0 <= j < seen0.len() && (#[trigger] seen0[j]) as int == si as int;
                            assert(seen0.contains(si));
                        }
                        if seen0.contains(si) {
                            let j = choose|j: int| 0 <= j < seen0.len() && seen0[j] == si;
                            assert((seen0[j]) as int == si as int);
                        }
                    }
                    if fresh {
                        if let Some(ce) = self.specs[si].edits() {
                            edits.append(ce);
                        }
                        seen.push(si);
                    }
                    proof {
                        let set1 = set0.insert(si as int);
                        assert forall|x: int| #[trigger] set1.contains(x) <==> (exists|j: int| 0 <= j < seen@.len() && (#[trigger] seen@[j]) as int == x) by {
                            if set1.contains(x) {
                                if x == si as int {
                                    if fresh {
                                        assert(seen@[seen0.len() as int] as int == x);
                                    } else {
                                        let j = choose|j: int| 0 <= j < seen0.len() && seen0[j] == si;
                                        assert(seen@[j] as int == x);
                                    }
                                } else {
                                    let j = choose|j: int| 0 <= j < seen0.len() && (#[trigger] seen0[j]) as int == x;
                                    assert(seen@[j] == seen0[j]);
                                }
                            }
                            if exists|j: int| 0 <= j < seen@.len() && (#[trigger] seen@[j]) as int == x {
                                let j = choose|j: int| 0 <= j < seen@.len() && (#[trigger] seen@[j]) as int == x;
                                if j < seen0.len() {
                                    assert(seen0[j] == seen@[j]);
                                    assert(set0.contains(x));
                                }
                            }
                        }
                    }
                    let de = self.specs[si].devices[di].edits();
                    edits.append(de);
                },
                None => {
                    assert(!m.contains_key(devices@[i as int]@)) by {
                        if m.contains_key(devices@[i as int]@) {
                            let j = choose|j: int| 0 <= j < self.devices@.len() && (#[trigger] self.devices@[j]).name@ == devices@[i as int]@;
                        }
                    }
                },
            }
            i = i + 1;
        }
        proof {
            lemma_applicable(edits.container_edits, probes@);
        }
        match edits.apply(target, probes) {
            Ok(()) => {
                assert(applied(*old(target), edits.container_edits, probes@, *target));
                Ok(())
            },
            Err(e) => Err(InjectError::Apply(e)),
        }
    }
}

/// The requested names that are known devices, sorted, each once.
pub fn find_target_devices(devices: Vec<String>, patterns: Vec<String>) -> (r: Vec<String>)
    ensures
        strictly_sorted(text_views(r@)),
        forall|k: Seq<char>| text_views(r@).contains(k) <==> (text_views(devices@).contains(k) && text_views(patterns@).contains(k)),
{
    let mut out: Vec<String> = Vec::new();
    let mut i: usize = 0;
    while i < patterns.len()
        invariant
            0 <= i <= patterns@.len(),
            strictly_sorted(text_views(out@)),
            forall|k: Seq<char>| text_views(out@).contains(k) <==> (text_views(devices@).contains(k) && exists|j: int| 0 <= j < i && (#[trigger] patterns@[j])@ == k),
        decreases patterns@.len() - i,
    {
        let ghost before = text_views(out@);
        let known = names_contain(&devices, patterns[i].as_str());
        proof {
            if known {
                let j = choose|j: int| 0 <= j < devices@.len() && (#[trigger] devices@[j])@ == patterns@[i as int]@;
                assert(text_views(devices@)[j] == patterns@[i as int]@);
            } else {
                assert forall|j: int| 0 <= j < text_views(devices@).len() implies text_views(devices@)[j] != patterns@[i as int]@ by {
                    assert(text_views(devices@)[j] == devices@[j]@);
                }
            }
        }
        if known {
            sorted_insert(&mut out, patterns[i].clone());
        }
        assert forall|k: Seq<char>| text_views(out@).contains(k) <==> (text_views(devices@).contains(k) && exists|j: int| 0 <= j < i + 1 && (#[trigger] patterns@[j])@ == k) by {
            if exists|j: int| 0 <= j < i + 1 && (#[trigger] patterns@[j])@ == k {
                let j = choose|j: int| 0 <= j < i + 1 && (#[trigger] patterns@[j])@ == k;
                if j < i && text_views(devices@).contains(k) {
                    assert(before.contains(k));
                }
            }
        }
        i = i + 1;
    }
    assert forall|k: Seq<char>| text_views(out@).contains(k) <==> (text_views(devices@).contains(k) && text_views(patterns@).contains(k)) by {
        if text_views(patterns@).contains(k) {
            let j = choose|j: int| 0 <= j < text_views(patterns@).len() && text_views(patterns@)[j] == k;
            assert(patterns@[j]@ == k);
        }
        if exists|j: int| 0 <= j < patterns@.len() && (#[trigger] patterns@[j])@ == k {
            let j = choose|j: int| 0 <= j < patterns@.len() && (#[trigger] patterns@[j])@ == k;
            assert(text_views(patterns@)[j] == k);
        }
    }
    out
}

/// Claims in non-decreasing priority number.
pub open spec fn claims_sorted(cs: Seq<Claim>) -> bool {
    forall|i: int, j: int| 0 <= i < j < cs.len() ==> (#[trigger] cs[i]).3 <= (#[trigger] cs[j]).3
}

/// Loaded files in non-decreasing priority number.
pub open spec fn views_sorted(vs: Seq<SpecView>) -> bool {
    forall|i: int, j: int| 0 <= i < j < vs.len() ==> (#[trigger] vs[i]).2 <= (#[trigger] vs[j]).2
}

/// The index of the first claim on `q`, or -1 when there is none.
pub open spec fn first_claim(cs: Seq<Claim>, q: Seq<char>) -> int
    decreases cs.len(),
{
    if cs.len() == 0 {
        -1
    } else if first_claim(cs.drop_last(), q) >= 0 {
        first_claim(cs.drop_last(), q)
    } else if cs.last().0 == q {
        cs.len() - 1
    } else {
        -1
    }
}

/// Some later claim on `q` has the priority of its first claim.
pub open spec fn tied(cs: Seq<Claim>, q: Seq<char>) -> bool {
    first_claim(cs, q) >= 0 && exists|j: int|
        first_claim(cs, q) < j < cs.len() && (#[trigger] cs[j]).0 == q && cs[j].3 == cs[first_claim(cs, q)].3
}

proof fn lemma_first_claim(cs: Seq<Claim>, q: Seq<char>)
    ensures
        -1 <= first_claim(cs, q) < cs.len(),
        first_claim(cs, q) >= 0 ==> cs[first_claim(cs, q)].0 == q,
        forall|j: int| 0 <= j < cs.len() && (first_claim(cs, q) < 0 || j < first_claim(cs, q)) ==> (#[trigger] cs[j]).0 != q,
    decreases cs.len(),
{
    if cs.len() > 0 {
        let p = cs.drop_last();
        lemma_first_claim(p, q);
        assert forall|j: int| 0 <= j < cs.len() && (first_claim(cs, q) < 0 || j < first_claim(cs, q)) implies (#[trigger] cs[j]).0 != q by {
            if j < p.len() {
                assert(cs[j] == p[j]);
            }
        }
    }
}

/// Over claims in priority order, each name is held by its first claim and
/// conflicts exactly when a later claim ties with it.
proof fn lemma_resolve_sorted(cs: Seq<Claim>)
    requires
        claims_sorted(cs),
    ensures
        forall|q: Seq<char>| #[trigger] resolve(cs).0.contains_key(q) <==> first_claim(cs, q) >= 0,
        forall|q: Seq<char>| #[trigger] resolve(cs).0.contains_key(q) ==> resolve(cs).0[q] == cs[first_claim(cs, q)],
        forall|q: Seq<char>| #[trigger] resolve(cs).1.contains(q) <==> tied(cs, q),
    decreases cs.len(),
{
    if cs.len() > 0 {
        let p = cs.drop_last();
        let c = cs.last();
        assert(claims_sorted(p)) by {
            assert forall|i: int, j: int| 0 <= i < j < p.len() implies (#[trigger] p[i]).3 <= (#[trigger] p[j]).3 by {
                assert(p[i] == cs[i] && p[j] == cs[j]);
            }
        }
        lemma_resolve_sorted(p);
        let (m, conf) = resolve(p);
        assert forall|q: Seq<char>| #[trigger] resolve(cs).0.contains_key(q) <==> first_claim(cs, q) >= 0 by {
            lemma_first_claim(p, q);
        }
        assert forall|q: Seq<char>| #[trigger] resolve(cs).0.contains_key(q) implies resolve(cs).0[q] == cs[first_claim(cs, q)] by {
            lemma_first_claim(p, q);
            if first_claim(p, q) >= 0 {
                assert(cs[first_claim(p, q)] == p[first_claim(p, q)]);
                if q == c.0 {
                    assert(c.3 >= cs[first_claim(p, q)].3);
                }
            }
        }
        assert forall|q: Seq<char>| #[trigger] resolve(cs).1.contains(q) <==> tied(cs, q) by {
            lemma_first_claim(p, q);
            lemma_first_claim(cs, q);
            let f = first_claim(p, q);
            if f >= 0 {
                assert(cs[f] == p[f]);
                assert(first_claim(cs, q) == f);
                if tied(p, q) {
                    let j = choose|j: int| f < j < p.len() && (#[trigger] p[j]).0 == q && p[j].3 == p[f].3;
                    assert(cs[j] == p[j]);
                }
                if tied(cs, q) {
                    let j = choose|j: int| f < j < cs.len() && (#[trigger] cs[j]).0 == q && cs[j].3 == cs[f].3;
                    if j < p.len() {
                        assert(cs[j] == p[j]);
                        assert(tied(p, q));
                    }
                }
                if q == c.0 {
                    assert(m.contains_key(q));
                    assert(m[q] == p[f]);
                    assert(c.3 >= cs[f].3);
                    if c.3 == cs[f].3 {
                        assert(cs[cs.len() - 1] == c);
                        assert(tied(cs, q));
                    }
                }
            } else {
                assert(!conf.contains(q));
                if q == c.0 {
                    assert(first_claim(cs, q) == cs.len() - 1);
                }
            }
        }
    }
}

proof fn lemma_claims_of(vs: Seq<SpecView>)
    ensures
        forall|k: int| 0 <= k < claims_of(vs).len() ==> 0 <= (#[trigger] claims_of(vs)[k]).1 < vs.len()
            && claims_of(vs)[k].3 == vs[claims_of(vs)[k].1].2,
        views_sorted(vs) ==> claims_sorted(claims_of(vs)),
    decreases vs.len(),
{
    if vs.len() > 0 {
        let p = vs.drop_last();
        lemma_claims_of(p);
        let a = claims_of(p);
        let b = spec_claims(vs.last(), vs.len() - 1);
        let cs = claims_of(vs);
        assert(cs == a + b);
        assert forall|k: int| 0 <= k < cs.len() implies 0 <= (#[trigger] cs[k]).1 < vs.len() && cs[k].3 == vs[cs[k].1].2 by {
            if k < a.len() {
                assert(cs[k] == a[k]);
                assert(vs[a[k].1] == p[a[k].1]);
            } else {
                assert(cs[k] == b[k - a.len()]);
            }
        }
        if views_sorted(vs) {
            assert(views_sorted(p)) by {
                assert forall|i: int, j: int| 0 <= i < j < p.len() implies (#[trigger] p[i]).2 <= (#[trigger] p[j]).2 by {
                    assert(p[i] == vs[i] && p[j] == vs[j]);
                }
            }
            assert forall|i: int, j: int| 0 <= i < j < cs.len() implies (#[trigger] cs[i]).3 <= (#[trigger] cs[j]).3 by {
                if j < a.len() {
                    assert(cs[i] == a[i] && cs[j] == a[j]);
                } else if i < a.len() {
                    assert(cs[i] == a[i]);
                    assert(cs[j] == b[j - a.len()]);
                    assert(vs[a[i].1] == p[a[i].1]);
                    if a[i].1 < vs.len() - 1 {
                        assert(vs[a[i].1].2 <= vs[vs.len() - 1].2);
                    }
                } else {
                    assert(cs[i] == b[i - a.len()] && cs[j] == b[j - a.len()]);
                }
            }
        }
    }
}

/// The files of a scan in directory order load in priority order.
pub proof fn lemma_loaded_views_sorted(scan: Seq<ScannedFile>)
    requires
        scan_sorted(scan),
    ensures
        views_sorted(loaded_views(scan)),
        forall|k: int| 0 <= k < loaded_views(scan).len() ==> exists|i: int| 0 <= i < scan.len() && (#[trigger] loaded_views(scan)[k]).2 == (#[trigger] scan[i]).priority,
    decreases scan.len(),
{
    if scan.len() > 0 {
        let p = scan.drop_last();
        assert(scan_sorted(p)) by {
            assert forall|i: int, j: int| 0 <= i < j < p.len() implies (#[trigger] p[i]).priority <= (#[trigger] p[j]).priority by {
                assert(p[i] == scan[i] && p[j] == scan[j]);
            }
        }
        lemma_loaded_views_sorted(p);
        let lp = loaded_views(p);
        let l = loaded_views(scan);
        assert forall|k: int| 0 <= k < l.len() implies exists|i: int| 0 <= i < scan.len() && (#[trigger] l[k]).2 == (#[trigger] scan[i]).priority by {
            if k < lp.len() {
                assert(l[k] == lp[k]);
                let i = choose|i: int| 0 <= i < p.len() && (#[trigger] lp[k]).2 == (#[trigger] p[i]).priority;
                assert(scan[i] == p[i]);
            } else {
                assert(l[k].2 == scan[scan.len() - 1].priority);
            }
        }
        assert forall|i: int, j: int| 0 <= i < j < l.len() implies (#[trigger] l[i]).2 <= (#[trigger] l[j]).2 by {
            if j < lp.len() {
                assert(l[i] == lp[i] && l[j] == lp[j]);
            } else {
                assert(l[i] == lp[i]);
                let x = choose|x: int| 0 <= x < p.len() && (#[trigger] lp[i]).2 == (#[trigger] p[x]).priority;
                assert(scan[x] == p[x]);
                if x < scan.len() - 1 {
                    assert(scan[x].priority <= scan[scan.len() - 1].priority);
                }
            }
        }
    }
}

/// The device index of files loaded in priority order: a name is in it
/// exactly when some file declares it and no second claim has the priority
/// of the first claim, which is the best priority among the claims on the
/// name; it is then held by that first claim. Two files of equal best
/// priority declaring a name thus leave it out, whatever else they declare.
pub proof fn lemma_index_by_best_priority(vs: Seq<SpecView>)
    requires
        views_sorted(vs),
    ensures
        forall|j: int| 0 <= j < claims_of(vs).len() ==> first_claim(claims_of(vs), (#[trigger] claims_of(vs)[j]).0) >= 0
            && claims_of(vs)[first_claim(claims_of(vs), claims_of(vs)[j].0)].3 <= claims_of(vs)[j].3,
        forall|q: Seq<char>| #[trigger] device_index(vs).contains_key(q) <==> first_claim(claims_of(vs), q) >= 0 && !tied(claims_of(vs), q),
        forall|q: Seq<char>| #[trigger] device_index(vs).contains_key(q) ==> device_index(vs)[q] == claims_of(vs)[first_claim(claims_of(vs), q)],
        forall|q: Seq<char>| #[trigger] resolve(claims_of(vs)).1.contains(q) <==> tied(claims_of(vs), q),
{
    let cs = claims_of(vs);
    lemma_claims_of(vs);
    lemma_resolve_sorted(cs);
    assert forall|j: int| 0 <= j < cs.len() implies first_claim(cs, (#[trigger] cs[j]).0) >= 0
        && cs[first_claim(cs, cs[j].0)].3 <= cs[j].3 by {
        let q = cs[j].0;
        lemma_first_claim(cs, q);
        if first_claim(cs, q) < 0 || j < first_claim(cs, q) {
            assert(cs[j].0 != q);
        }
    }
}

} // verus!
