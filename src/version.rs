//! Format versions of specification files and the features each requires.
use vstd::prelude::*;
use crate::chars::{alphabetic, contains_char, is_alphabetic_char, lacks, same_text};
use crate::parser::{parse_qualifier, qualifier_parts};
use crate::specs::{self, items};

verus! {

pub const V010: &'static str = "v0.1.0";
pub const V020: &'static str = "v0.2.0";
pub const V030: &'static str = "v0.3.0";
pub const V040: &'static str = "v0.4.0";
pub const V050: &'static str = "v0.5.0";
pub const V060: &'static str = "v0.6.0";
pub const V070: &'static str = "v0.7.0";

pub open spec fn digit_text(n: nat) -> char {
    if n == 0 { '0' } else if n == 1 { '1' } else if n == 2 { '2' } else if n == 3 { '3' }
    else if n == 4 { '4' } else if n == 5 { '5' } else if n == 6 { '6' } else if n == 7 { '7' }
    else if n == 8 { '8' } else { '9' }
}

/// `n` in decimal, without leading zeros.
pub open spec fn decimal(n: nat) -> Seq<char>
    decreases n,
{
    if n < 10 {
        seq![digit_text(n)]
    } else {
        decimal(n / 10) + seq![digit_text(n % 10)]
    }
}

/// The plain semantic version text `major.minor.patch`.
pub open spec fn version_text(major: nat, minor: nat, patch: nat) -> Seq<char> {
    decimal(major) + seq!['.'] + decimal(minor) + seq!['.'] + decimal(patch)
}

/// Relies on semver's `Version::parse`: three decimal numbers without leading
/// zeros, joined by dots and with nothing after them, parse to those numbers.
#[verifier::external_body]
fn parse_semver(s: &str) -> (r: Option<(u64, u64, u64)>)
    ensures
        forall|a: u64, b: u64, c: u64|
            s@ == #[trigger] version_text(a as nat, b as nat, c as nat) ==> r == Some((a, b, c)),
{
    semver::Version::parse(s).ok().map(|v| (v.major, v.minor, v.patch))
}

/// `s` without its leading `v`s.
pub open spec fn trim_v(s: Seq<char>) -> Seq<char>
    decreases s.len(),
{
    if s.len() > 0 && s[0] == 'v' {
        trim_v(s.drop_first())
    } else {
        s
    }
}

/// The minor number of a released format version `0.N.0`, given without `v`.
pub open spec fn release_minor(t: Seq<char>) -> Option<nat> {
    if t == "0.1.0"@ {
        Some(1)
    } else if t == "0.2.0"@ {
        Some(2)
    } else if t == "0.3.0"@ {
        Some(3)
    } else if t == "0.4.0"@ {
        Some(4)
    } else if t == "0.5.0"@ {
        Some(5)
    } else if t == "0.6.0"@ {
        Some(6)
    } else if t == "0.7.0"@ {
        Some(7)
    } else {
        None
    }
}

/// A version text, `v`s stripped, that parses as a plain semantic version.
pub open spec fn plain_version(t: Seq<char>) -> bool {
    exists|a: u64, b: u64, c: u64| t == #[trigger] version_text(a as nat, b as nat, c as nat)
}

pub proof fn lemma_release_text(m: nat)
    requires
        1 <= m <= 7,
    ensures
        release_minor(version_text(0, m, 0)) == Some(m),
        trim_v(version_text(0, m, 0)) == version_text(0, m, 0),
{
    reveal_strlit("0.1.0");
    reveal_strlit("0.2.0");
    reveal_strlit("0.3.0");
    reveal_strlit("0.4.0");
    reveal_strlit("0.5.0");
    reveal_strlit("0.6.0");
    reveal_strlit("0.7.0");
    let t = version_text(0, m, 0);
    assert(decimal(0) == seq!['0']);
    assert(decimal(m) == seq![digit_text(m)]);
    assert(t =~= seq!['0', '.', digit_text(m), '.', '0']);
    if m == 1 { assert(t =~= "0.1.0"@); }
    if m == 2 { assert(t =~= "0.2.0"@); }
    if m == 3 { assert(t =~= "0.3.0"@); }
    if m == 4 { assert(t =~= "0.4.0"@); }
    if m == 5 { assert(t =~= "0.5.0"@); }
    if m == 6 { assert(t =~= "0.6.0"@); }
    if m == 7 { assert(t =~= "0.7.0"@); }
}

/// A released version's text is the plain version `0.N.0`.
pub proof fn lemma_release_minor_text(t: Seq<char>)
    requires
        release_minor(t) is Some,
    ensures
        t == version_text(0, release_minor(t)->0, 0),
        plain_version(t),
{
    let m = release_minor(t)->0;
    lemma_release_text(m);
    assert(version_text(0u64 as nat, m as u64 as nat, 0u64 as nat) == version_text(0, m, 0));
}

/// Each released version is `v` followed by the plain version `0.N.0`.
pub proof fn lemma_released(k: int)
    requires
        0 <= k < 7,
    ensures
        released()[k] == seq!['v'] + version_text(0, (k + 1) as nat, 0),
        seq!['v'] + trim_v(released()[k]) == released()[k],
        release_minor(released()[k].drop_first()) == Some((k + 1) as nat),
{
    reveal_strlit("v0.1.0");
    reveal_strlit("v0.2.0");
    reveal_strlit("v0.3.0");
    reveal_strlit("v0.4.0");
    reveal_strlit("v0.5.0");
    reveal_strlit("v0.6.0");
    reveal_strlit("v0.7.0");
    let m = (k + 1) as nat;
    lemma_release_text(m);
    let t = version_text(0, m, 0);
    assert(decimal(0) == seq!['0']);
    assert(decimal(m) == seq![digit_text(m)]);
    assert(t =~= seq!['0', '.', digit_text(m), '.', '0']);
    let r = released()[k];
    if k == 0 { assert(r =~= seq!['v'] + t); }
    if k == 1 { assert(r =~= seq!['v'] + t); }
    if k == 2 { assert(r =~= seq!['v'] + t); }
    if k == 3 { assert(r =~= seq!['v'] + t); }
    if k == 4 { assert(r =~= seq!['v'] + t); }
    if k == 5 { assert(r =~= seq!['v'] + t); }
    if k == 6 { assert(r =~= seq!['v'] + t); }
    assert(r.drop_first() =~= t);
    assert(trim_v(r) == trim_v(t));
}

/// A format version, kept as `v` followed by the version number.
#[derive(Clone, Debug)]
pub struct VersionWrapper(pub String);

impl VersionWrapper {
    /// `v` followed by `v` with its leading `v`s removed.
    pub fn new(v: &str) -> (r: VersionWrapper)
        ensures
            r.0@ == seq!['v'] + trim_v(v@),
    {
        let n = v.unicode_len();
        let mut i: usize = 0;
        assert(v@.subrange(0, n as int) =~= v@);
        while i < n && v.get_char(i) == 'v'
            invariant
                n == v@.len(),
                0 <= i <= n,
                trim_v(v@) == trim_v(v@.subrange(i as int, n as int)),
            decreases n - i,
        {
            proof {
                let t = v@.subrange(i as int, n as int);
                assert(t.drop_first() =~= v@.subrange(i + 1, n as int));
            }
            i = i + 1;
        }
        let mut s = String::from_str("v");
        s.append(v.substring_char(i, n));
        proof {
            reveal_strlit("v");
        }
        VersionWrapper(s)
    }

    /// The version number, without the leading `v`.
    pub fn number(&self) -> (r: &str)
        requires
            self.0@.len() > 0,
        ensures
            r@ == self.0@.drop_first(),
    {
        let s = self.0.as_str();
        let r = s.substring_char(1, s.unicode_len());
        assert(r@ =~= self.0@.drop_first());
        r
    }

    /// Whether this version is greater than `other` as semantic versions.
    pub fn is_greater_than(&self, other: &VersionWrapper) -> (r: bool)
        requires
            self.0@.len() > 0 && plain_version(self.0@.drop_first()),
            other.0@.len() > 0 && plain_version(other.0@.drop_first()),
        ensures
            forall|a: u64, b: u64, c: u64, x: u64, y: u64, z: u64|
                self.0@.drop_first() == #[trigger] version_text(a as nat, b as nat, c as nat)
                    && other.0@.drop_first() == #[trigger] version_text(x as nat, y as nat, z as nat)
                    ==> r == (a > x || (a == x && b > y) || (a == x && b == y && c > z)),
    {
        let mine = parse_semver(self.number());
        let theirs = parse_semver(other.number());
        match (mine, theirs) {
            (Some((a, b, c)), Some((x, y, z))) => a > x || (a == x && b > y) || (a == x && b == y
                && c > z),
            _ => false,
        }
    }

    fn is_latest(&self) -> (r: bool)
        ensures
            r == (self.0@ == V070@),
    {
        same_text(self.0.as_str(), V070)
    }
}

/// The released format versions, `v0.1.0` to `v0.7.0`.
pub open spec fn released() -> Seq<Seq<char>> {
    seq![V010@, V020@, V030@, V040@, V050@, V060@, V070@]
}

/// The format versions a specification file may declare.
pub struct VersionMap {
    pub versions: Vec<&'static str>,
}

impl VersionMap {
    pub open spec fn wf(&self) -> bool {
        self.versions@.map_values(|v: &'static str| v@) == released()
    }

    /// The released versions.
    pub fn valid_spec_versions() -> (r: VersionMap)
        ensures
            r.wf(),
    {
        let versions = vec![V010, V020, V030, V040, V050, V060, V070];
        let r = VersionMap { versions };
        assert(r.versions@.map_values(|v: &'static str| v@) =~= released());
        r
    }

    /// Whether `spec_version`, with or without leading `v`, is a released version.
    pub fn is_valid_version(&self, spec_version: &str) -> (r: bool)
        requires
            self.wf(),
        ensures
            r == (release_minor(trim_v(spec_version@)) is Some),
    {
        let w = VersionWrapper::new(spec_version);
        proof {
            reveal_strlit("v0.1.0");
            reveal_strlit("v0.2.0");
            reveal_strlit("v0.3.0");
            reveal_strlit("v0.4.0");
            reveal_strlit("v0.5.0");
            reveal_strlit("v0.6.0");
            reveal_strlit("v0.7.0");
            reveal_strlit("0.1.0");
            reveal_strlit("0.2.0");
            reveal_strlit("0.3.0");
            reveal_strlit("0.4.0");
            reveal_strlit("0.5.0");
            reveal_strlit("0.6.0");
            reveal_strlit("0.7.0");
        }
        let mut i: usize = 0;
        assert(self.versions@.map_values(|v: &'static str| v@).len() == self.versions@.len());
        while i < self.versions.len()
            invariant
                self.wf(),
                self.versions@.len() == 7,
                0 <= i <= self.versions@.len(),
                w.0@ == seq!['v'] + trim_v(spec_version@),
                forall|k: int| 0 <= k < i ==> released()[k] != w.0@,
            decreases self.versions@.len() - i,
        {
            assert(self.versions@.map_values(|v: &'static str| v@)[i as int] == self.versions@[i as int]@);
            if same_text(self.versions[i], w.0.as_str()) {
                assert(released()[i as int] == w.0@);
                proof {
                    lemma_released(i as int);
                }
                assert(trim_v(spec_version@) =~= w.0@.drop_first());
                return true;
            }
            i = i + 1;
        }
        assert(released().len() == 7);
        proof { if release_minor(trim_v(spec_version@)) is Some {
            let t = trim_v(spec_version@);
            assert(w.0@ == seq!['v'] + t);
            if t == "0.1.0"@ { assert(w.0@ =~= released()[0]); }
            if t == "0.2.0"@ { assert(w.0@ =~= released()[1]); }
            if t == "0.3.0"@ { assert(w.0@ =~= released()[2]); }
            if t == "0.4.0"@ { assert(w.0@ =~= released()[3]); }
            if t == "0.5.0"@ { assert(w.0@ =~= released()[4]); }
            if t == "0.6.0"@ { assert(w.0@ =~= released()[5]); }
            if t == "0.7.0"@ { assert(w.0@ =~= released()[6]); }
        } }
        false
    }

    /// The lowest format version that can express everything `spec` uses.
    pub fn required_version(&self, spec: &specs::Spec) -> (r: VersionWrapper)
        ensures
            r.0@ == seq!['v'] + version_text(0, required_minor(*spec), 0),
    {
        proof {
            reveal_strlit("v0.3.0");
            reveal_strlit("v0.4.0");
            reveal_strlit("v0.5.0");
            reveal_strlit("v0.6.0");
            reveal_strlit("v0.7.0");
            reveal_strlit("0.3.0");
            reveal_strlit("0.4.0");
            reveal_strlit("0.5.0");
            reveal_strlit("0.6.0");
            reveal_strlit("0.7.0");
        }
        let mut min_version = VersionWrapper::new(V030);
        proof {
            lemma_released(2);
            lemma_released(3);
            lemma_released(4);
            lemma_released(5);
            lemma_released(6);
            lemma_release_text(3);
            lemma_release_text(4);
            lemma_release_text(5);
            lemma_release_text(6);
            lemma_release_text(7);
            assert(min_version.0@ =~= seq!['v'] + version_text(0, 3, 0));
            assert(min_version.0@.drop_first() =~= version_text(0, 3, 0));
            assert(version_text(0u64 as nat, 3u64 as nat, 0u64 as nat) == version_text(0, 3, 0));
        }
        let ghost mut m: nat = 3;
        if requires_v040(spec) {
            let v = VersionWrapper::new(V040);
            proof {
                assert(v.0@ =~= seq!['v'] + version_text(0, 4, 0));
                assert(v.0@.drop_first() =~= version_text(0, 4, 0));
                assert(version_text(0u64 as nat, 4u64 as nat, 0u64 as nat) == version_text(0, 4, 0));
                assert(min_version.0@.drop_first() =~= version_text(0, m, 0));
                assert(version_text(0u64 as nat, m as u64 as nat, 0u64 as nat) == version_text(0, m, 0));
            }
            if v.is_greater_than(&min_version) {
                min_version = v;
                proof { m = 4; }
            }
        }
        if requires_v050(spec) {
            let v = VersionWrapper::new(V050);
            proof {
                assert(v.0@ =~= seq!['v'] + version_text(0, 5, 0));
                assert(v.0@.drop_first() =~= version_text(0, 5, 0));
                assert(version_text(0u64 as nat, 5u64 as nat, 0u64 as nat) == version_text(0, 5, 0));
                assert(min_version.0@.drop_first() =~= version_text(0, m, 0));
                assert(version_text(0u64 as nat, m as u64 as nat, 0u64 as nat) == version_text(0, m, 0));
            }
            if v.is_greater_than(&min_version) {
                min_version = v;
                proof { m = 5; }
            }
        }
        if requires_v060(spec) {
            let v = VersionWrapper::new(V060);
            proof {
                assert(v.0@ =~= seq!['v'] + version_text(0, 6, 0));
                assert(v.0@.drop_first() =~= version_text(0, 6, 0));
                assert(version_text(0u64 as nat, 6u64 as nat, 0u64 as nat) == version_text(0, 6, 0));
                assert(min_version.0@.drop_first() =~= version_text(0, m, 0));
                assert(version_text(0u64 as nat, m as u64 as nat, 0u64 as nat) == version_text(0, m, 0));
            }
            if v.is_greater_than(&min_version) {
                min_version = v;
                proof { m = 6; }
            }
        }
        if !min_version.is_latest() && requires_v070(spec) {
            let v = VersionWrapper::new(V070);
            proof {
                assert(v.0@ =~= seq!['v'] + version_text(0, 7, 0));
                assert(v.0@.drop_first() =~= version_text(0, 7, 0));
                assert(version_text(0u64 as nat, 7u64 as nat, 0u64 as nat) == version_text(0, 7, 0));
                assert(min_version.0@.drop_first() =~= version_text(0, m, 0));
                assert(version_text(0u64 as nat, m as u64 as nat, 0u64 as nat) == version_text(0, m, 0));
            }
            if v.is_greater_than(&min_version) {
                min_version = v;
                proof { m = 7; }
            }
        }
        min_version
    }
}

/// The lowest format version that `spec` needs.
pub fn minimum_required_version(spec: &specs::Spec) -> (r: VersionWrapper)
    ensures
        r.0@ == seq!['v'] + version_text(0, required_minor(*spec), 0),
{
    let map = VersionMap::valid_spec_versions();
    map.required_version(spec)
}

/// The minor number of the lowest format version `0.N.0` that `spec` needs:
/// the newest release whose features it uses, at least `0.3.0`.
pub open spec fn required_minor(spec: specs::Spec) -> nat {
    if uses_v070(spec) {
        7
    } else if uses_v060(spec) {
        6
    } else if uses_v050(spec) {
        5
    } else if uses_v040(spec) {
        4
    } else {
        3
    }
}

/// The device edits of `spec`, then its global edits when it has some.
pub open spec fn all_edits(spec: specs::Spec) -> Seq<specs::ContainerEdits> {
    let d = spec.devices@.map_values(|d: specs::Device| d.container_edits);
    match spec.container_edits {
        Some(g) => d.push(g),
        None => d,
    }
}

pub open spec fn some_edits(spec: specs::Spec, p: spec_fn(specs::ContainerEdits) -> bool) -> bool {
    exists|i: int| 0 <= i < all_edits(spec).len() && p(#[trigger] all_edits(spec)[i])
}

pub open spec fn has_typed_mount(e: specs::ContainerEdits) -> bool {
    exists|j: int|
        0 <= j < items(e.mounts).len() && (#[trigger] items(e.mounts)[j]).typ is Some
            && items(e.mounts)[j].typ->0@.len() > 0
}

pub open spec fn has_host_path(e: specs::ContainerEdits) -> bool {
    exists|j: int|
        0 <= j < items(e.device_nodes).len() && (#[trigger] items(e.device_nodes)[j]).host_path is Some
            && items(e.device_nodes)[j].host_path->0@.len() > 0
}

pub open spec fn has_v070_edits(e: specs::ContainerEdits) -> bool {
    e.intel_rdt is Some || items(e.additional_gids).len() > 0
}

pub open spec fn typed_mount_pred() -> spec_fn(specs::ContainerEdits) -> bool {
    |e: specs::ContainerEdits| has_typed_mount(e)
}

pub open spec fn host_path_pred() -> spec_fn(specs::ContainerEdits) -> bool {
    |e: specs::ContainerEdits| has_host_path(e)
}

pub open spec fn v070_pred() -> spec_fn(specs::ContainerEdits) -> bool {
    |e: specs::ContainerEdits| has_v070_edits(e)
}

/// Some mount, global or of a device, names a file system type.
pub open spec fn uses_v040(spec: specs::Spec) -> bool {
    some_edits(spec, typed_mount_pred())
}

/// Some device name does not start with an alphabetic character, or some device node has a host path.
pub open spec fn uses_v050(spec: specs::Spec) -> bool {
    (exists|i: int|
        0 <= i < spec.devices@.len() && !starts_with_letter((#[trigger] spec.devices@[i]).name@))
        || some_edits(spec, host_path_pred())
}

pub open spec fn starts_with_letter(s: Seq<char>) -> bool {
    s.len() > 0 && alphabetic(s[0])
}

/// The file or some device has annotations, or the class name holds a `.`.
pub open spec fn uses_v060(spec: specs::Spec) -> bool {
    spec.annotations@.len() > 0 || (exists|i: int|
        0 <= i < spec.devices@.len() && (#[trigger] spec.devices@[i]).annotations@.len() > 0) || ({
        let (v, c) = qualifier_parts(spec.kind@);
        v.len() > 0 && !lacks(c, '.')
    })
}

/// Some edits, global or of a device, have Intel RDT settings or additional groups.
pub open spec fn uses_v070(spec: specs::Spec) -> bool {
    some_edits(spec, v070_pred())
}

fn edits_typed_mount(e: &specs::ContainerEdits) -> (r: bool)
    ensures
        r == has_typed_mount(*e),
{
    match &e.mounts {
        None => false,
        Some(ms) => {
            let mut j: usize = 0;
            while j < ms.len()
                invariant
                    e.mounts == Some(*ms),
                    0 <= j <= ms@.len(),
                    forall|k: int| 0 <= k < j ==> !((#[trigger] ms@[k]).typ is Some && ms@[k].typ->0@.len() > 0),
                decreases ms@.len() - j,
            {
                if let Some(t) = &ms[j].typ {
                    if t.as_str().unicode_len() > 0 {
                        return true;
                    }
                }
                j = j + 1;
            }
            false
        },
    }
}

fn edits_host_path(e: &specs::ContainerEdits) -> (r: bool)
    ensures
        r == has_host_path(*e),
{
    match &e.device_nodes {
        None => false,
        Some(ns) => {
            let mut j: usize = 0;
            while j < ns.len()
                invariant
                    e.device_nodes == Some(*ns),
                    0 <= j <= ns@.len(),
                    forall|k: int| 0 <= k < j ==> !((#[trigger] ns@[k]).host_path is Some && ns@[k].host_path->0@.len() > 0),
                decreases ns@.len() - j,
            {
                if let Some(h) = &ns[j].host_path {
                    if h.as_str().unicode_len() > 0 {
                        return true;
                    }
                }
                j = j + 1;
            }
            false
        },
    }
}

fn edits_v070(e: &specs::ContainerEdits) -> (r: bool)
    ensures
        r == has_v070_edits(*e),
{
    if e.intel_rdt.is_some() {
        return true;
    }
    match &e.additional_gids {
        Some(g) => g.len() > 0,
        None => false,
    }
}

proof fn lemma_all_edits(spec: specs::Spec, p: spec_fn(specs::ContainerEdits) -> bool)
    ensures
        some_edits(spec, p) <==> (exists|i: int|
            0 <= i < spec.devices@.len() && p((#[trigger] spec.devices@[i]).container_edits)) || (
        spec.container_edits is Some && p(spec.container_edits->0)),
{
    let a = all_edits(spec);
    let n = spec.devices@.len();
    assert(forall|i: int| 0 <= i < n ==> a[i] == (#[trigger] spec.devices@[i]).container_edits);
    if spec.container_edits is Some {
        assert(a[n as int] == spec.container_edits->0);
    }
    if some_edits(spec, p) {
        let i = choose|i: int| 0 <= i < a.len() && p(#[trigger] a[i]);
        if i < n {
            assert(p(spec.devices@[i].container_edits));
        }
    }
    if exists|i: int| 0 <= i < n && p((#[trigger] spec.devices@[i]).container_edits) {
        let i = choose|i: int| 0 <= i < n && p((#[trigger] spec.devices@[i]).container_edits);
        assert(p(a[i]));
    }
    if spec.container_edits is Some && p(spec.container_edits->0) {
        assert(p(a[n as int]));
    }
}

/// Whether some mount, global or of a device, names a file system type.
pub fn requires_v040(spec: &specs::Spec) -> (r: bool)
    ensures
        r == uses_v040(*spec),
{
    proof {
        lemma_all_edits(*spec, typed_mount_pred());
    }
    if let Some(g) = &spec.container_edits {
        if edits_typed_mount(g) {
            proof {
                let a = all_edits(*spec);
                assert(a[spec.devices@.len() as int] == *g);
                assert(typed_mount_pred()(a[spec.devices@.len() as int]));
            }
            return true;
        }
    }
    let mut i: usize = 0;
    while i < spec.devices.len()
        invariant
            0 <= i <= spec.devices@.len(),
            forall|k: int| 0 <= k < i ==> !has_typed_mount((#[trigger] spec.devices@[k]).container_edits),
        decreases spec.devices@.len() - i,
    {
        if edits_typed_mount(&spec.devices[i].container_edits) {
            proof {
                lemma_all_edits(*spec, typed_mount_pred());
                assert(typed_mount_pred()(spec.devices@[i as int].container_edits));
            }
            return true;
        }
        i = i + 1;
    }
    false
}

/// Whether some device name does not start with an alphabetic character or some device
/// node, global or of a device, has a host path.
pub fn requires_v050(spec: &specs::Spec) -> (r: bool)
    ensures
        r == uses_v050(*spec),
{
    proof {
        lemma_all_edits(*spec, host_path_pred());
    }
    let mut i: usize = 0;
    while i < spec.devices.len()
        invariant
            0 <= i <= spec.devices@.len(),
            forall|k: int| 0 <= k < i ==> starts_with_letter((#[trigger] spec.devices@[k]).name@),
        decreases spec.devices@.len() - i,
    {
        let name = spec.devices[i].name.as_str();
        if name.unicode_len() == 0 || !is_alphabetic_char(name.get_char(0)) {
            return true;
        }
        i = i + 1;
    }
    if let Some(g) = &spec.container_edits {
        if edits_host_path(g) {
            proof {
                let a = all_edits(*spec);
                assert(a[spec.devices@.len() as int] == *g);
                assert(host_path_pred()(a[spec.devices@.len() as int]));
            }
            return true;
        }
    }
    let mut i: usize = 0;
    while i < spec.devices.len()
        invariant
            0 <= i <= spec.devices@.len(),
            forall|k: int| 0 <= k < spec.devices@.len() ==> starts_with_letter((#[trigger] spec.devices@[k]).name@),
            forall|k: int| 0 <= k < i ==> !has_host_path((#[trigger] spec.devices@[k]).container_edits),
        decreases spec.devices@.len() - i,
    {
        if edits_host_path(&spec.devices[i].container_edits) {
            proof {
                lemma_all_edits(*spec, host_path_pred());
                assert(host_path_pred()(spec.devices@[i as int].container_edits));
            }
            return true;
        }
        i = i + 1;
    }
    false
}

/// Whether the file or a device has annotations, or the class name holds a `.`.
pub fn requires_v060(spec: &specs::Spec) -> (r: bool)
    ensures
        r == uses_v060(*spec),
{
    if spec.annotations.len() > 0 {
        return true;
    }
    let mut i: usize = 0;
    while i < spec.devices.len()
        invariant
            0 <= i <= spec.devices@.len(),
            forall|k: int| 0 <= k < i ==> (#[trigger] spec.devices@[k]).annotations@.len() == 0,
        decreases spec.devices@.len() - i,
    {
        if spec.devices[i].annotations.len() > 0 {
            return true;
        }
        i = i + 1;
    }
    let (vendor, class) = parse_qualifier(spec.kind.as_str());
    vendor.unicode_len() > 0 && contains_char(class, '.')
}

/// Whether some edits, global or of a device, have Intel RDT settings or
/// additional groups.
pub fn requires_v070(spec: &specs::Spec) -> (r: bool)
    ensures
        r == uses_v070(*spec),
{
    proof {
        lemma_all_edits(*spec, v070_pred());
    }
    if let Some(g) = &spec.container_edits {
        if edits_v070(g) {
            proof {
                let a = all_edits(*spec);
                assert(a[spec.devices@.len() as int] == *g);
                assert(v070_pred()(a[spec.devices@.len() as int]));
            }
            return true;
        }
    }
    let mut i: usize = 0;
    while i < spec.devices.len()
        invariant
            0 <= i <= spec.devices@.len(),
            forall|k: int| 0 <= k < i ==> !has_v070_edits((#[trigger] spec.devices@[k]).container_edits),
        decreases spec.devices@.len() - i,
    {
        if edits_v070(&spec.devices[i].container_edits) {
            proof {
                lemma_all_edits(*spec, v070_pred());
                assert(v070_pred()(spec.devices@[i as int].container_edits));
            }
            return true;
        }
        i = i + 1;
    }
    false
}

} // verus!
