//! A validated specification file and its devices.
use vstd::prelude::*;
use crate::chars::same_text;
use crate::container_edits::{edits_check, validate_edits, ContainerEdits, EditError, copy_edits, edits_view};
use crate::k8s::{annotation_faults, validate_spec_annotations, AnnotationsError};
use crate::parser::{
    device_name_check, parse_qualifier, qualified, qualified_name, qualifier_parts,
    validate_class_name, validate_device_name, validate_vendor_name, vendor_or_class_check, NameError,
};
use crate::specs;
use crate::version::{
    lemma_release_minor_text, lemma_release_text, lemma_released, release_minor, released, required_minor, trim_v, uses_v040, uses_v050,
    uses_v060, uses_v070, version_text, VersionMap, VersionWrapper, V020, V030, V060, V070,
};

verus! {

/// Names the result of `path_clean::clean` on a path.
pub uninterp spec fn cleaned(p: Seq<char>) -> Seq<char>;

/// Relies on `path_clean::clean`: the lexically cleaned path, a function of
/// the text alone.
#[verifier::external_body]
pub(crate) fn clean_path(p: &str) -> (r: String)
    ensures
        r@ == cleaned(p@),
{
    path_clean::clean(p).display().to_string()
}

/// Names the result of `Path::extension`.
pub uninterp spec fn extension_of(p: Seq<char>) -> Option<Seq<char>>;

/// Relies on `std::path::Path::extension`: the extension of the file name,
/// a function of the text alone.
#[verifier::external_body]
pub(crate) fn path_extension(p: &str) -> (r: Option<String>)
    ensures
        match r {
            Some(e) => extension_of(p@) == Some(e@),
            None => extension_of(p@) is None,
        },
{
    match std::path::Path::new(p).extension() {
        Some(e) => Some(e.to_string_lossy().into_owned()),
        None => None,
    }
}

/// Names the result of `Path::with_extension(.., "yaml")`.
pub uninterp spec fn yaml_path_of(p: Seq<char>) -> Seq<char>;

/// Relies on `std::path::Path::with_extension`: the path with its extension
/// replaced by `yaml`, a function of the text alone.
#[verifier::external_body]
fn with_yaml_extension(p: &str) -> (r: String)
    ensures
        r@ == yaml_path_of(p@),
{
    std::path::Path::new(p).with_extension("yaml").display().to_string()
}

/// `c` equals the lower-case letter `l` when ASCII case is ignored.
pub open spec fn same_letter_ci(c: char, l: char) -> bool {
    c == l || (('A' <= c && c <= 'Z') && (c as u32) + 32 == l as u32)
}

/// `e` spells the lower-case word `w` when ASCII case is ignored.
pub open spec fn same_word_ci(e: Seq<char>, w: Seq<char>) -> bool {
    e.len() == w.len() && forall|i: int| 0 <= i < e.len() ==> same_letter_ci(#[trigger] e[i], w[i])
}

fn same_word_ci_exec(e: &str, w: &str) -> (r: bool)
    ensures
        r == same_word_ci(e@, w@),
{
    let n = e.unicode_len();
    if n != w.unicode_len() {
        return false;
    }
    let mut i: usize = 0;
    while i < n
        invariant
            n == e@.len(),
            n == w@.len(),
            0 <= i <= n,
            forall|k: int| 0 <= k < i ==> same_letter_ci(#[trigger] e@[k], w@[k]),
        decreases n - i,
    {
        let c = e.get_char(i);
        let l = w.get_char(i);
        if !(c == l || (('A' <= c && c <= 'Z') && (c as u32) + 32 == l as u32)) {
            assert(!same_letter_ci(e@[i as int], w@[i as int]));
            return false;
        }
        i = i + 1;
    }
    true
}

/// A specification file's name: its extension is `json` or `yaml`, in any case.
pub open spec fn spec_file_name(p: Seq<char>) -> bool {
    match extension_of(p) {
        Some(e) => same_word_ci(e, "json"@) || same_word_ci(e, "yaml"@),
        None => false,
    }
}

/// Whether `path` names a specification file: extension `json` or `yaml`,
/// ASCII case ignored.
pub fn is_cdi_spec(path: &str) -> (r: bool)
    ensures
        r == spec_file_name(path@),
{
    match path_extension(path) {
        Some(e) => same_word_ci_exec(e.as_str(), "json") || same_word_ci_exec(e.as_str(), "yaml"),
        None => false,
    }
}

/// The path recorded for a specification file found at `p`: cleaned, with
/// the extension `yaml` unless it already has a specification extension.
pub open spec fn recorded_path(p: Seq<char>) -> Seq<char> {
    if spec_file_name(cleaned(p)) {
        cleaned(p)
    } else {
        yaml_path_of(cleaned(p))
    }
}

/// Why a device of a specification file is refused.
#[derive(Clone, Debug)]
pub enum DeviceError {
    Name(NameError),
    Annotations(AnnotationsError),
    Edits(EditError),
}

/// Why a specification file is refused.
#[derive(Clone, Debug)]
pub enum SpecError {
    /// The declared version is not a released version.
    InvalidVersion,
    /// The declared version is older than what the file's content needs.
    VersionTooLow,
    Vendor(NameError),
    Class(NameError),
    Annotations(AnnotationsError),
    Edits(EditError),
    /// The device at this index is refused.
    Device(usize, DeviceError),
    /// The device at this index repeats the name of an earlier one.
    DuplicateDevice(usize),
}

/// What kind of fault a device error is, without its details.
#[derive(Clone, Copy, Debug, PartialEq, Eq, Structural)]
pub enum DeviceFault {
    Name(NameError),
    Annotations,
    Edits(EditError),
}

/// What kind of fault a specification error is, without its details.
#[derive(Clone, Copy, Debug, PartialEq, Eq, Structural)]
pub enum SpecFault {
    InvalidVersion,
    VersionTooLow,
    Vendor(NameError),
    Class(NameError),
    Annotations,
    Edits(EditError),
    Device(usize, DeviceFault),
    DuplicateDevice(usize),
}

impl DeviceError {
    pub open spec fn fault(&self) -> DeviceFault {
        match self {
            DeviceError::Name(e) => DeviceFault::Name(*e),
            DeviceError::Annotations(_) => DeviceFault::Annotations,
            DeviceError::Edits(e) => DeviceFault::Edits(*e),
        }
    }
}

impl SpecError {
    pub open spec fn fault(&self) -> SpecFault {
        match self {
            SpecError::InvalidVersion => SpecFault::InvalidVersion,
            SpecError::VersionTooLow => SpecFault::VersionTooLow,
            SpecError::Vendor(e) => SpecFault::Vendor(*e),
            SpecError::Class(e) => SpecFault::Class(*e),
            SpecError::Annotations(_) => SpecFault::Annotations,
            SpecError::Edits(e) => SpecFault::Edits(*e),
            SpecError::Device(i, e) => SpecFault::Device(*i, e.fault()),
            SpecError::DuplicateDevice(i) => SpecFault::DuplicateDevice(*i),
        }
    }
}

/// Whether a file declaring `declared` may hold what `spec` holds: the
/// declared version, leading `v`s aside, is a released one and not older
/// than the version its content needs.
pub open spec fn version_accepted(declared: Seq<char>, spec: specs::Spec) -> bool {
    &&& release_minor(trim_v(declared)) is Some
    &&& release_minor(trim_v(declared))->0 >= required_minor(spec)
}

pub open spec fn version_fault(spec: specs::Spec) -> Option<SpecFault> {
    if release_minor(trim_v(spec.version@)) is None {
        Some(SpecFault::InvalidVersion)
    } else if !version_accepted(spec.version@, spec) {
        Some(SpecFault::VersionTooLow)
    } else {
        None
    }
}

/// The fault of a device of the file of `vendor` and `class`, if any.
pub open spec fn device_fault(vendor: Seq<char>, class: Seq<char>, d: specs::Device) -> Option<DeviceFault> {
    if device_name_check(d.name@) is Err {
        Some(DeviceFault::Name(device_name_check(d.name@)->Err_0))
    } else if annotation_faults(d.annotations@).len() > 0 {
        Some(DeviceFault::Annotations)
    } else if edits_check(d.container_edits) is Err {
        Some(DeviceFault::Edits(edits_check(d.container_edits)->Err_0))
    } else {
        None
    }
}

/// Some device before index `i` has the name of device `i`.
pub open spec fn name_repeated(devices: Seq<specs::Device>, i: int) -> bool {
    exists|j: int| 0 <= j < i && (#[trigger] devices[j]).name@ == devices[i].name@
}

/// The first fault among the devices from index `i` on.
pub open spec fn devices_fault(vendor: Seq<char>, class: Seq<char>, devices: Seq<specs::Device>, i: int) -> Option<SpecFault>
    decreases devices.len() - i,
{
    if i < 0 || i >= devices.len() {
        None
    } else if device_fault(vendor, class, devices[i]) is Some {
        Some(SpecFault::Device(i as usize, device_fault(vendor, class, devices[i])->0))
    } else if name_repeated(devices, i) {
        Some(SpecFault::DuplicateDevice(i as usize))
    } else {
        devices_fault(vendor, class, devices, i + 1)
    }
}

/// The first fault of a specification file, checked in this order: version,
/// vendor, class, annotations, global edits, then each device in turn.
pub open spec fn spec_fault(spec: specs::Spec) -> Option<SpecFault> {
    let (vendor, class) = qualifier_parts(spec.kind@);
    if version_fault(spec) is Some {
        version_fault(spec)
    } else if vendor_or_class_check(vendor) is Err {
        Some(SpecFault::Vendor(vendor_or_class_check(vendor)->Err_0))
    } else if vendor_or_class_check(class) is Err {
        Some(SpecFault::Class(vendor_or_class_check(class)->Err_0))
    } else if annotation_faults(spec.annotations@).len() > 0 {
        Some(SpecFault::Annotations)
    } else if spec.container_edits is Some && edits_check(spec.container_edits->0) is Err {
        Some(SpecFault::Edits(edits_check(spec.container_edits->0)->Err_0))
    } else {
        devices_fault(vendor, class, spec.devices@, 0)
    }
}

/// Checks the declared format version against the released versions and
/// against what the file's content needs.
pub fn validate_version(spec: &specs::Spec) -> (r: Result<(), SpecError>)
    ensures
        r is Ok <==> version_accepted(spec.version@, *spec),
        r is Err ==> Some(r->Err_0.fault()) == version_fault(*spec),
{
    let map = VersionMap::valid_spec_versions();
    if !map.is_valid_version(spec.version.as_str()) {
        return Err(SpecError::InvalidVersion);
    }
    let min_version = map.required_version(spec);
    let declared = VersionWrapper::new(spec.version.as_str());
    let ghost t = trim_v(spec.version@);
    let ghost d = release_minor(t)->0;
    let ghost m = required_minor(*spec);
    proof {
        lemma_release_minor_text(t);
        assert(declared.0@.drop_first() =~= t);
        assert(min_version.0@.drop_first() =~= version_text(0, m, 0));
        assert(version_text(0u64 as nat, m as u64 as nat, 0u64 as nat) == version_text(0, m, 0));
        assert(version_text(0u64 as nat, d as u64 as nat, 0u64 as nat) == version_text(0, d, 0));
        assert(m <= 7 && d <= 7);
    }
    let too_low = min_version.is_greater_than(&declared);
    proof {
        assert(too_low == (m > d));
    }
    if too_low {
        return Err(SpecError::VersionTooLow);
    }
    Ok(())
}

/// Format versions are checked against content: a file that uses nothing
/// newer than `v0.3.0` is accepted when it declares `v0.3.0` and refused when
/// it declares `v0.2.0`; a file with Intel RDT settings or additional groups
/// is refused when it declares `v0.6.0` and accepted with `v0.7.0`.
pub proof fn lemma_version_gate(spec: specs::Spec)
    ensures
        !uses_v040(spec) && !uses_v050(spec) && !uses_v060(spec) && !uses_v070(spec) ==> (
        version_accepted(V030@, spec) && !version_accepted(V020@, spec)),
        uses_v070(spec) ==> !version_accepted(V060@, spec) && version_accepted(V070@, spec),
{
    lemma_gate_version(1);
    lemma_gate_version(2);
    lemma_gate_version(5);
    lemma_gate_version(6);
}

proof fn lemma_gate_version(k: int)
    requires
        0 <= k < 7,
    ensures
        release_minor(trim_v(released()[k])) == Some((k + 1) as nat),
{
    lemma_released(k);
    lemma_release_text((k + 1) as nat);
    let t = version_text(0, (k + 1) as nat, 0);
    assert((seq!['v'] + t).drop_first() =~= t);
    assert(t[0] == '0');
}

/// A device of a validated specification file.
#[derive(Clone, Debug)]
pub struct Device {
    pub cdi_device: specs::Device,
    pub vendor: String,
    pub class: String,
}

impl Device {
    /// `vendor/class=name` of this device.
    pub fn get_qualified_name(&self) -> (r: String)
        ensures
            r@ == qualified(self.vendor@, self.class@, self.cdi_device.name@),
    {
        qualified_name(self.vendor.as_str(), self.class.as_str(), self.cdi_device.name.as_str())
    }

    /// The edits of this device.
    pub fn edits(&self) -> (r: ContainerEdits)
        ensures
            r.view() == edits_view(self.cdi_device.container_edits),
    {
        ContainerEdits { container_edits: copy_edits(&self.cdi_device.container_edits) }
    }

    /// Checks the device name, its annotations and its edits.
    pub fn validate(&self) -> (r: Result<(), DeviceError>)
        ensures
            r is Ok <==> device_fault(self.vendor@, self.class@, self.cdi_device) is None,
            r is Err ==> Some(r->Err_0.fault()) == device_fault(self.vendor@, self.class@, self.cdi_device),
    {
        check_device(self.vendor.as_str(), self.class.as_str(), &self.cdi_device)
    }
}

fn check_device(vendor: &str, class: &str, d: &specs::Device) -> (r: Result<(), DeviceError>)
    ensures
        r is Ok <==> device_fault(vendor@, class@, *d) is None,
        r is Err ==> Some(r->Err_0.fault()) == device_fault(vendor@, class@, *d),
{
    if let Err(e) = validate_device_name(d.name.as_str()) {
        return Err(DeviceError::Name(e));
    }
    let name = qualified_name(vendor, class, d.name.as_str());
    if let Err(e) = validate_spec_annotations(name.as_str(), &d.annotations) {
        return Err(DeviceError::Annotations(e));
    }
    if let Err(e) = validate_edits(&d.container_edits) {
        return Err(DeviceError::Edits(e));
    }
    Ok(())
}

/// A validated specification file: where it was found, its priority (the
/// index of its directory, lower first), and its devices in file order.
#[derive(Clone, Debug)]
pub struct Spec {
    pub version: String,
    pub kind: String,
    pub annotations: Vec<(String, String)>,
    pub container_edits: Option<specs::ContainerEdits>,
    pub vendor: String,
    pub class: String,
    pub path: String,
    pub priority: usize,
    pub devices: Vec<Device>,
}

impl Spec {
    /// The devices belong to this file's vendor and class.
    pub open spec fn wf(&self) -> bool {
        forall|i: int|
            0 <= i < self.devices@.len() ==> (#[trigger] self.devices@[i]).vendor@ == self.vendor@
                && self.devices@[i].class@ == self.class@
    }

    pub fn get_vendor(&self) -> (r: String)
        ensures
            r == self.vendor,
    {
        self.vendor.clone()
    }

    pub fn get_class(&self) -> (r: String)
        ensures
            r == self.class,
    {
        self.class.clone()
    }

    pub fn get_path(&self) -> (r: String)
        ensures
            r == self.path,
    {
        self.path.clone()
    }

    pub fn get_priority(&self) -> (r: usize)
        ensures
            r == self.priority,
    {
        self.priority
    }

    /// The device with the unqualified name `key`, if the file has one.
    pub fn get_device(&self, key: &str) -> (r: Option<&Device>)
        ensures
            r is Some <==> exists|i: int| 0 <= i < self.devices@.len() && (#[trigger] self.devices@[i]).cdi_device.name@ == key@,
            r is Some ==> r->0.cdi_device.name@ == key@,
    {
        let mut i: usize = 0;
        while i < self.devices.len()
            invariant
                0 <= i <= self.devices@.len(),
                forall|k: int| 0 <= k < i ==> (#[trigger] self.devices@[k]).cdi_device.name@ != key@,
            decreases self.devices@.len() - i,
        {
            if same_text(self.devices[i].cdi_device.name.as_str(), key) {
                return Some(&self.devices[i]);
            }
            i = i + 1;
        }
        None
    }

    /// The global edits of this file, if it has any.
    pub fn edits(&self) -> (r: Option<ContainerEdits>)
        ensures
            r is Some <==> self.container_edits is Some,
            r is Some ==> r->0.view() == edits_view(self.container_edits->0),
    {
        match &self.container_edits {
            Some(ce) => Some(ContainerEdits { container_edits: copy_edits(ce) }),
            None => None,
        }
    }
}

/// `s` is the validated form of `raw`, read from `path` in the directory of
/// index `priority`: its vendor and class come from the kind, its path is
/// the recorded one, and everything else, devices included, is `raw`'s.
pub open spec fn loaded_spec(s: Spec, raw: specs::Spec, path: Seq<char>, priority: usize) -> bool {
    &&& s.wf()
    &&& s.vendor@ == qualifier_parts(raw.kind@).0
    &&& s.class@ == qualifier_parts(raw.kind@).1
    &&& s.path@ == recorded_path(path)
    &&& s.priority == priority
    &&& s.version == raw.version
    &&& s.kind == raw.kind
    &&& s.annotations == raw.annotations
    &&& s.container_edits == raw.container_edits
    &&& s.devices@.len() == raw.devices@.len()
    &&& forall|i: int| 0 <= i < s.devices@.len() ==> (#[trigger] s.devices@[i]).cdi_device == raw.devices@[i]
}

/// Validates a specification file read from `path` and found in the
/// directory of index `priority`. The recorded path is the cleaned `path`,
/// with the extension `yaml` unless it has a specification extension.
pub fn new_spec(raw: specs::Spec, path: &str, priority: usize) -> (r: Result<Spec, SpecError>)
    ensures
        r is Ok <==> spec_fault(raw) is None,
        r is Err ==> Some(r->Err_0.fault()) == spec_fault(raw),
        r is Ok ==> loaded_spec(r->Ok_0, raw, path@, priority),
{
    let cleaned = clean_path(path);
    let recorded = if is_cdi_spec(cleaned.as_str()) {
        cleaned
    } else {
        with_yaml_extension(cleaned.as_str())
    };
    if let Err(e) = validate_version(&raw) {
        return Err(e);
    }
    let (vendor, class) = parse_qualifier(raw.kind.as_str());
    if let Err(e) = validate_vendor_name(vendor) {
        return Err(SpecError::Vendor(e));
    }
    if let Err(e) = validate_class_name(class) {
        return Err(SpecError::Class(e));
    }
    if let Err(e) = validate_spec_annotations(raw.kind.as_str(), &raw.annotations) {
        return Err(SpecError::Annotations(e));
    }
    if let Some(g) = &raw.container_edits {
        if let Err(e) = validate_edits(g) {
            return Err(SpecError::Edits(e));
        }
    }
    let vendor = vendor.to_string();
    let class = class.to_string();
    let ghost vs = vendor@;
    let ghost cs = class@;
    let mut i: usize = 0;
    while i < raw.devices.len()
        invariant
            0 <= i <= raw.devices@.len(),
            vs == vendor@,
            cs == class@,
            (vs, cs) == qualifier_parts(raw.kind@),
            spec_fault(raw) == devices_fault(vs, cs, raw.devices@, 0),
            devices_fault(vs, cs, raw.devices@, 0) == devices_fault(vs, cs, raw.devices@, i as int),
        decreases raw.devices@.len() - i,
    {
        if let Err(e) = check_device(vendor.as_str(), class.as_str(), &raw.devices[i]) {
            return Err(SpecError::Device(i, e));
        }
        let mut j: usize = 0;
        while j < i
            invariant
                0 <= j <= i < raw.devices@.len(),
                vs == vendor@,
                cs == class@,
                spec_fault(raw) == devices_fault(vs, cs, raw.devices@, 0),
                devices_fault(vs, cs, raw.devices@, 0) == devices_fault(vs, cs, raw.devices@, i as int),
                device_fault(vs, cs, raw.devices@[i as int]) is None,
                forall|k: int| 0 <= k < j ==> (#[trigger] raw.devices@[k]).name@ != raw.devices@[i as int].name@,
            decreases i - j,
        {
            if same_text(raw.devices[j].name.as_str(), raw.devices[i].name.as_str()) {
                assert(name_repeated(raw.devices@, i as int));
                return Err(SpecError::DuplicateDevice(i));
            }
            j = j + 1;
        }
        i = i + 1;
    }
    let ghost raw_copy = raw;
    let specs::Spec { version, kind, annotations, devices: mut rest, container_edits } = raw;
    let mut devices: Vec<Device> = Vec::new();
    let ghost n = rest@.len();
    while rest.len() > 0
        invariant
            vs == vendor@,
            cs == class@,
            devices@.len() + rest@.len() == n,
            n == raw_copy.devices@.len(),
            forall|k: int| 0 <= k < devices@.len() ==> (#[trigger] devices@[k]).cdi_device == raw_copy.devices@[k]
                && devices@[k].vendor@ == vs && devices@[k].class@ == cs,
            forall|k: int| 0 <= k < rest@.len() ==> #[trigger] rest@[k] == raw_copy.devices@[devices@.len() + k],
        decreases rest@.len(),
    {
        let d = rest.remove(0);
        devices.push(Device { cdi_device: d, vendor: vendor.clone(), class: class.clone() });
        assert forall|k: int| 0 <= k < rest@.len() implies #[trigger] rest@[k] == raw_copy.devices@[devices@.len() + k] by {
        }
    }
    Ok(Spec {
        version,
        kind,
        annotations,
        container_edits,
        vendor,
        class,
        path: recorded,
        priority,
        devices,
    })
}

} // verus!
