//! The parts of a container's runtime configuration that container edits
//! change, and how edits are applied to them.
use vstd::prelude::*;
use crate::chars::same_text;
use crate::container_edits::{
    edits_view, hook_name_spec, hook_views, hooks_view, lemma_hook_views, ContainerEdits, HookName,
};
use crate::spec::{Device, Spec};
use crate::specs::{self, copy_opt_text, copy_opt_texts, items, opt_view};

verus! {

/// The kinds of device node found on the host.
#[derive(Clone, Copy, Debug, PartialEq, Eq, Structural)]
pub enum DeviceType {
    Block,
    Char,
    Fifo,
}

pub open spec fn type_text(t: DeviceType) -> Seq<char> {
    match t {
        DeviceType::Block => "b"@,
        DeviceType::Char => "c"@,
        DeviceType::Fifo => "p"@,
    }
}

impl DeviceType {
    /// `b`, `c` or `p`.
    pub fn as_str(&self) -> (r: &'static str)
        ensures
            r@ == type_text(*self),
    {
        match self {
            DeviceType::Block => "b",
            DeviceType::Char => "c",
            DeviceType::Fifo => "p",
        }
    }
}

/// What the host has at a device node's host path.
#[derive(Clone, Copy, Debug, PartialEq, Eq, Structural)]
pub struct HostDevice {
    pub typ: DeviceType,
    pub major: i64,
    pub minor: i64,
}

/// The device numbers of a host device from its raw device id:
/// `major = (raw >> 8) & 0xff`, `minor = raw & 0xff`; a named pipe has none.
pub fn device_info_from_raw(typ: DeviceType, raw: u64) -> (r: HostDevice)
    ensures
        r.typ == typ,
        typ == DeviceType::Fifo ==> r.major == 0 && r.minor == 0,
        typ != DeviceType::Fifo ==> r.major == ((raw >> 8u64) & 0xffu64) as i64 && r.minor == (raw
            & 0xffu64) as i64,
{
    match typ {
        DeviceType::Fifo => HostDevice { typ, major: 0, minor: 0 },
        _ => {
            let major = (raw >> 8u64) & 0xffu64;
            let minor = raw & 0xffu64;
            assert(major <= 0xff) by (bit_vector)
                requires
                    major == (raw >> 8u64) & 0xffu64,
            ;
            assert(minor <= 0xff) by (bit_vector)
                requires
                    minor == raw & 0xffu64,
            ;
            HostDevice { typ, major: major as i64, minor: minor as i64 }
        },
    }
}

/// What the host has at each path that was looked at; a path that is not
/// listed, or listed without a device, is no device node.
pub struct HostProbe {
    pub path: String,
    pub device: Option<HostDevice>,
}

/// Why edits could not be applied.
#[derive(Clone, Copy, Debug, PartialEq, Eq, Structural)]
pub enum ApplyError {
    /// The device node at this index has no device at its host path.
    NotADevice(usize),
    /// The device node at this index declares another type than the host's.
    TypeMismatch(usize),
    /// The hook at this index has an unknown name.
    UnknownHook(usize),
}

/// The first probe for `path`, if any.
pub open spec fn probe_for(probes: Seq<HostProbe>, path: Seq<char>) -> Option<HostDevice>
    decreases probes.len(),
{
    if probes.len() == 0 {
        None
    } else if probes[0].path@ == path {
        probes[0].device
    } else {
        probe_for(probes.drop_first(), path)
    }
}

/// The host path of a device node: its own, or else its container path.
pub open spec fn host_path_of(n: specs::DeviceNode) -> Seq<char> {
    match n.host_path {
        Some(h) => h@,
        None => n.path@,
    }
}

/// A device node needs no look at the host when it declares its type and
/// either is a named pipe or declares its major number.
pub open spec fn node_complete(n: specs::DeviceNode) -> bool {
    n.typ is Some && (n.major is Some || n.typ->0@ == "p"@)
}

/// Type, major and minor of a device node after its missing information is
/// filled in from what the host has at its host path.
pub open spec fn fill_outcome(n: specs::DeviceNode, host: Option<HostDevice>) -> Option<(Seq<char>, Option<i64>, Option<i64>)> {
    if node_complete(n) {
        Some((n.typ->0@, n.major, n.minor))
    } else if host is None {
        None
    } else {
        let ht = type_text(host->0.typ);
        if n.typ is Some && n.typ->0@ != ht {
            None
        } else if n.major is None && ht != "p"@ {
            Some((ht, Some(host->0.major), Some(host->0.minor)))
        } else {
            Some((ht, n.major, n.minor))
        }
    }
}

/// Why filling in a device node fails: no device, or a type mismatch.
pub open spec fn fill_mismatch(n: specs::DeviceNode, host: Option<HostDevice>) -> bool {
    !node_complete(n) && host is Some && n.typ is Some && n.typ->0@ != type_text(host->0.typ)
}

/// A device node of the edits, as applied.
#[derive(Clone, Debug)]
pub struct DeviceNode {
    pub node: specs::DeviceNode,
}

impl DeviceNode {
    /// The path at which the host is looked at.
    pub fn host_path(&self) -> (r: &str)
        ensures
            r@ == host_path_of(self.node),
    {
        match &self.node.host_path {
            Some(h) => h.as_str(),
            None => self.node.path.as_str(),
        }
    }

    /// Whether the host must be looked at to complete this node.
    pub fn needs_host_info(&self) -> (r: bool)
        ensures
            r == !node_complete(self.node),
    {
        match &self.node.typ {
            Some(t) => !(self.node.major.is_some() || same_text(t.as_str(), "p")),
            None => true,
        }
    }

    /// Fills in the type and device numbers of this node from `host`, what
    /// the host has at its host path. A declared type must match the host's.
    pub fn fill_missing_info(&mut self, host: Option<HostDevice>) -> (r: Result<(), ApplyError>)
        ensures
            r is Ok <==> fill_outcome(old(self).node, host) is Some,
            r is Ok ==> {
                let (t, major, minor) = fill_outcome(old(self).node, host)->0;
                &&& final(self).node.typ is Some
                &&& final(self).node.typ->0@ == t
                &&& final(self).node.major == major
                &&& final(self).node.minor == minor
                &&& final(self).node.path == old(self).node.path
                &&& final(self).node.host_path == old(self).node.host_path
                &&& final(self).node.permissions == old(self).node.permissions
                &&& final(self).node.file_mode == old(self).node.file_mode
                &&& final(self).node.uid == old(self).node.uid
                &&& final(self).node.gid == old(self).node.gid
            },
            r is Err ==> (r->Err_0 is TypeMismatch <==> fill_mismatch(old(self).node, host)),
            r is Err ==> *final(self) == *old(self),
    {
        if !self.needs_host_info() {
            return Ok(());
        }
        let h = match host {
            Some(h) => h,
            None => return Err(ApplyError::NotADevice(0)),
        };
        let ht = h.typ.as_str();
        match &self.node.typ {
            Some(t) => {
                if !same_text(t.as_str(), ht) {
                    return Err(ApplyError::TypeMismatch(0));
                }
            },
            None => {},
        }
        self.node.typ = Some(ht.to_string());
        if self.node.major.is_none() && !same_text(ht, "p") {
            self.node.major = Some(h.major);
            self.node.minor = Some(h.minor);
        }
        Ok(())
    }
}

/// A device of the container.
#[derive(Clone, Debug)]
pub struct LinuxDevice {
    pub path: String,
    pub typ: String,
    pub major: i64,
    pub minor: i64,
    pub file_mode: Option<u32>,
    pub uid: Option<u32>,
    pub gid: Option<u32>,
}

/// A device access rule of the container's cgroup.
#[derive(Clone, Debug)]
pub struct DeviceRule {
    pub allow: bool,
    pub typ: String,
    pub major: Option<i64>,
    pub minor: Option<i64>,
    pub access: Option<String>,
}

/// A mount of the container.
#[derive(Clone, Debug)]
pub struct RuntimeMount {
    pub destination: String,
    pub source: Option<String>,
    pub typ: Option<String>,
    pub options: Option<Vec<String>>,
}

/// A hook of the container.
#[derive(Clone, Debug)]
pub struct RuntimeHook {
    pub path: String,
    pub args: Option<Vec<String>>,
    pub env: Option<Vec<String>>,
    pub timeout: Option<i64>,
}

/// The parts of a container's runtime configuration that edits change.
#[derive(Clone, Debug, Default)]
pub struct RuntimeConfig {
    pub env: Vec<String>,
    pub uid: u32,
    pub gid: u32,
    pub additional_gids: Vec<u32>,
    pub devices: Vec<LinuxDevice>,
    pub device_rules: Vec<DeviceRule>,
    pub mounts: Vec<RuntimeMount>,
    pub prestart: Vec<RuntimeHook>,
    pub create_runtime: Vec<RuntimeHook>,
    pub create_container: Vec<RuntimeHook>,
    pub start_container: Vec<RuntimeHook>,
    pub poststart: Vec<RuntimeHook>,
    pub poststop: Vec<RuntimeHook>,
    pub clos_id: Option<String>,
}

/// The index of the first `=` of `e` from `i` on, or its length.
pub open spec fn key_end(e: Seq<char>, i: int) -> int
    decreases e.len() - i,
{
    if i < 0 || i >= e.len() {
        e.len() as int
    } else if e[i] == '=' {
        i
    } else {
        key_end(e, i + 1)
    }
}

proof fn lemma_key_end_bounds(e: Seq<char>, i: int)
    requires
        0 <= i <= e.len(),
    ensures
        i <= key_end(e, i) <= e.len(),
    decreases e.len() - i,
{
    if i < e.len() && e[i] != '=' {
        lemma_key_end_bounds(e, i + 1);
    }
}

/// The key of an environment entry: what stands before its first `=`.
pub open spec fn env_key(e: Seq<char>) -> Seq<char> {
    e.subrange(0, key_end(e, 0))
}

/// The index of the first entry of `env` with the key `key`, if any.
pub open spec fn env_index(env: Seq<Seq<char>>, key: Seq<char>, i: int) -> Option<int>
    decreases env.len() - i,
{
    if i < 0 || i >= env.len() {
        None
    } else if env_key(env[i]) == key {
        Some(i)
    } else {
        env_index(env, key, i + 1)
    }
}

/// `e` set in `env`: it replaces the first entry with its key, or is added.
pub open spec fn env_set(env: Seq<Seq<char>>, e: Seq<char>) -> Seq<Seq<char>> {
    match env_index(env, env_key(e), 0) {
        Some(i) => env.update(i, e),
        None => env.push(e),
    }
}

/// The entries of `adds` set in `env` in order.
pub open spec fn env_set_all(env: Seq<Seq<char>>, adds: Seq<Seq<char>>) -> Seq<Seq<char>>
    decreases adds.len(),
{
    if adds.len() == 0 {
        env
    } else {
        env_set(env_set_all(env, adds.drop_last()), adds.last())
    }
}

/// `gid` added to `gids` unless it is zero or already there.
pub open spec fn gid_add(gids: Seq<u32>, gid: u32) -> Seq<u32> {
    if gid == 0 || gids.contains(gid) {
        gids
    } else {
        gids.push(gid)
    }
}

pub open spec fn gid_add_all(gids: Seq<u32>, adds: Seq<u32>) -> Seq<u32>
    decreases adds.len(),
{
    if adds.len() == 0 {
        gids
    } else {
        gid_add(gid_add_all(gids, adds.drop_last()), adds.last())
    }
}

/// The texts of `s`.
pub open spec fn texts(s: Seq<String>) -> Seq<Seq<char>> {
    s.map_values(|x: String| x@)
}

/// All device nodes of `nodes` can be completed from `probes`.
pub open spec fn nodes_resolve(nodes: Seq<specs::DeviceNode>, probes: Seq<HostProbe>) -> bool {
    forall|i: int| 0 <= i < nodes.len() ==> (#[trigger] fill_outcome(nodes[i], probe_for(probes, host_path_of(nodes[i])))) is Some
}

/// All hooks of `hooks` have known names.
pub open spec fn hooks_known(hooks: Seq<specs::Hook>) -> bool {
    forall|i: int| 0 <= i < hooks.len() ==> (#[trigger] hook_name_spec(hooks[i].hook_name@)) is Some
}

/// The hooks among `hooks` with the name `name`, in order.
pub open spec fn hooks_named(hooks: Seq<specs::Hook>, name: HookName) -> Seq<specs::Hook>
    decreases hooks.len(),
{
    if hooks.len() == 0 {
        Seq::empty()
    } else if hook_name_spec(hooks.last().hook_name@) == Some(name) {
        hooks_named(hooks.drop_last(), name).push(hooks.last())
    } else {
        hooks_named(hooks.drop_last(), name)
    }
}

/// The path, arguments, environment and timeout of a container hook.
pub open spec fn runtime_hook_view(h: RuntimeHook) -> (Seq<char>, Option<Seq<String>>, Option<Seq<String>>, Option<i64>) {
    (h.path@, opt_view(h.args), opt_view(h.env), h.timeout)
}

pub open spec fn edit_hook_view(h: specs::Hook) -> (Seq<char>, Option<Seq<String>>, Option<Seq<String>>, Option<i64>) {
    (h.path@, opt_view(h.args), opt_view(h.env), h.timeout)
}

/// The list of hooks named `name` after `edits` are added to `before`.
pub open spec fn hooks_after(before: Seq<RuntimeHook>, edits: Seq<specs::Hook>, name: HookName) -> Seq<(Seq<char>, Option<Seq<String>>, Option<Seq<String>>, Option<i64>)> {
    before.map_values(|h: RuntimeHook| runtime_hook_view(h)) + hooks_named(edits, name).map_values(
        |h: specs::Hook| edit_hook_view(h),
    )
}

/// The destination and source, type and options of a container mount.
pub open spec fn runtime_mount_view(m: RuntimeMount) -> (Seq<char>, Option<String>, Option<String>, Option<Seq<String>>) {
    (m.destination@, m.source, m.typ, opt_view(m.options))
}

/// A mount of the edits as it is added to the container.
pub open spec fn edit_mount_view(m: specs::Mount) -> (Seq<char>, Option<String>, Option<String>, Option<Seq<String>>) {
    (m.container_path@, Some(m.host_path), m.typ, opt_view(m.options))
}

pub type MountEntry = (Seq<char>, Option<String>, Option<String>, Option<Seq<String>>);

/// `m` added to `mounts`: the first mount with its destination, if any, is
/// removed and `m` is added at the end.
pub open spec fn mount_put(mounts: Seq<MountEntry>, m: MountEntry) -> Seq<MountEntry> {
    match mount_index(mounts, m.0, 0) {
        Some(i) => mounts.remove(i).push(m),
        None => mounts.push(m),
    }
}

pub open spec fn mount_index(mounts: Seq<MountEntry>, dest: Seq<char>, i: int) -> Option<int>
    decreases mounts.len() - i,
{
    if i < 0 || i >= mounts.len() {
        None
    } else if mounts[i].0 == dest {
        Some(i)
    } else {
        mount_index(mounts, dest, i + 1)
    }
}

pub open spec fn mount_put_all(mounts: Seq<MountEntry>, adds: Seq<MountEntry>) -> Seq<MountEntry>
    decreases adds.len(),
{
    if adds.len() == 0 {
        mounts
    } else {
        mount_put(mount_put_all(mounts, adds.drop_last()), adds.last())
    }
}

fn env_key_exec(e: &str) -> (r: &str)
    ensures
        r@ == env_key(e@),
{
    let n = e.unicode_len();
    let mut i: usize = 0;
    while i < n && e.get_char(i) != '='
        invariant
            n == e@.len(),
            0 <= i <= n,
            key_end(e@, 0) == key_end(e@, i as int),
        decreases n - i,
    {
        i = i + 1;
    }
    e.substring_char(0, i)
}

/// Sets `e` in `env`: it replaces the first entry with the same key, or is added.
pub fn set_env(env: &mut Vec<String>, e: String)
    ensures
        texts(final(env)@) == env_set(texts(old(env)@), e@),
{
    let ghost old_env = texts(env@);
    let mut i: usize = 0;
    while i < env.len()
        invariant
            0 <= i <= env@.len(),
            texts(env@) == old_env,
            old_env == texts(old(env)@),
            env_index(old_env, env_key(e@), 0) == env_index(old_env, env_key(e@), i as int),
        decreases env@.len() - i,
    {
        let same = same_text(env_key_exec(env[i].as_str()), env_key_exec(e.as_str()));
        assert(old_env[i as int] == env@[i as int]@);
        if same {
            assert(env_key(old_env[i as int]) == env_key(e@));
            assert(env_index(old_env, env_key(e@), i as int) == Some(i as int));
            env.set(i, e);
            assert(texts(env@) =~= old_env.update(i as int, e@));
            return;
        }
        i = i + 1;
    }
    env.push(e);
    assert(texts(env@) =~= old_env.push(e@));
}

/// Adds `gid` to `gids` unless it is zero or already there.
pub fn add_gid(gids: &mut Vec<u32>, gid: u32)
    ensures
        final(gids)@ == gid_add(old(gids)@, gid),
{
    if gid == 0 {
        return;
    }
    let mut i: usize = 0;
    while i < gids.len()
        invariant
            0 <= i <= gids@.len(),
            forall|k: int| 0 <= k < i ==> gids@[k] != gid,
        decreases gids@.len() - i,
    {
        if gids[i] == gid {
            assert(gids@.contains(gid));
            return;
        }
        i = i + 1;
    }
    gids.push(gid);
}

/// What a container device holds.
pub type DeviceEntry = (Seq<char>, Seq<char>, i64, i64, Option<u32>, Option<u32>, Option<u32>);

pub open spec fn device_view(d: LinuxDevice) -> DeviceEntry {
    (d.path@, d.typ@, d.major, d.minor, d.file_mode, d.uid, d.gid)
}

pub open spec fn device_views(s: Seq<LinuxDevice>) -> Seq<DeviceEntry> {
    s.map_values(|d: LinuxDevice| device_view(d))
}

/// `ds` without the devices at `path`.
pub open spec fn drop_path(ds: Seq<DeviceEntry>, path: Seq<char>) -> Seq<DeviceEntry>
    decreases ds.len(),
{
    if ds.len() == 0 {
        ds
    } else if ds.last().0 == path {
        drop_path(ds.drop_last(), path)
    } else {
        drop_path(ds.drop_last(), path).push(ds.last())
    }
}

/// `d` added to `ds` in place of any device at its path.
pub open spec fn device_put(ds: Seq<DeviceEntry>, d: DeviceEntry) -> Seq<DeviceEntry> {
    drop_path(ds, d.0).push(d)
}

/// Adds `d` to `devices` in place of any device at its path.
pub fn put_device(devices: &mut Vec<LinuxDevice>, d: LinuxDevice)
    ensures
        device_views(final(devices)@) == device_put(device_views(old(devices)@), device_view(d)),
{
    let ghost old_ds = device_views(devices@);
    let mut kept: Vec<LinuxDevice> = Vec::new();
    let rest: &Vec<LinuxDevice> = devices;
    let ghost all = rest@;
    let mut i: usize = 0;
    while i < rest.len()
        invariant
            0 <= i <= rest@.len(),
            rest@ == all,
            old_ds == device_views(all),
            device_views(kept@) == drop_path(device_views(all.subrange(0, i as int)), d.path@),
        decreases rest@.len() - i,
    {
        let ghost sub = device_views(all.subrange(0, i + 1));
        assert(sub.drop_last() =~= device_views(all.subrange(0, i as int)));
        assert(sub.last() == device_view(all[i as int]));
        if !same_text(rest[i].path.as_str(), d.path.as_str()) {
            let item = LinuxDevice {
                path: rest[i].path.clone(),
                typ: rest[i].typ.clone(),
                major: rest[i].major,
                minor: rest[i].minor,
                file_mode: rest[i].file_mode,
                uid: rest[i].uid,
                gid: rest[i].gid,
            };
            kept.push(item);
            assert(device_views(kept@) =~= drop_path(device_views(all.subrange(0, i as int)), d.path@).push(device_view(all[i as int])));
        }
        i = i + 1;
    }
    assert(all.subrange(0, all.len() as int) =~= all);
    kept.push(d);
    assert(device_views(kept@) =~= device_put(old_ds, device_view(d)));
    *devices = kept;
}

/// Adds `m` to `mounts`: the first mount with its destination, if any, is
/// removed and `m` is added at the end.
pub fn put_mount(mounts: &mut Vec<RuntimeMount>, m: RuntimeMount)
    ensures
        mount_views(final(mounts)@) == mount_put(mount_views(old(mounts)@), runtime_mount_view(m)),
{
    let ghost old_ms = mount_views(mounts@);
    let mut i: usize = 0;
    while i < mounts.len()
        invariant
            0 <= i <= mounts@.len(),
            mount_views(mounts@) == old_ms,
            old_ms == mount_views(old(mounts)@),
            mount_index(old_ms, m.destination@, 0) == mount_index(old_ms, m.destination@, i as int),
        decreases mounts@.len() - i,
    {
        assert(old_ms[i as int] == runtime_mount_view(mounts@[i as int]));
        if same_text(mounts[i].destination.as_str(), m.destination.as_str()) {
            assert(mount_index(old_ms, m.destination@, i as int) == Some(i as int));
            mounts.remove(i);
            mounts.push(m);
            assert(mount_views(mounts@) =~= old_ms.remove(i as int).push(runtime_mount_view(m)));
            return;
        }
        i = i + 1;
    }
    mounts.push(m);
    assert(mount_views(mounts@) =~= old_ms.push(runtime_mount_view(m)));
}

pub open spec fn mount_views(s: Seq<RuntimeMount>) -> Seq<MountEntry> {
    s.map_values(|m: RuntimeMount| runtime_mount_view(m))
}

/// The first probe for `path`.
pub fn find_probe(probes: &Vec<HostProbe>, path: &str) -> (r: Option<HostDevice>)
    ensures
        r == probe_for(probes@, path@),
{
    let mut i: usize = 0;
    assert(probes@.subrange(0, probes@.len() as int) =~= probes@);
    while i < probes.len()
        invariant
            0 <= i <= probes@.len(),
            probe_for(probes@, path@) == probe_for(probes@.subrange(i as int, probes@.len() as int), path@),
        decreases probes@.len() - i,
    {
        let ghost t = probes@.subrange(i as int, probes@.len() as int);
        assert(t.drop_first() =~= probes@.subrange(i + 1, probes@.len() as int));
        assert(t[0] == probes@[i as int]);
        if same_text(probes[i].path.as_str(), path) {
            return probes[i].device;
        }
        i = i + 1;
    }
    None
}

/// What a device node gives once completed from the host.
pub open spec fn resolved(n: specs::DeviceNode, probes: Seq<HostProbe>) -> Option<(Seq<char>, Option<i64>, Option<i64>)> {
    fill_outcome(n, probe_for(probes, host_path_of(n)))
}

pub open spec fn or_zero(x: Option<i64>) -> i64 {
    match x {
        Some(v) => v,
        None => 0,
    }
}

/// A node's owner id, or the process's when the node has none and it is not root.
pub open spec fn owner_id(own: Option<u32>, process: u32) -> Option<u32> {
    if own is None && process > 0 {
        Some(process)
    } else {
        own
    }
}

/// The container device for a completed device node.
pub open spec fn node_device(n: specs::DeviceNode, o: (Seq<char>, Option<i64>, Option<i64>), uid: u32, gid: u32) -> DeviceEntry {
    (n.path@, o.0, or_zero(o.1), or_zero(o.2), n.file_mode, owner_id(n.uid, uid), owner_id(n.gid, gid))
}

/// What a device access rule holds.
pub type RuleEntry = (bool, Seq<char>, Option<i64>, Option<i64>, Option<Seq<char>>);

pub open spec fn rule_view(r: DeviceRule) -> RuleEntry {
    (r.allow, r.typ@, r.major, r.minor, match r.access {
        Some(a) => Some(a@),
        None => None,
    })
}

pub open spec fn rule_views(s: Seq<DeviceRule>) -> Seq<RuleEntry> {
    s.map_values(|r: DeviceRule| rule_view(r))
}

/// The access rule a completed block or character device node adds:
/// allowed, with its numbers and its permissions, `rwm` when it has none.
pub open spec fn node_rule(n: specs::DeviceNode, o: (Seq<char>, Option<i64>, Option<i64>)) -> RuleEntry {
    (true, o.0, Some(or_zero(o.1)), Some(or_zero(o.2)), Some(match n.permissions {
        Some(p) => p@,
        None => "rwm"@,
    }))
}

pub open spec fn is_block_or_char(t: Seq<char>) -> bool {
    t == "b"@ || t == "c"@
}

/// Container devices after the completed nodes are added in order.
pub open spec fn devices_after(ds: Seq<DeviceEntry>, nodes: Seq<specs::DeviceNode>, probes: Seq<HostProbe>, uid: u32, gid: u32) -> Seq<DeviceEntry>
    decreases nodes.len(),
{
    if nodes.len() == 0 {
        ds
    } else {
        device_put(
            devices_after(ds, nodes.drop_last(), probes, uid, gid),
            node_device(nodes.last(), resolved(nodes.last(), probes)->0, uid, gid),
        )
    }
}

/// Access rules after those of the completed block and character nodes are added.
pub open spec fn rules_after(rs: Seq<RuleEntry>, nodes: Seq<specs::DeviceNode>, probes: Seq<HostProbe>) -> Seq<RuleEntry>
    decreases nodes.len(),
{
    if nodes.len() == 0 {
        rs
    } else {
        let before = rules_after(rs, nodes.drop_last(), probes);
        let o = resolved(nodes.last(), probes)->0;
        if is_block_or_char(o.0) {
            before.push(node_rule(nodes.last(), o))
        } else {
            before
        }
    }
}

pub open spec fn hook_list_views(s: Seq<RuntimeHook>) -> Seq<(Seq<char>, Option<Seq<String>>, Option<Seq<String>>, Option<i64>)> {
    s.map_values(|h: RuntimeHook| runtime_hook_view(h))
}

pub open spec fn edit_hook_views(s: Seq<specs::Hook>) -> Seq<(Seq<char>, Option<Seq<String>>, Option<Seq<String>>, Option<i64>)> {
    s.map_values(|h: specs::Hook| edit_hook_view(h))
}

pub open spec fn edit_mount_views(s: Seq<specs::Mount>) -> Seq<MountEntry> {
    s.map_values(|m: specs::Mount| edit_mount_view(m))
}

/// The hook list of `t` for `name`.
pub open spec fn hook_list(t: RuntimeConfig, name: HookName) -> Seq<RuntimeHook> {
    match name {
        HookName::Prestart => t.prestart@,
        HookName::CreateRuntime => t.create_runtime@,
        HookName::CreateContainer => t.create_container@,
        HookName::StartContainer => t.start_container@,
        HookName::Poststart => t.poststart@,
        HookName::Poststop => t.poststop@,
    }
}

/// `after` is `before` with `e` applied, every device node completed from `probes`.
pub open spec fn applied(before: RuntimeConfig, e: specs::ContainerEdits, probes: Seq<HostProbe>, after: RuntimeConfig) -> bool {
    let nodes = items(e.device_nodes);
    &&& texts(after.env@) == env_set_all(texts(before.env@), texts(items(e.env)))
    &&& after.uid == before.uid
    &&& after.gid == before.gid
    &&& device_views(after.devices@) == devices_after(device_views(before.devices@), nodes, probes, before.uid, before.gid)
    &&& rule_views(after.device_rules@) == rules_after(rule_views(before.device_rules@), nodes, probes)
    &&& mount_views(after.mounts@) == mount_put_all(mount_views(before.mounts@), edit_mount_views(items(e.mounts)))
    &&& forall|name: HookName| #[trigger] hook_list_views(hook_list(after, name)) == hook_list_views(hook_list(before, name))
        + edit_hook_views(hooks_named(items(e.hooks), name))
    &&& after.clos_id == (match e.intel_rdt {
        Some(r) => if r.clos_id is Some { r.clos_id } else { before.clos_id },
        None => before.clos_id,
    })
    &&& after.additional_gids@ == gid_add_all(before.additional_gids@, items(e.additional_gids))
}

fn apply_env(target: &mut RuntimeConfig, envs: &Vec<String>)
    ensures
        texts(final(target).env@) == env_set_all(texts(old(target).env@), texts(envs@)),
        *final(target) == (RuntimeConfig { env: final(target).env, ..*old(target) }),
{
    let mut i: usize = 0;
    while i < envs.len()
        invariant
            0 <= i <= envs@.len(),
            texts(target.env@) == env_set_all(texts(old(target).env@), texts(envs@.subrange(0, i as int))),
            *target == (RuntimeConfig { env: target.env, ..*old(target) }),
        decreases envs@.len() - i,
    {
        let ghost sub = texts(envs@.subrange(0, i + 1));
        assert(sub.drop_last() =~= texts(envs@.subrange(0, i as int)));
        assert(sub.last() == envs@[i as int]@);
        set_env(&mut target.env, envs[i].clone());
        i = i + 1;
    }
    assert(envs@.subrange(0, envs@.len() as int) =~= envs@);
}

fn apply_gids(target: &mut RuntimeConfig, gids: &Vec<u32>)
    ensures
        final(target).additional_gids@ == gid_add_all(old(target).additional_gids@, gids@),
        *final(target) == (RuntimeConfig { additional_gids: final(target).additional_gids, ..*old(target) }),
{
    let mut i: usize = 0;
    while i < gids.len()
        invariant
            0 <= i <= gids@.len(),
            target.additional_gids@ == gid_add_all(old(target).additional_gids@, gids@.subrange(0, i as int)),
            *target == (RuntimeConfig { additional_gids: target.additional_gids, ..*old(target) }),
        decreases gids@.len() - i,
    {
        let ghost sub = gids@.subrange(0, i + 1);
        assert(sub.drop_last() =~= gids@.subrange(0, i as int));
        add_gid(&mut target.additional_gids, gids[i]);
        i = i + 1;
    }
    assert(gids@.subrange(0, gids@.len() as int) =~= gids@);
}

fn apply_mounts(target: &mut RuntimeConfig, mounts: &Vec<specs::Mount>)
    ensures
        mount_views(final(target).mounts@) == mount_put_all(mount_views(old(target).mounts@), edit_mount_views(mounts@)),
        *final(target) == (RuntimeConfig { mounts: final(target).mounts, ..*old(target) }),
{
    let mut i: usize = 0;
    while i < mounts.len()
        invariant
            0 <= i <= mounts@.len(),
            mount_views(target.mounts@) == mount_put_all(mount_views(old(target).mounts@), edit_mount_views(mounts@.subrange(0, i as int))),
            *target == (RuntimeConfig { mounts: target.mounts, ..*old(target) }),
        decreases mounts@.len() - i,
    {
        let ghost sub = edit_mount_views(mounts@.subrange(0, i + 1));
        assert(sub.drop_last() =~= edit_mount_views(mounts@.subrange(0, i as int)));
        let m = &mounts[i];
        let rm = RuntimeMount {
            destination: m.container_path.clone(),
            source: Some(m.host_path.clone()),
            typ: copy_opt_text(&m.typ),
            options: copy_opt_texts(&m.options),
        };
        assert(runtime_mount_view(rm) == sub.last());
        put_mount(&mut target.mounts, rm);
        i = i + 1;
    }
    assert(mounts@.subrange(0, mounts@.len() as int) =~= mounts@);
}

fn push_hook(target: &mut RuntimeConfig, name: HookName, h: RuntimeHook)
    ensures
        forall|n: HookName| #[trigger] hook_list_views(hook_list(*final(target), n)) == if n == name {
            hook_list_views(hook_list(*old(target), n)).push(runtime_hook_view(h))
        } else {
            hook_list_views(hook_list(*old(target), n))
        },
        final(target).env == old(target).env,
        final(target).uid == old(target).uid,
        final(target).gid == old(target).gid,
        final(target).additional_gids == old(target).additional_gids,
        final(target).devices == old(target).devices,
        final(target).device_rules == old(target).device_rules,
        final(target).mounts == old(target).mounts,
        final(target).clos_id == old(target).clos_id,
{
    match name {
        HookName::Prestart => target.prestart.push(h),
        HookName::CreateRuntime => target.create_runtime.push(h),
        HookName::CreateContainer => target.create_container.push(h),
        HookName::StartContainer => target.start_container.push(h),
        HookName::Poststart => target.poststart.push(h),
        HookName::Poststop => target.poststop.push(h),
    }
    assert forall|n: HookName| #[trigger] hook_list_views(hook_list(*target, n)) == if n == name {
        hook_list_views(hook_list(*old(target), n)).push(runtime_hook_view(h))
    } else {
        hook_list_views(hook_list(*old(target), n))
    } by {
        if n == name {
            assert(hook_list_views(hook_list(*target, n)) =~= hook_list_views(hook_list(*old(target), n)).push(runtime_hook_view(h)));
        }
    }
}

fn apply_hooks(target: &mut RuntimeConfig, hooks: &Vec<specs::Hook>)
    requires
        hooks_known(hooks@),
    ensures
        forall|name: HookName| #[trigger] hook_list_views(hook_list(*final(target), name)) == hook_list_views(hook_list(*old(target), name))
            + edit_hook_views(hooks_named(hooks@, name)),
        final(target).env == old(target).env,
        final(target).uid == old(target).uid,
        final(target).gid == old(target).gid,
        final(target).additional_gids == old(target).additional_gids,
        final(target).devices == old(target).devices,
        final(target).device_rules == old(target).device_rules,
        final(target).mounts == old(target).mounts,
        final(target).clos_id == old(target).clos_id,
{
    let mut i: usize = 0;
    while i < hooks.len()
        invariant
            0 <= i <= hooks@.len(),
            hooks_known(hooks@),
            forall|name: HookName| #[trigger] hook_list_views(hook_list(*target, name)) == hook_list_views(hook_list(*old(target), name))
                + edit_hook_views(hooks_named(hooks@.subrange(0, i as int), name)),
            target.env == old(target).env,
            target.uid == old(target).uid,
            target.gid == old(target).gid,
            target.additional_gids == old(target).additional_gids,
            target.devices == old(target).devices,
            target.device_rules == old(target).device_rules,
            target.mounts == old(target).mounts,
            target.clos_id == old(target).clos_id,
        decreases hooks@.len() - i,
    {
        let h = &hooks[i];
        let ghost sub = hooks@.subrange(0, i + 1);
        assert(sub.drop_last() =~= hooks@.subrange(0, i as int));
        assert(sub.last() == hooks@[i as int]);
        assert(hook_name_spec(hooks@[i as int].hook_name@) is Some);
        let name = match HookName::parse(h.hook_name.as_str()) {
            Some(n) => n,
            None => HookName::Prestart,
        };
        let rh = RuntimeHook {
            path: h.path.clone(),
            args: copy_opt_texts(&h.args),
            env: copy_opt_texts(&h.env),
            timeout: h.timeout,
        };
        assert(runtime_hook_view(rh) == edit_hook_view(*h));
        let ghost mid = *target;
        push_hook(target, name, rh);
        assert forall|n: HookName| #[trigger] hook_list_views(hook_list(*target, n)) == hook_list_views(hook_list(*old(target), n))
            + edit_hook_views(hooks_named(sub, n)) by {
            if n == name {
                assert(hooks_named(sub, n) == hooks_named(hooks@.subrange(0, i as int), n).push(*h));
                assert(hook_list_views(hook_list(*target, n)) =~= hook_list_views(hook_list(*old(target), n))
                    + edit_hook_views(hooks_named(sub, n)));
            } else {
                assert(hooks_named(sub, n) == hooks_named(hooks@.subrange(0, i as int), n));
            }
        }
        i = i + 1;
    }
    assert(hooks@.subrange(0, hooks@.len() as int) =~= hooks@);
}

/// `f` is `n` completed as `o` says.
pub open spec fn completed_as(f: specs::DeviceNode, n: specs::DeviceNode, o: (Seq<char>, Option<i64>, Option<i64>)) -> bool {
    &&& f.typ is Some
    &&& f.typ->0@ == o.0
    &&& f.major == o.1
    &&& f.minor == o.2
    &&& f.path == n.path
    &&& f.permissions == n.permissions
    &&& f.file_mode == n.file_mode
    &&& f.uid == n.uid
    &&& f.gid == n.gid
}

/// Completes every device node from what the host has at its host path;
/// the first node that cannot be completed is the error.
fn resolve_nodes(nodes: &Vec<specs::DeviceNode>, probes: &Vec<HostProbe>) -> (r: Result<Vec<specs::DeviceNode>, ApplyError>)
    ensures
        r is Ok <==> nodes_resolve(nodes@, probes@),
        r is Ok ==> r->Ok_0@.len() == nodes@.len() && forall|i: int| 0 <= i < nodes@.len() ==> completed_as(
            #[trigger] r->Ok_0@[i], nodes@[i], resolved(nodes@[i], probes@)->0),
        r is Err ==> match r->Err_0 {
            ApplyError::NotADevice(i) => i < nodes@.len() && resolved(nodes@[i as int], probes@) is None,
            ApplyError::TypeMismatch(i) => i < nodes@.len() && resolved(nodes@[i as int], probes@) is None,
            ApplyError::UnknownHook(_) => false,
        },
{
    let mut out: Vec<specs::DeviceNode> = Vec::new();
    let mut i: usize = 0;
    while i < nodes.len()
        invariant
            0 <= i <= nodes@.len(),
            out@.len() == i,
            forall|k: int| 0 <= k < i ==> (#[trigger] resolved(nodes@[k], probes@)) is Some,
            forall|k: int| 0 <= k < i ==> completed_as(#[trigger] out@[k], nodes@[k], resolved(nodes@[k], probes@)->0),
        decreases nodes@.len() - i,
    {
        let mut dn = DeviceNode { node: nodes[i].duplicate() };
        let host = if dn.needs_host_info() {
            find_probe(probes, dn.host_path())
        } else {
            None
        };
        proof {
            if !node_complete(nodes@[i as int]) {
                assert(host == probe_for(probes@, host_path_of(nodes@[i as int])));
            }
        }
        match dn.fill_missing_info(host) {
            Ok(()) => {},
            Err(e) => {
                return match e {
                    ApplyError::TypeMismatch(_) => Err(ApplyError::TypeMismatch(i)),
                    _ => Err(ApplyError::NotADevice(i)),
                };
            },
        }
        out.push(dn.node);
        i = i + 1;
    }
    assert forall|k: int| 0 <= k < nodes@.len() implies (#[trigger] fill_outcome(
        nodes@[k],
        probe_for(probes@, host_path_of(nodes@[k])),
    )) is Some by {
        assert(resolved(nodes@[k], probes@) is Some);
    }
    Ok(out)
}

fn owner_id_exec(own: Option<u32>, process: u32) -> (r: Option<u32>)
    ensures
        r == owner_id(own, process),
{
    if own.is_none() && process > 0 {
        Some(process)
    } else {
        own
    }
}

fn apply_devices(target: &mut RuntimeConfig, nodes: &Vec<specs::DeviceNode>, filled: &Vec<specs::DeviceNode>, probes: &Vec<HostProbe>)
    requires
        nodes_resolve(nodes@, probes@),
        filled@.len() == nodes@.len(),
        forall|i: int| 0 <= i < nodes@.len() ==> completed_as(#[trigger] filled@[i], nodes@[i], resolved(nodes@[i], probes@)->0),
    ensures
        device_views(final(target).devices@) == devices_after(device_views(old(target).devices@), nodes@, probes@, old(target).uid, old(target).gid),
        rule_views(final(target).device_rules@) == rules_after(rule_views(old(target).device_rules@), nodes@, probes@),
        *final(target) == (RuntimeConfig { devices: final(target).devices, device_rules: final(target).device_rules, ..*old(target) }),
{
    proof {
        reveal_strlit("b");
        reveal_strlit("c");
        reveal_strlit("rwm");
    }
    let mut i: usize = 0;
    while i < filled.len()
        invariant
            0 <= i <= filled@.len(),
            filled@.len() == nodes@.len(),
            nodes_resolve(nodes@, probes@),
            forall|k: int| 0 <= k < nodes@.len() ==> completed_as(#[trigger] filled@[k], nodes@[k], resolved(nodes@[k], probes@)->0),
            device_views(target.devices@) == devices_after(device_views(old(target).devices@), nodes@.subrange(0, i as int), probes@, old(target).uid, old(target).gid),
            rule_views(target.device_rules@) == rules_after(rule_views(old(target).device_rules@), nodes@.subrange(0, i as int), probes@),
            *target == (RuntimeConfig { devices: target.devices, device_rules: target.device_rules, ..*old(target) }),
            "b"@ == seq!['b'],
            "c"@ == seq!['c'],
        decreases filled@.len() - i,
    {
        let ghost sub = nodes@.subrange(0, i + 1);
        assert(sub.drop_last() =~= nodes@.subrange(0, i as int));
        assert(sub.last() == nodes@[i as int]);
        let ghost o = resolved(nodes@[i as int], probes@)->0;
        assert(completed_as(filled@[i as int], nodes@[i as int], o));
        assert(resolved(nodes@[i as int], probes@) is Some);
        let f = &filled[i];
        let typ: &str = match &f.typ {
            Some(t) => t.as_str(),
            None => "",
        };
        let major = match f.major {
            Some(v) => v,
            None => 0,
        };
        let minor = match f.minor {
            Some(v) => v,
            None => 0,
        };
        if same_text(typ, "b") || same_text(typ, "c") {
            let access = match &f.permissions {
                Some(p) => p.clone(),
                None => "rwm".to_string(),
            };
            let rule = DeviceRule {
                allow: true,
                typ: typ.to_string(),
                major: Some(major),
                minor: Some(minor),
                access: Some(access),
            };
            assert(rule_view(rule) == node_rule(nodes@[i as int], o));
            let ghost before = target.device_rules@;
            target.device_rules.push(rule);
            assert(rule_views(target.device_rules@) =~= rule_views(before).push(rule_view(rule)));
        } else {
            assert(!is_block_or_char(o.0));
        }
        let d = LinuxDevice {
            path: f.path.clone(),
            typ: typ.to_string(),
            major,
            minor,
            file_mode: f.file_mode,
            uid: owner_id_exec(f.uid, target.uid),
            gid: owner_id_exec(f.gid, target.gid),
        };
        assert(device_view(d) == node_device(nodes@[i as int], o, old(target).uid, old(target).gid));
        put_device(&mut target.devices, d);
        i = i + 1;
    }
    assert(nodes@.subrange(0, nodes@.len() as int) =~= nodes@);
}

fn check_hooks(hooks: &Vec<specs::Hook>) -> (r: Result<(), ApplyError>)
    ensures
        r is Ok <==> hooks_known(hooks@),
        r is Err ==> r->Err_0 is UnknownHook && r->Err_0->UnknownHook_0 < hooks@.len()
            && hook_name_spec(hooks@[r->Err_0->UnknownHook_0 as int].hook_name@) is None,
{
    let mut i: usize = 0;
    while i < hooks.len()
        invariant
            0 <= i <= hooks@.len(),
            forall|k: int| 0 <= k < i ==> (#[trigger] hook_name_spec(hooks@[k].hook_name@)) is Some,
        decreases hooks@.len() - i,
    {
        if HookName::parse(hooks[i].hook_name.as_str()).is_none() {
            return Err(ApplyError::UnknownHook(i));
        }
        i = i + 1;
    }
    Ok(())
}

impl ContainerEdits {
    /// Applies these edits to a container's runtime configuration. Device
    /// nodes that lack their type or numbers are completed from `probes`,
    /// what the host has at their host paths. Environment entries replace
    /// those with the same key or are added; devices replace those at the
    /// same path, and block and character devices get an access rule; mounts
    /// replace the first one at the same destination; hooks join the list of
    /// their name; a CLOS id is set; non-zero additional groups are added
    /// once. When a device node cannot be completed or a hook name is
    /// unknown, nothing is changed.
    pub fn apply(&self, target: &mut RuntimeConfig, probes: &Vec<HostProbe>) -> (r: Result<(), ApplyError>)
        ensures
            r is Ok <==> nodes_resolve(items(self.container_edits.device_nodes), probes@) && hooks_known(
                items(self.container_edits.hooks),
            ),
            r is Err ==> *final(target) == *old(target),
            r is Ok ==> applied(*old(target), self.container_edits, probes@, *final(target)),
    {
        let e = &self.container_edits;
        let empty_nodes: Vec<specs::DeviceNode> = Vec::new();
        let nodes = match &e.device_nodes {
            Some(v) => v,
            None => &empty_nodes,
        };
        assert(nodes@ == items(e.device_nodes));
        let filled = match resolve_nodes(nodes, probes) {
            Ok(f) => f,
            Err(err) => return Err(err),
        };
        let empty_hooks: Vec<specs::Hook> = Vec::new();
        let hooks = match &e.hooks {
            Some(v) => v,
            None => &empty_hooks,
        };
        assert(hooks@ == items(e.hooks));
        if let Err(err) = check_hooks(hooks) {
            return Err(err);
        }
        let empty_texts: Vec<String> = Vec::new();
        let envs = match &e.env {
            Some(v) => v,
            None => &empty_texts,
        };
        assert(envs@ == items(e.env));
        apply_env(target, envs);
        let ghost t1 = *target;
        apply_devices(target, nodes, &filled, probes);
        let ghost t2 = *target;
        let empty_mounts: Vec<specs::Mount> = Vec::new();
        let mounts = match &e.mounts {
            Some(v) => v,
            None => &empty_mounts,
        };
        assert(mounts@ == items(e.mounts));
        apply_mounts(target, mounts);
        let ghost t3 = *target;
        apply_hooks(target, hooks);
        let ghost t4 = *target;
        if let Some(rdt) = &e.intel_rdt {
            if let Some(c) = &rdt.clos_id {
                target.clos_id = Some(c.clone());
            }
        }
        let ghost t5 = *target;
        let empty_gids: Vec<u32> = Vec::new();
        let gids = match &e.additional_gids {
            Some(v) => v,
            None => &empty_gids,
        };
        assert(gids@ == items(e.additional_gids));
        apply_gids(target, gids);
        proof {
            assert forall|name: HookName| #[trigger] hook_list_views(hook_list(*target, name)) == hook_list_views(hook_list(*old(target), name))
                + edit_hook_views(hooks_named(items(e.hooks), name)) by {
                assert(hook_list(*target, name) == hook_list(t4, name));
                assert(hook_list(t3, name) == hook_list(*old(target), name));
            }
        }
        Ok(())
    }
}

impl Spec {
    /// Applies the global edits of this file, if any, to a container's
    /// configuration (see `ContainerEdits::apply`).
    pub fn apply_edits(&self, target: &mut RuntimeConfig, probes: &Vec<HostProbe>) -> (r: Result<(), ApplyError>)
        ensures
            self.container_edits is None ==> r is Ok && *final(target) == *old(target),
            self.container_edits is Some ==> (r is Ok <==> nodes_resolve(
                items(self.container_edits->0.device_nodes),
                probes@,
            ) && hooks_known(items(self.container_edits->0.hooks))),
            r is Err ==> *final(target) == *old(target),
            r is Ok && self.container_edits is Some ==> exists|e: specs::ContainerEdits|
                edits_view(e) == edits_view(self.container_edits->0) && #[trigger] applied(*old(target), e, probes@, *final(target)),
    {
        match self.edits() {
            Some(ce) => {
                proof {
                    lemma_applicable_same(ce.container_edits, self.container_edits->0, probes@);
                }
                let r = ce.apply(target, probes);
                r
            },
            None => Ok(()),
        }
    }
}

impl Device {
    /// Applies the edits of this device to a container's configuration (see
    /// `ContainerEdits::apply`).
    pub fn apply_edits(&self, target: &mut RuntimeConfig, probes: &Vec<HostProbe>) -> (r: Result<(), ApplyError>)
        ensures
            r is Ok <==> nodes_resolve(items(self.cdi_device.container_edits.device_nodes), probes@) && hooks_known(
                items(self.cdi_device.container_edits.hooks),
            ),
            r is Err ==> *final(target) == *old(target),
            r is Ok ==> exists|e: specs::ContainerEdits|
                edits_view(e) == edits_view(self.cdi_device.container_edits) && #[trigger] applied(*old(target), e, probes@, *final(target)),
    {
        let ce = self.edits();
        proof {
            lemma_applicable_same(ce.container_edits, self.cdi_device.container_edits, probes@);
        }
        ce.apply(target, probes)
    }
}

/// Edits with the same view can be applied alike.
proof fn lemma_applicable_same(a: specs::ContainerEdits, b: specs::ContainerEdits, probes: Seq<HostProbe>)
    requires
        edits_view(a) == edits_view(b),
    ensures
        items(a.device_nodes) == items(b.device_nodes),
        hooks_known(items(a.hooks)) <==> hooks_known(items(b.hooks)),
{
    let ha = items(a.hooks);
    let hb = items(b.hooks);
    lemma_hook_views(ha);
    lemma_hook_views(hb);
    assert(hook_views(ha) == hook_views(hb)) by {
        if a.hooks is Some {
            assert(hooks_view(a.hooks) == hooks_view(b.hooks));
        }
    }
    assert forall|i: int| 0 <= i < ha.len() implies ha[i].hook_name == hb[i].hook_name by {
        assert(hook_views(ha)[i] == hook_views(hb)[i]);
    }
}

} // verus!
