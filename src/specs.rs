//! The record shape of a specification file, as read from disk.
use vstd::prelude::*;

verus! {

/// The newest format version this library knows.
pub const CURRENT_VERSION: &'static str = "0.7.0";

/// One specification file: format version, `vendor/class` kind, annotations,
/// devices and edits that apply to every device of the file.
#[derive(Clone, Debug, Default)]
pub struct Spec {
    pub version: String,
    pub kind: String,
    pub annotations: Vec<(String, String)>,
    pub devices: Vec<Device>,
    pub container_edits: Option<ContainerEdits>,
}

/// One device of a specification file.
#[derive(Clone, Debug, Default)]
pub struct Device {
    pub name: String,
    pub annotations: Vec<(String, String)>,
    pub container_edits: ContainerEdits,
}

/// The changes a container runtime makes to expose a device.
#[derive(Clone, Debug, Default)]
pub struct ContainerEdits {
    pub env: Option<Vec<String>>,
    pub device_nodes: Option<Vec<DeviceNode>>,
    pub hooks: Option<Vec<Hook>>,
    pub mounts: Option<Vec<Mount>>,
    pub intel_rdt: Option<IntelRdt>,
    pub additional_gids: Option<Vec<u32>>,
}

/// A device node to create in the container.
#[derive(Clone, Debug, Default)]
pub struct DeviceNode {
    pub path: String,
    pub host_path: Option<String>,
    pub typ: Option<String>,
    pub major: Option<i64>,
    pub minor: Option<i64>,
    pub file_mode: Option<u32>,
    pub permissions: Option<String>,
    pub uid: Option<u32>,
    pub gid: Option<u32>,
}

/// A mount to add to the container.
#[derive(Clone, Debug, Default)]
pub struct Mount {
    pub host_path: String,
    pub container_path: String,
    pub typ: Option<String>,
    pub options: Option<Vec<String>>,
}

/// A hook to run at a named point of the container's life.
#[derive(Clone, Debug, Default)]
pub struct Hook {
    pub hook_name: String,
    pub path: String,
    pub args: Option<Vec<String>>,
    pub env: Option<Vec<String>>,
    pub timeout: Option<i64>,
}

/// Intel RDT settings for the container.
#[derive(Clone, Debug, Default)]
pub struct IntelRdt {
    pub clos_id: Option<String>,
    pub l3_cache_schema: Option<String>,
    pub mem_bw_schema: Option<String>,
    pub enable_cmt: bool,
    pub enable_mbm: bool,
}

/// The items of an optional list; none when it is absent.
pub open spec fn items<T>(o: Option<Vec<T>>) -> Seq<T> {
    match o {
        Some(v) => v@,
        None => Seq::empty(),
    }
}

/// The view of an optional list.
pub open spec fn opt_view<T>(o: Option<Vec<T>>) -> Option<Seq<T>> {
    match o {
        Some(v) => Some(v@),
        None => None,
    }
}

/// Two optional lists joined: absent only when both are, `a`'s items first.
pub open spec fn join_opt<T>(a: Option<Seq<T>>, b: Option<Seq<T>>) -> Option<Seq<T>> {
    match (a, b) {
        (None, None) => None,
        (Some(x), None) => Some(x),
        (None, Some(y)) => Some(y),
        (Some(x), Some(y)) => Some(x + y),
    }
}

/// A copy of a list of texts.
pub fn copy_texts(v: &Vec<String>) -> (r: Vec<String>)
    ensures
        r@ == v@,
{
    let mut out: Vec<String> = Vec::new();
    let mut i: usize = 0;
    while i < v.len()
        invariant
            0 <= i <= v@.len(),
            out@ == v@.subrange(0, i as int),
        decreases v@.len() - i,
    {
        out.push(v[i].clone());
        assert(out@ =~= v@.subrange(0, i + 1));
        i = i + 1;
    }
    assert(v@.subrange(0, v@.len() as int) =~= v@);
    out
}

/// A copy of an optional list of texts.
pub fn copy_opt_texts(v: &Option<Vec<String>>) -> (r: Option<Vec<String>>)
    ensures
        opt_view(r) == opt_view(*v),
{
    match v {
        Some(x) => Some(copy_texts(x)),
        None => None,
    }
}

/// A copy of an optional text.
pub fn copy_opt_text(v: &Option<String>) -> (r: Option<String>)
    ensures
        r == *v,
{
    match v {
        Some(x) => Some(x.clone()),
        None => None,
    }
}

/// A copy of annotations.
pub fn copy_pairs(v: &Vec<(String, String)>) -> (r: Vec<(String, String)>)
    ensures
        r@ == v@,
{
    let mut out: Vec<(String, String)> = Vec::new();
    let mut i: usize = 0;
    while i < v.len()
        invariant
            0 <= i <= v@.len(),
            out@ == v@.subrange(0, i as int),
        decreases v@.len() - i,
    {
        out.push((v[i].0.clone(), v[i].1.clone()));
        assert(out@ =~= v@.subrange(0, i + 1));
        i = i + 1;
    }
    assert(v@.subrange(0, v@.len() as int) =~= v@);
    out
}

/// The same edits after a copy: the lists hold the same items.
pub open spec fn same_edits(a: ContainerEdits, b: ContainerEdits) -> bool {
    &&& opt_view(a.env) == opt_view(b.env)
    &&& opt_view(a.device_nodes) == opt_view(b.device_nodes)
    &&& opt_view(a.hooks) == opt_view(b.hooks)
    &&& opt_view(a.mounts) == opt_view(b.mounts)
    &&& a.intel_rdt == b.intel_rdt
    &&& opt_view(a.additional_gids) == opt_view(b.additional_gids)
}

impl DeviceNode {
    pub fn duplicate(&self) -> (r: DeviceNode)
        ensures
            r == *self,
    {
        DeviceNode {
            path: self.path.clone(),
            host_path: copy_opt_text(&self.host_path),
            typ: copy_opt_text(&self.typ),
            major: self.major,
            minor: self.minor,
            file_mode: self.file_mode,
            permissions: copy_opt_text(&self.permissions),
            uid: self.uid,
            gid: self.gid,
        }
    }
}

impl Mount {
    pub fn duplicate(&self) -> (r: Mount)
        ensures
            r.host_path == self.host_path,
            r.container_path == self.container_path,
            r.typ == self.typ,
            opt_view(r.options) == opt_view(self.options),
    {
        Mount {
            host_path: self.host_path.clone(),
            container_path: self.container_path.clone(),
            typ: copy_opt_text(&self.typ),
            options: copy_opt_texts(&self.options),
        }
    }
}

impl Hook {
    pub fn duplicate(&self) -> (r: Hook)
        ensures
            r.hook_name == self.hook_name,
            r.path == self.path,
            opt_view(r.args) == opt_view(self.args),
            opt_view(r.env) == opt_view(self.env),
            r.timeout == self.timeout,
    {
        Hook {
            hook_name: self.hook_name.clone(),
            path: self.path.clone(),
            args: copy_opt_texts(&self.args),
            env: copy_opt_texts(&self.env),
            timeout: self.timeout,
        }
    }
}

impl IntelRdt {
    pub fn duplicate(&self) -> (r: IntelRdt)
        ensures
            r == *self,
    {
        IntelRdt {
            clos_id: copy_opt_text(&self.clos_id),
            l3_cache_schema: copy_opt_text(&self.l3_cache_schema),
            mem_bw_schema: copy_opt_text(&self.mem_bw_schema),
            enable_cmt: self.enable_cmt,
            enable_mbm: self.enable_mbm,
        }
    }
}

} // verus!
