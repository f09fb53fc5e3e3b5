//! Container edits: validation and accumulation.
use vstd::prelude::*;
use vstd::utf8::encode_utf8;
use crate::chars::{contains_char, lacks, same_text};
use crate::specs::{self, copy_opt_texts, items, join_opt, opt_view};

verus! {

/// Why a device node is not well formed.
#[derive(Clone, Copy, Debug, PartialEq, Eq, Structural)]
pub enum NodeError {
    EmptyPath,
    InvalidType,
    InvalidPermissions,
}

/// Why a hook is not well formed.
#[derive(Clone, Copy, Debug, PartialEq, Eq, Structural)]
pub enum HookError {
    InvalidName,
    EmptyPath,
    /// The index of the first environment entry without `=`.
    InvalidEnv(usize),
}

/// Why a mount is not well formed.
#[derive(Clone, Copy, Debug, PartialEq, Eq, Structural)]
pub enum MountError {
    EmptyHostPath,
    EmptyContainerPath,
}

/// The first item of a set of container edits that is not well formed,
/// by its index in its list.
#[derive(Clone, Copy, Debug, PartialEq, Eq, Structural)]
pub enum EditError {
    Env(usize),
    DeviceNode(usize, NodeError),
    Hook(usize, HookError),
    Mount(usize, MountError),
    IntelRdt,
}

/// The points of a container's life at which a hook can run.
#[derive(Clone, Copy, Debug, PartialEq, Eq, Structural)]
pub enum HookName {
    Prestart,
    CreateRuntime,
    CreateContainer,
    StartContainer,
    Poststart,
    Poststop,
}

pub open spec fn hook_name_spec(s: Seq<char>) -> Option<HookName> {
    if s == "prestart"@ {
        Some(HookName::Prestart)
    } else if s == "createRuntime"@ {
        Some(HookName::CreateRuntime)
    } else if s == "createContainer"@ {
        Some(HookName::CreateContainer)
    } else if s == "startContainer"@ {
        Some(HookName::StartContainer)
    } else if s == "poststart"@ {
        Some(HookName::Poststart)
    } else if s == "poststop"@ {
        Some(HookName::Poststop)
    } else {
        None
    }
}

impl HookName {
    /// The hook name that `s` spells, if any.
    pub fn parse(s: &str) -> (r: Option<HookName>)
        ensures
            r == hook_name_spec(s@),
    {
        if same_text(s, "prestart") {
            Some(HookName::Prestart)
        } else if same_text(s, "createRuntime") {
            Some(HookName::CreateRuntime)
        } else if same_text(s, "createContainer") {
            Some(HookName::CreateContainer)
        } else if same_text(s, "startContainer") {
            Some(HookName::StartContainer)
        } else if same_text(s, "poststart") {
            Some(HookName::Poststart)
        } else if same_text(s, "poststop") {
            Some(HookName::Poststop)
        } else {
            None
        }
    }
}

/// An environment entry of the form `KEY=VALUE`.
pub open spec fn env_ok(e: String) -> bool {
    !lacks(e@, '=')
}

/// The index of the first entry from `i` on that holds no `=`.
pub open spec fn first_bad_env(s: Seq<String>, i: int) -> Option<int>
    decreases s.len() - i,
{
    if i < 0 || i >= s.len() {
        None
    } else if !env_ok(s[i]) {
        Some(i)
    } else {
        first_bad_env(s, i + 1)
    }
}

pub open spec fn valid_node_type(t: Seq<char>) -> bool {
    t == "b"@ || t == "c"@ || t == "u"@ || t == "p"@ || t.len() == 0
}

pub open spec fn valid_permissions(p: Seq<char>) -> bool {
    forall|i: int| 0 <= i < p.len() ==> (p[i] == 'r' || p[i] == 'w' || p[i] == 'm')
}

pub open spec fn node_check(n: specs::DeviceNode) -> Result<(), NodeError> {
    if n.path@.len() == 0 {
        Err(NodeError::EmptyPath)
    } else if n.typ is Some && !valid_node_type(n.typ->0@) {
        Err(NodeError::InvalidType)
    } else if n.permissions is Some && !valid_permissions(n.permissions->0@) {
        Err(NodeError::InvalidPermissions)
    } else {
        Ok(())
    }
}

pub open spec fn hook_check(h: specs::Hook) -> Result<(), HookError> {
    if hook_name_spec(h.hook_name@) is None {
        Err(HookError::InvalidName)
    } else if h.path@.len() == 0 {
        Err(HookError::EmptyPath)
    } else if first_bad_env(items(h.env), 0) is Some {
        Err(HookError::InvalidEnv(first_bad_env(items(h.env), 0)->0 as usize))
    } else {
        Ok(())
    }
}

pub open spec fn mount_check(m: specs::Mount) -> Result<(), MountError> {
    if m.host_path@.len() == 0 {
        Err(MountError::EmptyHostPath)
    } else if m.container_path@.len() == 0 {
        Err(MountError::EmptyContainerPath)
    } else {
        Ok(())
    }
}

/// A CLOS id: shorter than 4096 bytes, not `.` or `..`, without `/` or newline.
pub open spec fn valid_clos_id(c: Seq<char>) -> bool {
    &&& (encode_utf8(c).len() as usize) < 4096
    &&& c != "."@
    &&& c != ".."@
    &&& lacks(c, '/')
    &&& lacks(c, '\n')
}

pub open spec fn rdt_ok(r: specs::IntelRdt) -> bool {
    r.clos_id is Some ==> valid_clos_id(r.clos_id->0@)
}

pub open spec fn first_bad_node(s: Seq<specs::DeviceNode>, i: int) -> Option<int>
    decreases s.len() - i,
{
    if i < 0 || i >= s.len() {
        None
    } else if node_check(s[i]) is Err {
        Some(i)
    } else {
        first_bad_node(s, i + 1)
    }
}

pub open spec fn first_bad_hook(s: Seq<specs::Hook>, i: int) -> Option<int>
    decreases s.len() - i,
{
    if i < 0 || i >= s.len() {
        None
    } else if hook_check(s[i]) is Err {
        Some(i)
    } else {
        first_bad_hook(s, i + 1)
    }
}

pub open spec fn first_bad_mount(s: Seq<specs::Mount>, i: int) -> Option<int>
    decreases s.len() - i,
{
    if i < 0 || i >= s.len() {
        None
    } else if mount_check(s[i]) is Err {
        Some(i)
    } else {
        first_bad_mount(s, i + 1)
    }
}

/// The outcome of validating container edits: environment entries first,
/// then device nodes, hooks, mounts and the Intel RDT settings; the first
/// item that fails decides.
pub open spec fn edits_check(e: specs::ContainerEdits) -> Result<(), EditError> {
    let envs = items(e.env);
    let nodes = items(e.device_nodes);
    let hooks = items(e.hooks);
    let mounts = items(e.mounts);
    if first_bad_env(envs, 0) is Some {
        Err(EditError::Env(first_bad_env(envs, 0)->0 as usize))
    } else if first_bad_node(nodes, 0) is Some {
        let i = first_bad_node(nodes, 0)->0;
        Err(EditError::DeviceNode(i as usize, node_check(nodes[i])->Err_0))
    } else if first_bad_hook(hooks, 0) is Some {
        let i = first_bad_hook(hooks, 0)->0;
        Err(EditError::Hook(i as usize, hook_check(hooks[i])->Err_0))
    } else if first_bad_mount(mounts, 0) is Some {
        let i = first_bad_mount(mounts, 0)->0;
        Err(EditError::Mount(i as usize, mount_check(mounts[i])->Err_0))
    } else if e.intel_rdt is Some && !rdt_ok(e.intel_rdt->0) {
        Err(EditError::IntelRdt)
    } else {
        Ok(())
    }
}

/// What a hook holds: name, path, arguments, environment and timeout.
pub type HookView = (String, String, Option<Seq<String>>, Option<Seq<String>>, Option<i64>);

/// What a mount holds: host path, container path, type and options.
pub type MountView = (String, String, Option<String>, Option<Seq<String>>);

pub open spec fn hook_view(h: specs::Hook) -> HookView {
    (h.hook_name, h.path, opt_view(h.args), opt_view(h.env), h.timeout)
}

pub open spec fn mount_view(m: specs::Mount) -> MountView {
    (m.host_path, m.container_path, m.typ, opt_view(m.options))
}

pub open spec fn hook_views(s: Seq<specs::Hook>) -> Seq<HookView> {
    s.map_values(|h: specs::Hook| hook_view(h))
}

pub open spec fn mount_views(s: Seq<specs::Mount>) -> Seq<MountView> {
    s.map_values(|m: specs::Mount| mount_view(m))
}

pub proof fn lemma_hook_views(s: Seq<specs::Hook>)
    ensures
        hook_views(s).len() == s.len(),
        forall|k: int| 0 <= k < s.len() ==> #[trigger] hook_views(s)[k] == hook_view(s[k]),
{
}

pub proof fn lemma_mount_views(s: Seq<specs::Mount>)
    ensures
        mount_views(s).len() == s.len(),
        forall|k: int| 0 <= k < s.len() ==> #[trigger] mount_views(s)[k] == mount_view(s[k]),
{
}

pub open spec fn hooks_view(o: Option<Vec<specs::Hook>>) -> Option<Seq<HookView>> {
    match o {
        Some(v) => Some(hook_views(v@)),
        None => None,
    }
}

pub open spec fn mounts_view(o: Option<Vec<specs::Mount>>) -> Option<Seq<MountView>> {
    match o {
        Some(v) => Some(mount_views(v@)),
        None => None,
    }
}

/// What a set of container edits holds, list by list.
pub struct EditsView {
    pub env: Option<Seq<String>>,
    pub device_nodes: Option<Seq<specs::DeviceNode>>,
    pub hooks: Option<Seq<HookView>>,
    pub mounts: Option<Seq<MountView>>,
    pub intel_rdt: Option<specs::IntelRdt>,
    pub additional_gids: Option<Seq<u32>>,
}

pub open spec fn edits_view(e: specs::ContainerEdits) -> EditsView {
    EditsView {
        env: opt_view(e.env),
        device_nodes: opt_view(e.device_nodes),
        hooks: hooks_view(e.hooks),
        mounts: mounts_view(e.mounts),
        intel_rdt: e.intel_rdt,
        additional_gids: opt_view(e.additional_gids),
    }
}

/// `other` appended to `base`: each list joined, `base`'s items first; the
/// Intel RDT settings of `other` when it has some, else those of `base`.
pub open spec fn append_view(base: EditsView, other: EditsView) -> EditsView {
    EditsView {
        env: join_opt(base.env, other.env),
        device_nodes: join_opt(base.device_nodes, other.device_nodes),
        hooks: join_opt(base.hooks, other.hooks),
        mounts: join_opt(base.mounts, other.mounts),
        intel_rdt: if other.intel_rdt is Some {
            other.intel_rdt
        } else {
            base.intel_rdt
        },
        additional_gids: join_opt(base.additional_gids, other.additional_gids),
    }
}

/// No edits at all.
pub open spec fn empty_view() -> EditsView {
    EditsView {
        env: None,
        device_nodes: None,
        hooks: None,
        mounts: None,
        intel_rdt: None,
        additional_gids: None,
    }
}

proof fn lemma_join_opt_assoc<T>(a: Option<Seq<T>>, b: Option<Seq<T>>, c: Option<Seq<T>>)
    ensures
        join_opt(join_opt(a, b), c) == join_opt(a, join_opt(b, c)),
{
    match (a, b, c) {
        (Some(x), Some(y), Some(z)) => {
            assert(x + y + z =~= x + (y + z));
        },
        _ => {},
    }
}

/// Appending edits is associative, so accumulating a sequence of edits in
/// order gives one result however the appends are grouped.
pub proof fn lemma_append_associative(a: EditsView, b: EditsView, c: EditsView)
    ensures
        append_view(append_view(a, b), c) == append_view(a, append_view(b, c)),
{
    lemma_join_opt_assoc(a.env, b.env, c.env);
    lemma_join_opt_assoc(a.device_nodes, b.device_nodes, c.device_nodes);
    lemma_join_opt_assoc(a.hooks, b.hooks, c.hooks);
    lemma_join_opt_assoc(a.mounts, b.mounts, c.mounts);
    lemma_join_opt_assoc(a.additional_gids, b.additional_gids, c.additional_gids);
}

/// Appending no edits, on either side, changes nothing.
pub proof fn lemma_append_identity(a: EditsView)
    ensures
        append_view(empty_view(), a) == a,
        append_view(a, empty_view()) == a,
{
}

/// Joins two optional lists, `v1`'s items first; the result is absent only
/// when both are. The items are clones of the inputs'.
pub fn merge<T: Clone>(v1: &mut Option<Vec<T>>, v2: &Option<Vec<T>>) -> (r: Option<Vec<T>>)
    ensures
        *final(v1) == *old(v1),
        r is Some <==> (*old(v1) is Some || *v2 is Some),
        r is Some ==> r->0@.len() == items(*old(v1)).len() + items(*v2).len(),
        r is Some ==> forall|i: int|
            0 <= i < items(*old(v1)).len() ==> cloned(items(*old(v1))[i], #[trigger] r->0@[i]),
        r is Some ==> forall|i: int|
            items(*old(v1)).len() <= i < r->0@.len() ==> cloned(
                items(*v2)[i - items(*old(v1)).len()],
                #[trigger] r->0@[i],
            ),
{
    match v1 {
        Some(a) => {
            let mut out = a.clone();
            match v2 {
                Some(b) => {
                    out.extend_from_slice(b.as_slice());
                },
                None => {},
            }
            Some(out)
        },
        None => match v2 {
            Some(b) => Some(b.clone()),
            None => None,
        },
    }
}

proof fn lemma_join_hooks(a: Option<Vec<specs::Hook>>, b: Option<Vec<specs::Hook>>, r: Option<Vec<specs::Hook>>)
    requires
        opt_view(r) == join_opt(opt_view(a), opt_view(b)),
    ensures
        hooks_view(r) == join_opt(hooks_view(a), hooks_view(b)),
{
    match (a, b) {
        (Some(x), Some(y)) => {
            assert(hook_views(r->0@) =~= hook_views(x@) + hook_views(y@));
        },
        _ => {},
    }
}

proof fn lemma_join_mounts(a: Option<Vec<specs::Mount>>, b: Option<Vec<specs::Mount>>, r: Option<Vec<specs::Mount>>)
    requires
        opt_view(r) == join_opt(opt_view(a), opt_view(b)),
    ensures
        mounts_view(r) == join_opt(mounts_view(a), mounts_view(b)),
{
    match (a, b) {
        (Some(x), Some(y)) => {
            assert(mount_views(r->0@) =~= mount_views(x@) + mount_views(y@));
        },
        _ => {},
    }
}

/// Joins two optional lists by moving their items, `a`'s first.
pub fn join_lists<T>(a: Option<Vec<T>>, b: Option<Vec<T>>) -> (r: Option<Vec<T>>)
    ensures
        opt_view(r) == join_opt(opt_view(a), opt_view(b)),
{
    match a {
        Some(mut x) => match b {
            Some(mut y) => {
                x.append(&mut y);
                Some(x)
            },
            None => Some(x),
        },
        None => b,
    }
}

fn first_invalid_env(envs: &Vec<String>) -> (r: Option<usize>)
    ensures
        match r {
            Some(i) => first_bad_env(envs@, 0) == Some(i as int),
            None => first_bad_env(envs@, 0) is None,
        },
{
    let mut i: usize = 0;
    while i < envs.len()
        invariant
            0 <= i <= envs@.len(),
            first_bad_env(envs@, 0) == first_bad_env(envs@, i as int),
        decreases envs@.len() - i,
    {
        if !contains_char(envs[i].as_str(), '=') {
            return Some(i);
        }
        i = i + 1;
    }
    None
}

/// Checks that every environment entry holds `=`.
pub fn validate_envs(envs: &Vec<String>) -> (r: Result<(), usize>)
    ensures
        match r {
            Ok(()) => first_bad_env(envs@, 0) is None,
            Err(i) => first_bad_env(envs@, 0) == Some(i as int),
        },
{
    match first_invalid_env(envs) {
        Some(i) => Err(i),
        None => Ok(()),
    }
}

fn valid_permissions_exec(p: &str) -> (r: bool)
    ensures
        r == valid_permissions(p@),
{
    let n = p.unicode_len();
    let mut i: usize = 0;
    while i < n
        invariant
            n == p@.len(),
            0 <= i <= n,
            forall|j: int| 0 <= j < i ==> (p@[j] == 'r' || p@[j] == 'w' || p@[j] == 'm'),
        decreases n - i,
    {
        let c = p.get_char(i);
        if !(c == 'r' || c == 'w' || c == 'm') {
            return false;
        }
        i = i + 1;
    }
    true
}

/// Checks a device node: a path, a known type, permissions from `r`, `w`, `m`.
pub fn validate_device_node(n: &specs::DeviceNode) -> (r: Result<(), NodeError>)
    ensures
        r == node_check(*n),
{
    if n.path.as_str().unicode_len() == 0 {
        return Err(NodeError::EmptyPath);
    }
    if let Some(t) = &n.typ {
        let t = t.as_str();
        let ok = same_text(t, "b") || same_text(t, "c") || same_text(t, "u") || same_text(t, "p")
            || t.unicode_len() == 0;
        if !ok {
            return Err(NodeError::InvalidType);
        }
    }
    if let Some(p) = &n.permissions {
        if !valid_permissions_exec(p.as_str()) {
            return Err(NodeError::InvalidPermissions);
        }
    }
    Ok(())
}

/// Checks a hook: a known name, a path, environment entries with `=`.
pub fn validate_hook(h: &specs::Hook) -> (r: Result<(), HookError>)
    ensures
        r == hook_check(*h),
{
    if HookName::parse(h.hook_name.as_str()).is_none() {
        return Err(HookError::InvalidName);
    }
    if h.path.as_str().unicode_len() == 0 {
        return Err(HookError::EmptyPath);
    }
    if let Some(envs) = &h.env {
        if let Some(i) = first_invalid_env(envs) {
            return Err(HookError::InvalidEnv(i));
        }
    }
    Ok(())
}

/// Checks a mount: both paths present.
pub fn validate_mount(m: &specs::Mount) -> (r: Result<(), MountError>)
    ensures
        r == mount_check(*m),
{
    if m.host_path.as_str().unicode_len() == 0 {
        return Err(MountError::EmptyHostPath);
    }
    if m.container_path.as_str().unicode_len() == 0 {
        return Err(MountError::EmptyContainerPath);
    }
    Ok(())
}

/// Checks the CLOS id of Intel RDT settings, when there is one.
pub fn validate_intel_rdt(r: &specs::IntelRdt) -> (ok: bool)
    ensures
        ok == rdt_ok(*r),
{
    match &r.clos_id {
        None => true,
        Some(c) => {
            let c = c.as_str();
            let n = c.len();
            !(n >= 4096 || same_text(c, ".") || same_text(c, "..") || contains_char(c, '/')
                || contains_char(c, '\n'))
        },
    }
}

fn first_invalid_node(s: &Vec<specs::DeviceNode>) -> (r: Option<(usize, NodeError)>)
    ensures
        match r {
            Some((i, e)) => first_bad_node(s@, 0) == Some(i as int) && node_check(s@[i as int])
                == Err::<(), NodeError>(e),
            None => first_bad_node(s@, 0) is None,
        },
{
    let mut i: usize = 0;
    while i < s.len()
        invariant
            0 <= i <= s@.len(),
            first_bad_node(s@, 0) == first_bad_node(s@, i as int),
        decreases s@.len() - i,
    {
        if let Err(e) = validate_device_node(&s[i]) {
            return Some((i, e));
        }
        i = i + 1;
    }
    None
}

fn first_invalid_hook(s: &Vec<specs::Hook>) -> (r: Option<(usize, HookError)>)
    ensures
        match r {
            Some((i, e)) => first_bad_hook(s@, 0) == Some(i as int) && hook_check(s@[i as int])
                == Err::<(), HookError>(e),
            None => first_bad_hook(s@, 0) is None,
        },
{
    let mut i: usize = 0;
    while i < s.len()
        invariant
            0 <= i <= s@.len(),
            first_bad_hook(s@, 0) == first_bad_hook(s@, i as int),
        decreases s@.len() - i,
    {
        if let Err(e) = validate_hook(&s[i]) {
            return Some((i, e));
        }
        i = i + 1;
    }
    None
}

fn first_invalid_mount(s: &Vec<specs::Mount>) -> (r: Option<(usize, MountError)>)
    ensures
        match r {
            Some((i, e)) => first_bad_mount(s@, 0) == Some(i as int) && mount_check(s@[i as int])
                == Err::<(), MountError>(e),
            None => first_bad_mount(s@, 0) is None,
        },
{
    let mut i: usize = 0;
    while i < s.len()
        invariant
            0 <= i <= s@.len(),
            first_bad_mount(s@, 0) == first_bad_mount(s@, i as int),
        decreases s@.len() - i,
    {
        if let Err(e) = validate_mount(&s[i]) {
            return Some((i, e));
        }
        i = i + 1;
    }
    None
}

/// Checks a raw set of container edits.
pub fn validate_edits(e: &specs::ContainerEdits) -> (r: Result<(), EditError>)
    ensures
        r == edits_check(*e),
{
    if let Some(envs) = &e.env {
        if let Some(i) = first_invalid_env(envs) {
            return Err(EditError::Env(i));
        }
    }
    if let Some(nodes) = &e.device_nodes {
        if let Some((i, why)) = first_invalid_node(nodes) {
            return Err(EditError::DeviceNode(i, why));
        }
    }
    if let Some(hooks) = &e.hooks {
        if let Some((i, why)) = first_invalid_hook(hooks) {
            return Err(EditError::Hook(i, why));
        }
    }
    if let Some(mounts) = &e.mounts {
        if let Some((i, why)) = first_invalid_mount(mounts) {
            return Err(EditError::Mount(i, why));
        }
    }
    if let Some(rdt) = &e.intel_rdt {
        if !validate_intel_rdt(rdt) {
            return Err(EditError::IntelRdt);
        }
    }
    Ok(())
}

fn copy_nodes(v: &Vec<specs::DeviceNode>) -> (r: Vec<specs::DeviceNode>)
    ensures
        r@ == v@,
{
    let mut out: Vec<specs::DeviceNode> = Vec::new();
    let mut i: usize = 0;
    while i < v.len()
        invariant
            0 <= i <= v@.len(),
            out@ == v@.subrange(0, i as int),
        decreases v@.len() - i,
    {
        out.push(v[i].duplicate());
        assert(out@ =~= v@.subrange(0, i + 1));
        i = i + 1;
    }
    assert(v@.subrange(0, v@.len() as int) =~= v@);
    out
}

fn copy_hooks(v: &Vec<specs::Hook>) -> (r: Vec<specs::Hook>)
    ensures
        hook_views(r@) == hook_views(v@),
{
    let mut out: Vec<specs::Hook> = Vec::new();
    let mut i: usize = 0;
    while i < v.len()
        invariant
            0 <= i <= v@.len(),
            out@.len() == i,
            forall|k: int| 0 <= k < i ==> hook_view(#[trigger] out@[k]) == hook_view(v@[k]),
        decreases v@.len() - i,
    {
        let d = v[i].duplicate();
        out.push(d);
        i = i + 1;
    }
    proof {
        lemma_hook_views(out@);
        lemma_hook_views(v@);
    }
    assert(hook_views(out@) =~= hook_views(v@));
    out
}

fn copy_mounts(v: &Vec<specs::Mount>) -> (r: Vec<specs::Mount>)
    ensures
        mount_views(r@) == mount_views(v@),
{
    let mut out: Vec<specs::Mount> = Vec::new();
    let mut i: usize = 0;
    while i < v.len()
        invariant
            0 <= i <= v@.len(),
            out@.len() == i,
            forall|k: int| 0 <= k < i ==> mount_view(#[trigger] out@[k]) == mount_view(v@[k]),
        decreases v@.len() - i,
    {
        let d = v[i].duplicate();
        out.push(d);
        i = i + 1;
    }
    proof {
        lemma_mount_views(out@);
        lemma_mount_views(v@);
    }
    assert(mount_views(out@) =~= mount_views(v@));
    out
}

fn copy_gids(v: &Vec<u32>) -> (r: Vec<u32>)
    ensures
        r@ == v@,
{
    let mut out: Vec<u32> = Vec::new();
    let mut i: usize = 0;
    while i < v.len()
        invariant
            0 <= i <= v@.len(),
            out@ == v@.subrange(0, i as int),
        decreases v@.len() - i,
    {
        out.push(v[i]);
        assert(out@ =~= v@.subrange(0, i + 1));
        i = i + 1;
    }
    assert(v@.subrange(0, v@.len() as int) =~= v@);
    out
}

/// A copy of raw container edits.
pub fn copy_edits(e: &specs::ContainerEdits) -> (r: specs::ContainerEdits)
    ensures
        edits_view(r) == edits_view(*e),
        edits_check(r) == edits_check(*e),
{
    let r = specs::ContainerEdits {
        env: copy_opt_texts(&e.env),
        device_nodes: match &e.device_nodes {
            Some(v) => Some(copy_nodes(v)),
            None => None,
        },
        hooks: match &e.hooks {
            Some(v) => Some(copy_hooks(v)),
            None => None,
        },
        mounts: match &e.mounts {
            Some(v) => Some(copy_mounts(v)),
            None => None,
        },
        intel_rdt: match &e.intel_rdt {
            Some(x) => Some(x.duplicate()),
            None => None,
        },
        additional_gids: match &e.additional_gids {
            Some(v) => Some(copy_gids(v)),
            None => None,
        },
    };
    proof {
        lemma_check_by_view(r, *e);
    }
    r
}

/// Edits with the same view validate alike.
proof fn lemma_check_by_view(a: specs::ContainerEdits, b: specs::ContainerEdits)
    requires
        edits_view(a) == edits_view(b),
    ensures
        edits_check(a) == edits_check(b),
{
    assert(items(a.env) == items(b.env));
    assert(items(a.device_nodes) == items(b.device_nodes));
    let ha = items(a.hooks);
    let hb = items(b.hooks);
    lemma_hook_views(ha);
    lemma_hook_views(hb);
    assert(ha.len() == hb.len()) by {
        if a.hooks is Some {
            assert(hook_views(ha).len() == hook_views(hb).len());
        }
    }
    assert forall|i: int| 0 <= i < ha.len() implies hook_check(#[trigger] ha[i]) == hook_check(hb[i]) by {
        assert(hook_views(ha)[i] == hook_views(hb)[i]);
        assert(items(ha[i].env) == items(hb[i].env));
    }
    lemma_first_bad_hook_same(ha, hb, 0);
    let ma = items(a.mounts);
    let mb = items(b.mounts);
    lemma_mount_views(ma);
    lemma_mount_views(mb);
    assert(ma.len() == mb.len()) by {
        if a.mounts is Some {
            assert(mount_views(ma).len() == mount_views(mb).len());
        }
    }
    assert forall|i: int| 0 <= i < ma.len() implies mount_check(#[trigger] ma[i]) == mount_check(mb[i]) by {
        assert(mount_views(ma)[i] == mount_views(mb)[i]);
    }
    lemma_first_bad_mount_same(ma, mb, 0);
    assert(first_bad_hook(ha, 0) == first_bad_hook(hb, 0));
    assert(first_bad_mount(ma, 0) == first_bad_mount(mb, 0));
    if first_bad_hook(ha, 0) is Some {
        let i = first_bad_hook(ha, 0)->0;
        lemma_first_bad_hook_range(ha, 0);
        assert(hook_check(ha[i]) == hook_check(hb[i]));
    }
    if first_bad_mount(ma, 0) is Some {
        let i = first_bad_mount(ma, 0)->0;
        lemma_first_bad_mount_range(ma, 0);
        assert(mount_check(ma[i]) == mount_check(mb[i]));
    }
}

proof fn lemma_first_bad_hook_range(a: Seq<specs::Hook>, i: int)
    ensures
        first_bad_hook(a, i) is Some ==> 0 <= first_bad_hook(a, i)->0 < a.len(),
    decreases a.len() - i,
{
    if 0 <= i < a.len() {
        lemma_first_bad_hook_range(a, i + 1);
    }
}

proof fn lemma_first_bad_mount_range(a: Seq<specs::Mount>, i: int)
    ensures
        first_bad_mount(a, i) is Some ==> 0 <= first_bad_mount(a, i)->0 < a.len(),
    decreases a.len() - i,
{
    if 0 <= i < a.len() {
        lemma_first_bad_mount_range(a, i + 1);
    }
}

proof fn lemma_first_bad_hook_same(a: Seq<specs::Hook>, b: Seq<specs::Hook>, i: int)
    requires
        a.len() == b.len(),
        forall|k: int| 0 <= k < a.len() ==> hook_check(#[trigger] a[k]) == hook_check(b[k]),
    ensures
        first_bad_hook(a, i) == first_bad_hook(b, i),
    decreases a.len() - i,
{
    if 0 <= i < a.len() {
        lemma_first_bad_hook_same(a, b, i + 1);
    }
}

proof fn lemma_first_bad_mount_same(a: Seq<specs::Mount>, b: Seq<specs::Mount>, i: int)
    requires
        a.len() == b.len(),
        forall|k: int| 0 <= k < a.len() ==> mount_check(#[trigger] a[k]) == mount_check(b[k]),
    ensures
        first_bad_mount(a, i) == first_bad_mount(b, i),
    decreases a.len() - i,
{
    if 0 <= i < a.len() {
        lemma_first_bad_mount_same(a, b, i + 1);
    }
}

/// Edits to apply to a container: those of a device, or the global edits
/// of a specification file.
#[derive(Clone, Debug, Default)]
pub struct ContainerEdits {
    pub container_edits: specs::ContainerEdits,
}

impl ContainerEdits {
    pub open spec fn view(&self) -> EditsView {
        edits_view(self.container_edits)
    }

    /// No edits.
    pub fn new() -> (r: ContainerEdits)
        ensures
            r.view() == empty_view(),
    {
        ContainerEdits {
            container_edits: specs::ContainerEdits {
                env: None,
                device_nodes: None,
                hooks: None,
                mounts: None,
                intel_rdt: None,
                additional_gids: None,
            },
        }
    }

    /// Appends `o` to these edits (see `append_view`).
    pub fn append(&mut self, o: ContainerEdits)
        ensures
            final(self).view() == append_view(old(self).view(), o.view()),
    {
        let other = o.container_edits;
        let env = join_lists(self.container_edits.env.take(), other.env);
        let device_nodes = join_lists(self.container_edits.device_nodes.take(), other.device_nodes);
        let ghost old_hooks = self.container_edits.hooks;
        let ghost old_mounts = self.container_edits.mounts;
        let hooks = join_lists(self.container_edits.hooks.take(), other.hooks);
        let mounts = join_lists(self.container_edits.mounts.take(), other.mounts);
        proof {
            lemma_join_hooks(old_hooks, other.hooks, hooks);
            lemma_join_mounts(old_mounts, other.mounts, mounts);
            assert(hooks_view(hooks) == join_opt(hooks_view(old_hooks), hooks_view(other.hooks)));
            assert(mounts_view(mounts) == join_opt(mounts_view(old_mounts), mounts_view(other.mounts)));
        }
        let additional_gids = join_lists(
            self.container_edits.additional_gids.take(),
            other.additional_gids,
        );
        if other.intel_rdt.is_some() {
            self.container_edits.intel_rdt = other.intel_rdt;
        }
        self.container_edits.env = env;
        self.container_edits.device_nodes = device_nodes;
        self.container_edits.hooks = hooks;
        self.container_edits.mounts = mounts;
        self.container_edits.additional_gids = additional_gids;
    }
}

/// Something whose well-formedness can be checked.
pub trait Validate {
    /// The outcome of the check.
    spec fn validity(&self) -> Result<(), EditError>;

    /// Checks this value.
    fn validate(&self) -> (r: Result<(), EditError>)
        ensures
            r == self.validity(),
    ;
}

impl Validate for ContainerEdits {
    open spec fn validity(&self) -> Result<(), EditError> {
        edits_check(self.container_edits)
    }

    /// Checks every item of these edits (see `edits_check`).
    fn validate(&self) -> (r: Result<(), EditError>) {
        validate_edits(&self.container_edits)
    }
}

} // verus!
