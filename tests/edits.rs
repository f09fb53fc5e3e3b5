use container_device_interface::container_edits::{
    merge, validate_edits, ContainerEdits, EditError, HookError, HookName, MountError, NodeError,
    Validate,
};
use container_device_interface::specs::{self, DeviceNode, Hook, IntelRdt, Mount};

#[test]
fn test_merge_none_none() {
    let mut v1: Option<Vec<i32>> = None;
    let v2: Option<Vec<i32>> = None;

    let result = merge(&mut v1, &v2);
    assert!(result.is_none());
}

#[test]
fn test_merge_some_none() {
    let mut v1 = Some(vec![1, 2, 3]);
    let v2: Option<Vec<i32>> = None;

    let result = merge(&mut v1, &v2);
    assert_eq!(result, Some(vec![1, 2, 3]));
}

#[test]
fn test_merge_none_some() {
    let mut v1: Option<Vec<i32>> = None;
    let v2 = Some(vec![4, 5, 6]);

    let result = merge(&mut v1, &v2);
    assert_eq!(result, Some(vec![4, 5, 6]));
}

#[test]
fn test_merge_some_some() {
    let mut v1 = Some(vec![1, 2, 3]);
    let v2 = Some(vec![4, 5, 6]);

    let result = merge(&mut v1, &v2);
    assert_eq!(result, Some(vec![1, 2, 3, 4, 5, 6]));
}

fn env_edits(env: &[&str]) -> ContainerEdits {
    ContainerEdits {
        container_edits: specs::ContainerEdits {
            env: Some(env.iter().map(|s| s.to_string()).collect()),
            ..Default::default()
        },
    }
}

#[test]
fn append_keeps_order_base_first() {
    let mut base = env_edits(&["A=1"]);
    base.append(env_edits(&["B=2"]));
    assert_eq!(base.container_edits.env, Some(vec!["A=1".to_string(), "B=2".to_string()]));
}

#[test]
fn append_of_absent_lists_stays_absent() {
    let mut base = ContainerEdits::new();
    base.append(ContainerEdits::new());
    assert!(base.container_edits.env.is_none());
    assert!(base.container_edits.additional_gids.is_none());
    base.append(env_edits(&["X=1"]));
    assert_eq!(base.container_edits.env, Some(vec!["X=1".to_string()]));
}

#[test]
fn append_intel_rdt_by_presence() {
    let rdt = |id: &str| IntelRdt { clos_id: Some(id.to_string()), ..Default::default() };
    let mut base = ContainerEdits::new();
    base.container_edits.intel_rdt = Some(rdt("one"));
    base.append(ContainerEdits::new());
    assert_eq!(base.container_edits.intel_rdt.as_ref().unwrap().clos_id.as_deref(), Some("one"));
    let mut other = ContainerEdits::new();
    other.container_edits.intel_rdt = Some(rdt("two"));
    base.append(other);
    assert_eq!(base.container_edits.intel_rdt.as_ref().unwrap().clos_id.as_deref(), Some("two"));
}

#[test]
fn validation_finds_the_first_bad_item() {
    let mut e = env_edits(&["A=1", "B"]);
    assert_eq!(e.validate(), Err(EditError::Env(1)));
    e.container_edits.env = None;
    e.container_edits.device_nodes = Some(vec![
        DeviceNode { path: "/dev/a".to_string(), ..Default::default() },
        DeviceNode { path: "".to_string(), ..Default::default() },
    ]);
    assert_eq!(e.validate(), Err(EditError::DeviceNode(1, NodeError::EmptyPath)));
    e.container_edits.device_nodes = Some(vec![DeviceNode {
        path: "/dev/a".to_string(),
        typ: Some("x".to_string()),
        ..Default::default()
    }]);
    assert_eq!(e.validate(), Err(EditError::DeviceNode(0, NodeError::InvalidType)));
    e.container_edits.device_nodes = Some(vec![DeviceNode {
        path: "/dev/a".to_string(),
        typ: Some("".to_string()),
        permissions: Some("rwx".to_string()),
        ..Default::default()
    }]);
    assert_eq!(e.validate(), Err(EditError::DeviceNode(0, NodeError::InvalidPermissions)));
    e.container_edits.device_nodes = None;
    e.container_edits.hooks = Some(vec![Hook { hook_name: "nope".to_string(), path: "/bin/x".to_string(), ..Default::default() }]);
    assert_eq!(e.validate(), Err(EditError::Hook(0, HookError::InvalidName)));
    e.container_edits.hooks = Some(vec![Hook {
        hook_name: "prestart".to_string(),
        path: "/bin/x".to_string(),
        env: Some(vec!["K=V".to_string(), "KV".to_string()]),
        ..Default::default()
    }]);
    assert_eq!(e.validate(), Err(EditError::Hook(0, HookError::InvalidEnv(1))));
    e.container_edits.hooks = Some(vec![Hook { hook_name: "poststop".to_string(), path: "".to_string(), ..Default::default() }]);
    assert_eq!(e.validate(), Err(EditError::Hook(0, HookError::EmptyPath)));
    e.container_edits.hooks = None;
    e.container_edits.mounts = Some(vec![Mount { host_path: "/h".to_string(), container_path: "".to_string(), ..Default::default() }]);
    assert_eq!(e.validate(), Err(EditError::Mount(0, MountError::EmptyContainerPath)));
    e.container_edits.mounts = Some(vec![Mount { host_path: "".to_string(), container_path: "/c".to_string(), ..Default::default() }]);
    assert_eq!(e.validate(), Err(EditError::Mount(0, MountError::EmptyHostPath)));
    e.container_edits.mounts = None;
    for bad in ["..", ".", "a/b", "a\nb"] {
        e.container_edits.intel_rdt = Some(IntelRdt { clos_id: Some(bad.to_string()), ..Default::default() });
        assert_eq!(validate_edits(&e.container_edits), Err(EditError::IntelRdt));
    }
    e.container_edits.intel_rdt = Some(IntelRdt { clos_id: Some("x".repeat(4096)), ..Default::default() });
    assert_eq!(e.validate(), Err(EditError::IntelRdt));
    e.container_edits.intel_rdt = Some(IntelRdt { clos_id: Some("x".repeat(4095)), ..Default::default() });
    assert_eq!(e.validate(), Ok(()));
}

#[test]
fn hook_names() {
    assert_eq!(HookName::parse("createRuntime"), Some(HookName::CreateRuntime));
    assert_eq!(HookName::parse("startContainer"), Some(HookName::StartContainer));
    assert_eq!(HookName::parse("PRESTART"), None);
}
