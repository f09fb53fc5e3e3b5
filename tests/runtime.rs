use container_device_interface::parser;
use container_device_interface::container_edits::ContainerEdits;
use container_device_interface::runtime::{
    device_info_from_raw, ApplyError, DeviceNode, DeviceType, HostDevice, HostProbe, RuntimeConfig, RuntimeMount,
};
use container_device_interface::specs::{self, Hook, IntelRdt, Mount};

#[test]
fn test_fill_missing_info_block_device() {
    let block_device_path = "/tmp/block_device".to_string();
    let host = device_info_from_raw(DeviceType::Block, 0x0101);

    let mut dev_node = DeviceNode {
        node: specs::DeviceNode { path: block_device_path, ..Default::default() },
    };

    assert!(dev_node.fill_missing_info(Some(host)).is_ok());

    assert_eq!(dev_node.node.typ, Some(DeviceType::Block.as_str().to_string()));
    assert_eq!(dev_node.node.major, Some(1));
    assert_eq!(dev_node.node.minor, Some(1));
}

#[test]
fn test_fill_missing_info_char_device() {
    let char_device_path = "/tmp/char_device".to_string();
    // A character device with major 1 and minor 2.
    let host = device_info_from_raw(DeviceType::Char, 0x0102);

    let mut dev_node = DeviceNode {
        node: specs::DeviceNode { path: char_device_path, ..Default::default() },
    };

    assert!(dev_node.fill_missing_info(Some(host)).is_ok());

    assert_eq!(dev_node.node.typ, Some(DeviceType::Char.as_str().to_string()));
    assert_eq!(dev_node.node.major, Some(1));
    assert_eq!(dev_node.node.minor, Some(2));
}

#[test]
fn test_fill_missing_info_fifo() {
    let fifo_device_path = "/tmp/fifo_device".to_string();
    let host = device_info_from_raw(DeviceType::Fifo, 0x0);

    let mut dev_node = DeviceNode {
        node: specs::DeviceNode { path: fifo_device_path, ..Default::default() },
    };

    dev_node.fill_missing_info(Some(host)).unwrap();

    assert_eq!(dev_node.node.typ, Some(DeviceType::Fifo.as_str().to_string()));
    assert_eq!(dev_node.node.major, None);
    assert_eq!(dev_node.node.minor, None);
}

#[test]
fn fill_missing_info_without_a_device_fails() {
    let mut dev_node = DeviceNode { node: specs::DeviceNode { path: "/tmp/file".to_string(), ..Default::default() } };
    assert_eq!(dev_node.fill_missing_info(None), Err(ApplyError::NotADevice(0)));
    let mut typed = DeviceNode {
        node: specs::DeviceNode { path: "/dev/x".to_string(), typ: Some("b".to_string()), ..Default::default() },
    };
    let host = HostDevice { typ: DeviceType::Char, major: 4, minor: 5 };
    assert_eq!(typed.fill_missing_info(Some(host)), Err(ApplyError::TypeMismatch(0)));
    assert_eq!(typed.node.major, None);
}

#[test]
fn unicode_names_follow_char_classes() {
    assert!(parser::validate_vendor_or_class_name("é").is_ok());
    assert!(parser::validate_device_name("é").is_ok());
    assert!(parser::is_qualified_name("vendör.com/clåss=dév"));
}

#[test]
fn raw_device_numbers() {
    let d = device_info_from_raw(DeviceType::Char, 0x1_2345);
    assert_eq!((d.major, d.minor), (0x23, 0x45));
}

fn edits() -> ContainerEdits {
    ContainerEdits {
        container_edits: specs::ContainerEdits {
            env: Some(vec!["A=2".to_string(), "B=1".to_string()]),
            device_nodes: Some(vec![specs::DeviceNode {
                path: "/dev/gpu0".to_string(),
                host_path: Some("/host/gpu0".to_string()),
                ..Default::default()
            }]),
            hooks: Some(vec![Hook { hook_name: "createContainer".to_string(), path: "/bin/hook".to_string(), ..Default::default() }]),
            mounts: Some(vec![Mount { host_path: "/h".to_string(), container_path: "/data".to_string(), ..Default::default() }]),
            intel_rdt: Some(IntelRdt { clos_id: Some("clos".to_string()), ..Default::default() }),
            additional_gids: Some(vec![0, 7, 7]),
        },
    }
}

#[test]
fn apply_changes_every_part() {
    let mut target = RuntimeConfig {
        env: vec!["A=1".to_string(), "C=3".to_string()],
        additional_gids: vec![3],
        mounts: vec![RuntimeMount { destination: "/data".to_string(), source: None, typ: None, options: None }],
        ..Default::default()
    };
    let probes = vec![HostProbe {
        path: "/host/gpu0".to_string(),
        device: Some(HostDevice { typ: DeviceType::Char, major: 195, minor: 0 }),
    }];
    edits().apply(&mut target, &probes).unwrap();
    assert_eq!(target.env, vec!["A=2".to_string(), "C=3".to_string(), "B=1".to_string()]);
    assert_eq!(target.devices.len(), 1);
    assert_eq!(target.devices[0].path, "/dev/gpu0");
    assert_eq!(target.devices[0].typ, "c");
    assert_eq!((target.devices[0].major, target.devices[0].minor), (195, 0));
    assert_eq!(target.device_rules.len(), 1);
    assert_eq!(target.device_rules[0].access.as_deref(), Some("rwm"));
    assert_eq!(target.mounts.len(), 1);
    assert_eq!(target.mounts[0].source.as_deref(), Some("/h"));
    assert_eq!(target.create_container.len(), 1);
    assert!(target.prestart.is_empty());
    assert_eq!(target.clos_id.as_deref(), Some("clos"));
    assert_eq!(target.additional_gids, vec![3, 7]);
}

#[test]
fn apply_fails_without_host_device_and_changes_nothing() {
    let mut target = RuntimeConfig { env: vec!["A=1".to_string()], ..Default::default() };
    assert_eq!(edits().apply(&mut target, &vec![]), Err(ApplyError::NotADevice(0)));
    assert_eq!(target.env, vec!["A=1".to_string()]);
    assert!(target.devices.is_empty());
}

#[test]
fn apply_refuses_unknown_hook_names() {
    let e = ContainerEdits {
        container_edits: specs::ContainerEdits {
            env: Some(vec!["A=1".to_string()]),
            hooks: Some(vec![Hook { hook_name: "later".to_string(), path: "/bin/x".to_string(), ..Default::default() }]),
            ..Default::default()
        },
    };
    let mut target = RuntimeConfig::default();
    assert_eq!(e.apply(&mut target, &vec![]), Err(ApplyError::UnknownHook(0)));
    assert!(target.env.is_empty());
}
