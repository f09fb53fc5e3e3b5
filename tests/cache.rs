use container_device_interface::cache::{find_target_devices, Cache, CacheError, InjectError, ScannedFile, WithAutoRefresh};
use container_device_interface::runtime::RuntimeConfig;
use container_device_interface::specs::{self, ContainerEdits, Device};

fn raw(kind: &str, devices: &[(&str, &str)], global: Option<&str>) -> specs::Spec {
    specs::Spec {
        version: "0.5.0".to_string(),
        kind: kind.to_string(),
        devices: devices
            .iter()
            .map(|(n, env)| Device {
                name: n.to_string(),
                container_edits: ContainerEdits { env: Some(vec![env.to_string()]), ..Default::default() },
                ..Default::default()
            })
            .collect(),
        container_edits: global.map(|g| ContainerEdits { env: Some(vec![g.to_string()]), ..Default::default() }),
        ..Default::default()
    }
}

fn file(path: &str, priority: usize, spec: specs::Spec) -> ScannedFile {
    ScannedFile { path: path.to_string(), priority, content: Ok(spec) }
}

fn gpu_scan(first_prio: usize, second_prio: usize) -> Vec<ScannedFile> {
    vec![
        file("/a/one.yaml", first_prio, raw("nvidia.com/gpu", &[("0", "FROM=one")], None)),
        file("/b/two.yaml", second_prio, raw("nvidia.com/gpu", &[("0", "FROM=two")], None)),
    ]
}

#[test]
fn test_find_target_devices() {
    let devices = vec!["device1".to_string(), "device2".to_string(), "device3".to_string()];
    let patterns = vec!["device2".to_string(), "device4".to_string()];

    let matches = find_target_devices(devices, patterns);

    println!("Matches: {:?}", matches);
    assert_eq!(matches, vec!["device2".to_string()]);
}

#[test]
fn equal_priority_conflict_drops_the_device() {
    let mut cache = Cache::new(vec![]);
    let r = cache.refresh(gpu_scan(0, 0));
    assert_eq!(r, Err(2));
    assert!(cache.get_device("nvidia.com/gpu=0").is_none());
    assert!(cache.list_devices().is_empty());
    assert!(cache
        .get_errors()
        .iter()
        .any(|(p, e)| p == "/a/one.yaml" && matches!(e, CacheError::Conflict { .. })));
    assert!(cache
        .get_errors()
        .iter()
        .any(|(p, e)| p == "/b/two.yaml" && matches!(e, CacheError::Conflict { .. })));
    assert!(cache.get_errors().iter().all(|(_, e)| match e {
        CacheError::Conflict { name, dev_path, old_path } => {
            name == "nvidia.com/gpu=0" && dev_path == "/b/two.yaml" && old_path == "/a/one.yaml"
        }
        _ => false,
    }));
}

#[test]
fn equal_priority_conflict_keeps_other_devices() {
    let scan = vec![
        file("/a/one.yaml", 0, raw("nvidia.com/gpu", &[("0", "A=1"), ("1", "B=1")], None)),
        file("/a/two.yaml", 0, raw("nvidia.com/gpu", &[("0", "C=1"), ("2", "D=1")], None)),
        file("/b/three.yaml", 1, raw("nvidia.com/gpu", &[("0", "E=1")], None)),
    ];
    let mut cache = Cache::new(vec![]);
    assert_eq!(cache.refresh(scan), Err(2));
    assert_eq!(cache.list_devices(), vec!["nvidia.com/gpu=1".to_string(), "nvidia.com/gpu=2".to_string()]);
}

#[test]
fn lower_priority_number_wins() {
    let one_first = gpu_scan(0, 1);
    let mut two_first = gpu_scan(1, 0);
    two_first.reverse();
    for (scan, winner, path) in [(one_first, "FROM=one", "/a/one.yaml"), (two_first, "FROM=two", "/b/two.yaml")] {
        let mut cache = Cache::new(vec![]);
        assert_eq!(cache.refresh(scan), Ok(()));
        let owner = cache.get_vendor_specs("nvidia.com").into_iter().find(|s| s.priority == 0).unwrap();
        assert_eq!(owner.get_path(), path);
        let dev = cache.get_device("nvidia.com/gpu=0").unwrap();
        assert_eq!(dev.cdi_device.container_edits.env, Some(vec![winner.to_string()]));
        assert_eq!(cache.list_devices(), vec!["nvidia.com/gpu=0".to_string()]);
    }
}

#[test]
fn refresh_twice_gives_the_same_index() {
    let scan = || {
        vec![
            file("/a/x.yaml", 0, raw("vendor.com/class", &[("b", "B=1"), ("a", "A=1")], None)),
            ScannedFile { path: "/a/z.yaml".to_string(), priority: 0, content: Err("unreadable".to_string()) },
            file("/b/y.yaml", 1, raw("other.com/class", &[("c", "C=1")], None)),
        ]
    };
    let mut cache = Cache::new(vec![]);
    assert_eq!(cache.refresh(scan()), Err(1));
    let first = cache.list_devices();
    assert_eq!(cache.refresh(scan()), Err(1));
    let second = cache.list_devices();
    assert_eq!(first, second);
    assert_eq!(
        first,
        vec!["other.com/class=c".to_string(), "vendor.com/class=a".to_string(), "vendor.com/class=b".to_string()]
    );
    assert_eq!(cache.list_vendors(), vec!["other.com".to_string(), "vendor.com".to_string()]);
    assert_eq!(cache.get_vendor_specs("vendor.com").len(), 1);
    assert!(cache.get_vendor_specs("nobody").is_empty());
}

#[test]
fn inject_with_unknown_name_changes_nothing() {
    let mut cache = Cache::new(vec![]);
    cache.refresh(vec![file("/a/g.yaml", 0, raw("nvidia.com/gpu", &[("0", "A=1")], None))]).unwrap();
    let mut target = RuntimeConfig { env: vec!["KEEP=1".to_string()], ..Default::default() };
    let r = cache.inject_devices(
        &mut target,
        vec!["nvidia.com/gpu=0".to_string(), "unknown/x=y".to_string()],
        &vec![],
    );
    match r {
        Err(InjectError::Unresolved(names)) => assert_eq!(names, vec!["unknown/x=y".to_string()]),
        other => panic!("unexpected {:?}", other),
    }
    assert_eq!(target.env, vec!["KEEP=1".to_string()]);
}

#[test]
fn inject_applies_global_edits_once_in_request_order() {
    let mut cache = Cache::new(vec![]);
    cache
        .refresh(vec![file("/a/g.yaml", 0, raw("nvidia.com/gpu", &[("0", "D0=1"), ("1", "D1=1")], Some("G=1")))])
        .unwrap();
    let mut target = RuntimeConfig::default();
    cache
        .inject_devices(&mut target, vec!["nvidia.com/gpu=1".to_string(), "nvidia.com/gpu=0".to_string()], &vec![])
        .unwrap();
    assert_eq!(target.env, vec!["G=1".to_string(), "D1=1".to_string(), "D0=1".to_string()]);
}

#[test]
fn configure_and_refresh_decision() {
    let mut cache = Cache::new(vec!["/etc/cdi".to_string()]);
    assert!(!cache.refresh_if_required(false));
    assert!(cache.refresh_if_required(true));
    cache.configure(WithAutoRefresh(true));
    assert!(cache.refresh_if_required(false));
}

#[test]
fn invalid_files_are_recorded_and_skipped() {
    let mut bad = raw("nvidia.com/gpu", &[("0", "A=1")], None);
    bad.version = "0.1.0".to_string();
    let mut cache = Cache::new(vec![]);
    let r = cache.refresh(vec![
        file("/a/bad.yaml", 0, bad),
        file("/a/good.yaml", 0, raw("other.com/net", &[("x", "B=1")], None)),
    ]);
    assert_eq!(r, Err(1));
    assert!(matches!(cache.get_errors()[0], (ref p, CacheError::Invalid(_)) if p == "/a/bad.yaml"));
    assert_eq!(cache.list_devices(), vec!["other.com/net=x".to_string()]);
}

#[test]
fn inject_reports_edits_that_cannot_be_applied() {
    let mut spec = raw("nvidia.com/gpu", &[("0", "A=1")], None);
    spec.devices[0].container_edits.device_nodes =
        Some(vec![specs::DeviceNode { path: "/dev/missing".to_string(), ..Default::default() }]);
    let mut cache = Cache::new(vec![]);
    cache.refresh(vec![file("/a/g.yaml", 0, spec)]).unwrap();
    let mut target = RuntimeConfig::default();
    let r = cache.inject_devices(&mut target, vec!["nvidia.com/gpu=0".to_string()], &vec![]);
    assert!(matches!(r, Err(InjectError::Apply(_))));
    assert!(target.env.is_empty());
}

#[test]
fn every_tie_is_recorded() {
    let scan = vec![
        file("/a/one.yaml", 0, raw("nvidia.com/gpu", &[("0", "A=1")], None)),
        file("/a/two.yaml", 0, raw("nvidia.com/gpu", &[("0", "B=1")], None)),
        file("/a/three.yaml", 0, raw("nvidia.com/gpu", &[("0", "C=1")], None)),
    ];
    let mut cache = Cache::new(vec![]);
    assert_eq!(cache.refresh(scan), Err(4));
    assert!(cache.get_errors().iter().any(|(p, _)| p == "/a/three.yaml"));
    assert!(cache.list_devices().is_empty());
}
