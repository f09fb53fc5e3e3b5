use container_device_interface::spec::{is_cdi_spec, new_spec, validate_version, SpecError};
use container_device_interface::specs::{self, ContainerEdits, Device, IntelRdt, Mount};
use container_device_interface::version::{minimum_required_version, VersionMap, VersionWrapper};

fn raw(version: &str, kind: &str, names: &[&str]) -> specs::Spec {
    specs::Spec {
        version: version.to_string(),
        kind: kind.to_string(),
        devices: names
            .iter()
            .map(|n| Device { name: n.to_string(), ..Default::default() })
            .collect(),
        ..Default::default()
    }
}

#[test]
fn plain_spec_accepts_v030_and_refuses_v020() {
    assert!(validate_version(&raw("v0.3.0", "vendor.com/class", &["dev"])).is_ok());
    assert!(matches!(
        validate_version(&raw("v0.2.0", "vendor.com/class", &["dev"])),
        Err(SpecError::VersionTooLow)
    ));
}

#[test]
fn intel_rdt_needs_v070() {
    let mut s = raw("v0.6.0", "vendor.com/class", &["dev"]);
    s.container_edits = Some(ContainerEdits {
        intel_rdt: Some(IntelRdt { clos_id: Some("c".to_string()), ..Default::default() }),
        ..Default::default()
    });
    assert_eq!(minimum_required_version(&s).0, "v0.7.0");
    assert!(matches!(validate_version(&s), Err(SpecError::VersionTooLow)));
    s.version = "v0.7.0".to_string();
    assert!(validate_version(&s).is_ok());
}

#[test]
fn required_versions_follow_features() {
    let s = raw("0.3.0", "vendor.com/class", &["dev"]);
    assert_eq!(minimum_required_version(&s).0, "v0.3.0");
    let mut m = raw("0.3.0", "vendor.com/class", &["dev"]);
    m.devices[0].container_edits.mounts = Some(vec![Mount {
        host_path: "/h".to_string(),
        container_path: "/c".to_string(),
        typ: Some("tmpfs".to_string()),
        ..Default::default()
    }]);
    assert_eq!(minimum_required_version(&m).0, "v0.4.0");
    assert_eq!(minimum_required_version(&raw("0.3.0", "vendor.com/class", &["0"])).0, "v0.5.0");
    assert_eq!(minimum_required_version(&raw("0.3.0", "vendor.com/cl.ass", &["dev"])).0, "v0.6.0");
    let mut g = raw("0.3.0", "vendor.com/class", &["dev"]);
    g.devices[0].container_edits.additional_gids = Some(vec![5]);
    assert_eq!(minimum_required_version(&g).0, "v0.7.0");
}

#[test]
fn known_versions() {
    let map = VersionMap::valid_spec_versions();
    assert!(map.is_valid_version("0.1.0"));
    assert!(map.is_valid_version("v0.7.0"));
    assert!(map.is_valid_version("vv0.5.0"));
    assert!(!map.is_valid_version("0.8.0"));
    assert!(!map.is_valid_version("1.0"));
    assert!(matches!(
        validate_version(&raw("0.8.0", "vendor.com/class", &["dev"])),
        Err(SpecError::InvalidVersion)
    ));
    assert_eq!(VersionWrapper::new("vv1.2.3").0, "v1.2.3");
    assert!(VersionWrapper::new("0.10.0").is_greater_than(&VersionWrapper::new("0.9.0")));
    assert!(!VersionWrapper::new("0.3.0").is_greater_than(&VersionWrapper::new("0.3.0")));
}

#[test]
fn new_spec_validates_and_records() {
    let s = new_spec(raw("0.5.0", "nvidia.com/gpu", &["0", "1"]), "/etc/cdi/./nvidia.json", 1).unwrap();
    assert_eq!(s.get_vendor(), "nvidia.com");
    assert_eq!(s.get_class(), "gpu");
    assert_eq!(s.get_path(), "/etc/cdi/nvidia.json");
    assert_eq!(s.get_priority(), 1);
    assert_eq!(s.devices.len(), 2);
    assert_eq!(s.devices[1].get_qualified_name(), "nvidia.com/gpu=1");
    assert!(s.get_device("1").is_some());
    assert!(s.get_device("2").is_none());
    let other = new_spec(raw("0.5.0", "nvidia.com/gpu", &["0"]), "/etc/cdi//vendor.conf", 0).unwrap();
    assert_eq!(other.get_path(), "/etc/cdi/vendor.yaml");
}

#[test]
fn new_spec_refuses_bad_files() {
    assert!(matches!(
        new_spec(raw("0.5.0", "nvidia.com/gpu", &["0", "0"]), "a.yaml", 0),
        Err(SpecError::DuplicateDevice(1))
    ));
    assert!(matches!(new_spec(raw("0.5.0", "gpu", &["0"]), "a.yaml", 0), Err(SpecError::Vendor(_))));
    assert!(matches!(new_spec(raw("0.5.0", "nvidia.com/g+pu", &["0"]), "a.yaml", 0), Err(SpecError::Class(_))));
    assert!(matches!(new_spec(raw("0.5.0", "nvidia.com/gpu", &["b@d"]), "a.yaml", 0), Err(SpecError::Device(0, _))));
    let mut bad_edits = raw("0.5.0", "nvidia.com/gpu", &["0"]);
    bad_edits.container_edits = Some(ContainerEdits { env: Some(vec!["NOEQ".to_string()]), ..Default::default() });
    assert!(matches!(new_spec(bad_edits, "a.yaml", 0), Err(SpecError::Edits(_))));
    let mut bad_notes = raw("0.6.0", "nvidia.com/gpu", &["0"]);
    bad_notes.annotations = vec![("b@d".to_string(), "x".to_string())];
    assert!(matches!(new_spec(bad_notes, "a.yaml", 0), Err(SpecError::Annotations(_))));
}

#[test]
fn spec_file_extensions() {
    assert!(is_cdi_spec("/etc/cdi/a.json"));
    assert!(is_cdi_spec("/etc/cdi/a.YAML"));
    assert!(!is_cdi_spec("/etc/cdi/a.yml"));
    assert!(!is_cdi_spec("/etc/cdi/json"));
}
