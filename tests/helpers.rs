use container_device_interface::cache::ScannedFile;
use container_device_interface::format::{choose_format, indent};
use container_device_interface::registry::Registry;
use container_device_interface::spec_dirs::{default_spec_dirs, with_spec_dirs};
use container_device_interface::specs::{self, Device};

#[test]
fn format_is_chosen_from_the_extension() {
    assert_eq!(choose_format("", "/etc/cdi/a.json"), "json");
    assert_eq!(choose_format("", "/etc/cdi/a.yaml"), "yaml");
    assert_eq!(choose_format("", "/etc/cdi/a.YAML"), "");
    assert_eq!(choose_format("json", "/etc/cdi/a.yaml"), "json");
}

#[test]
fn indent_is_spaces() {
    assert_eq!(indent(0), "");
    assert_eq!(indent(3), "   ");
}

#[test]
fn spec_dirs_are_cleaned() {
    assert_eq!(default_spec_dirs(), vec!["/etc/cdi".to_string(), "/var/run/cdi".to_string()]);
    let dirs = with_spec_dirs(&vec!["/etc//cdi/".to_string(), "/var/run/../run/cdi".to_string()]);
    assert_eq!(dirs, vec!["/etc/cdi".to_string(), "/var/run/cdi".to_string()]);
}

#[test]
fn registry_lists_vendors_and_classes() {
    let spec = |kind: &str| specs::Spec {
        version: "0.3.0".to_string(),
        kind: kind.to_string(),
        devices: vec![Device { name: "dev".to_string(), ..Default::default() }],
        ..Default::default()
    };
    let mut registry = Registry::new(vec!["/etc/cdi".to_string()]);
    let scan = vec![
        ScannedFile { path: "/etc/cdi/b.yaml".to_string(), priority: 0, content: Ok(spec("vendor.com/net")) },
        ScannedFile { path: "/etc/cdi/a.yaml".to_string(), priority: 0, content: Ok(spec("vendor.com/gpu")) },
    ];
    assert_eq!(registry.refresh(scan), Ok(()));
    assert_eq!(registry.list_vendors(), vec!["vendor.com".to_string()]);
    assert_eq!(registry.list_classes(), vec!["gpu".to_string(), "net".to_string()]);
    assert_eq!(registry.list_devices(), vec!["vendor.com/gpu=dev".to_string(), "vendor.com/net=dev".to_string()]);
    assert_eq!(registry.get_spec_directories(), &vec!["/etc/cdi".to_string()]);
    assert!(registry.get_errors().is_empty());
}
