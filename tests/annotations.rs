use container_device_interface::annotations::{
    annotation_key, annotation_value, parse_annotations, update_annotations, AnnotationError,
    ANNOTATION_PREFIX,
};
use container_device_interface::parser::ParseError;

fn pairs(items: &[(&str, &str)]) -> Vec<(String, String)> {
    items.iter().map(|(k, v)| (k.to_string(), v.to_string())).collect()
}

#[test]
fn test_parse_annotations() {
    let cdi_devices = pairs(&[
        ("cdi.k8s.io/vfio17", "nvidia.com/gpu=0"),
        ("cdi.k8s.io/vfio18", "nvidia.com/gpu=1"),
        ("cdi.k8s.io/vfio19", "nvidia.com/gpu=all"),
        // one vendor, multiple devices
        (
            "vendor.class_device",
            "vendor.com/class=device1,vendor.com/class=device2,vendor.com/class=device3",
        ),
    ]);

    assert!(parse_annotations(&cdi_devices).is_ok());
    let (keys, devices) = parse_annotations(&cdi_devices).unwrap();
    assert_eq!(keys.len(), 3);
    assert_eq!(devices.len(), 3);
}

#[test]
fn test_annotation_value() {
    let devices = vec!["nvidia.com/gpu=0".to_string(), "nvidia.com/gpu=1".to_string()];

    assert!(annotation_value(devices.clone()).is_ok());
    assert_eq!(
        annotation_value(devices.clone()).unwrap(),
        "nvidia.com/gpu=0,nvidia.com/gpu=1"
    );
}

#[test]
fn test_annotation_key() {
    struct TestCase {
        plugin_name: String,
        device_id: String,
        key_result: String,
    }

    let test_cases = vec![
        // valid, with special characters
        TestCase {
            plugin_name: "v-e.n_d.or.cl-as_s".to_owned(),
            device_id: "d_e-v-i-c_e".to_owned(),
            key_result: format!("{}{}_{}", ANNOTATION_PREFIX, "v-e.n_d.or.cl-as_s", "d_e-v-i-c_e"),
        },
        // valid, with /'s replaced in devID
        TestCase {
            plugin_name: "v-e.n_d.or.cl-as_s".to_owned(),
            device_id: "d-e/v/i/c-e".to_owned(),
            key_result: format!("{}{}_{}", ANNOTATION_PREFIX, "v-e.n_d.or.cl-as_s", "d-e_v_i_c-e"),
        },
        // valid, simple
        TestCase {
            plugin_name: "vendor.class".to_owned(),
            device_id: "device".to_owned(),
            key_result: format!("{}{}_{}", ANNOTATION_PREFIX, "vendor.class", "device"),
        },
    ];

    for case in test_cases {
        let plugin_name = &case.plugin_name;
        let device_id = &case.device_id;
        assert!(annotation_key(plugin_name, device_id).is_ok());
        assert_eq!(annotation_key(plugin_name, device_id).unwrap(), case.key_result.clone());
    }

    let test_cases_err = vec![
        // invalid, non-alphanumeric first character
        TestCase {
            plugin_name: "_vendor.class".to_owned(),
            device_id: "device".to_owned(),
            key_result: "".to_owned(),
        },
        // invalid, non-alphanumeric last character
        TestCase {
            plugin_name: "vendor.class".to_owned(),
            device_id: "device_".to_owned(),
            key_result: "".to_owned(),
        },
        // invalid, plugin contains invalid characters
        TestCase {
            plugin_name: "ven.dor-cl+ass".to_owned(),
            device_id: "d_e-v-i-c_e".to_owned(),
            key_result: "".to_owned(),
        },
        // invalid, devID contains invalid characters
        TestCase {
            plugin_name: "vendor.class".to_owned(),
            device_id: "dev+ice".to_owned(),
            key_result: "".to_owned(),
        },
        // invalid, too plugin long
        TestCase {
            plugin_name: "123456789012345678901234567890123456789012345678901234567".to_owned(),
            device_id: "device".to_owned(),
            key_result: "".to_owned(),
        },
    ];

    for case in test_cases_err {
        let plugin_name = &case.plugin_name;
        let device_id = &case.device_id;
        assert!(annotation_key(plugin_name, device_id).is_err());
        assert!(case.key_result.is_empty());
    }
}

#[test]
fn annotation_key_examples() {
    assert_eq!(annotation_key("vendor.class", "device").unwrap(), "cdi.k8s.io/vendor.class_device");
    assert_eq!(
        annotation_key("vendor.class", "d-e/v/i/c-e").unwrap(),
        "cdi.k8s.io/vendor.class_d-e_v_i_c-e"
    );
}

#[test]
fn annotation_key_errors() {
    assert_eq!(annotation_key("", "device"), Err(AnnotationError::EmptyPluginName));
    assert_eq!(annotation_key("vendor", ""), Err(AnnotationError::EmptyDeviceId));
    assert_eq!(annotation_key("_vendor", "device"), Err(AnnotationError::NameBadFirst));
    assert_eq!(annotation_key("vendor", "device_"), Err(AnnotationError::NameBadLast));
    assert_eq!(annotation_key("ven+dor", "device"), Err(AnnotationError::NameBadChar));
    let long = "a".repeat(63);
    assert_eq!(annotation_key(&long, "b"), Err(AnnotationError::NameTooLong));
    // 61 + 1 + 1 characters is the longest name.
    let edge = "a".repeat(61);
    assert_eq!(annotation_key(&edge, "b").unwrap(), format!("cdi.k8s.io/{}_b", edge));
}

#[test]
fn annotation_value_refuses_unqualified_names() {
    let r = annotation_value(vec!["nvidia.com/gpu=0".to_string(), "gpu0".to_string()]);
    assert_eq!(r, Err(AnnotationError::InvalidDevice(ParseError::MissingVendor)));
    assert_eq!(annotation_value(vec![]).unwrap(), "");
}

#[test]
fn parse_annotations_refuses_unqualified_devices() {
    let a = pairs(&[("cdi.k8s.io/x", "nvidia.com/gpu=0,bad")]);
    assert!(parse_annotations(&a).is_err());
    let ok = pairs(&[("cdi.k8s.io/x", "nvidia.com/gpu=0,nvidia.com/gpu=1"), ("other", "bad")]);
    let (keys, devices) = parse_annotations(&ok).unwrap();
    assert_eq!(keys, vec!["cdi.k8s.io/x".to_string()]);
    assert_eq!(devices, vec!["nvidia.com/gpu=0".to_string(), "nvidia.com/gpu=1".to_string()]);
}

#[test]
fn update_annotations_adds_one_request() {
    let r = update_annotations(None, "vendor.class", "device", vec!["vendor.com/class=dev".to_string()]).unwrap();
    assert_eq!(r, pairs(&[("cdi.k8s.io/vendor.class_device", "vendor.com/class=dev")]));
    let again = update_annotations(Some(r), "vendor.class", "device", vec!["vendor.com/class=dev".to_string()]);
    assert_eq!(again, Err(AnnotationError::KeyCollision));
}
