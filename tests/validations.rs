use container_device_interface::k8s::TOTAL_ANNOTATION_SIZE_LIMIT;
use container_device_interface::parser::ParseError;
use container_device_interface::validations::{validate_annotations, validate_spec_annotations, ValueFault};

fn pairs(items: &[(&str, &str)]) -> Vec<(String, String)> {
    items.iter().map(|(k, v)| (k.to_string(), v.to_string())).collect()
}

fn good() -> Vec<(String, String)> {
    pairs(&[
        ("cdi.k8s.io/vfio17", "nvidia.com/gpu=0"),
        ("cdi.k8s.io/vfio18", "nvidia.com/gpu=1"),
        ("cdi.k8s.io/vfio19", "nvidia.com/gpu=all"),
    ])
}

#[test]
fn validations_test_validate_annotations() {
    let annotations = good();
    assert!(validate_annotations(&annotations).is_ok());

    let long_value = "CDI".repeat(TOTAL_ANNOTATION_SIZE_LIMIT + 1);
    let large_annotations = vec![("CDIKEY".to_string(), long_value)];
    assert!(validate_annotations(&large_annotations).is_err());

    let invalid_annotations = pairs(&[("invalid_CDIKEY", "invalied_CDIVAL")]);
    assert!(validate_annotations(&invalid_annotations).is_err());
}

#[test]
fn validations_test_validate_spec_annotations() {
    let annotations = good();
    assert!(validate_spec_annotations("", &annotations).is_ok());
    assert!(validate_spec_annotations("CDITEST", &annotations).is_ok());

    let long_value = "CDI".repeat(TOTAL_ANNOTATION_SIZE_LIMIT + 1);
    let large_annotations = vec![("CDIKEY".to_string(), long_value)];
    assert!(validate_spec_annotations("", &large_annotations).is_err());

    let invalid_annotations = pairs(&[("invalid_CDIKEY", "invalied_CDIVAL")]);
    assert!(validate_spec_annotations("CDITEST", &invalid_annotations).is_err());
}

#[test]
fn value_faults_name_the_entry() {
    let (path, faults) = validate_spec_annotations("CDITEST", &pairs(&[("k", "nvidia.com/gpu=0"), ("k2", "bad")])).unwrap_err();
    assert_eq!(path, "CDITEST.annotations");
    assert_eq!(faults, vec![ValueFault::InvalidValue(1, ParseError::MissingVendor)]);
}
