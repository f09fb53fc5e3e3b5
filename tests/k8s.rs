use container_device_interface::k8s::{
    is_qualified_name, validate_annotations, validate_spec_annotations, AnnotationFault, NameFault,
    TOTAL_ANNOTATION_SIZE_LIMIT,
};

fn pairs(items: &[(&str, &str)]) -> Vec<(String, String)> {
    items.iter().map(|(k, v)| (k.to_string(), v.to_string())).collect()
}

fn good() -> Vec<(String, String)> {
    pairs(&[
        ("cdi.k8s.io/vfio17", "nvidia.com/gpu=0"),
        ("cdi.k8s.io/vfio18", "nvidia.com/gpu=1"),
        ("cdi.k8s.io/vfio19", "nvidia.com/gpu=all"),
    ])
}

#[test]
fn objectmeta_test_validate_annotations() {
    let annotations = good();
    let path = "test.annotations";

    assert!(validate_annotations(&annotations, path).is_ok());

    let long_value = "CDI".repeat(TOTAL_ANNOTATION_SIZE_LIMIT + 1);
    let large_annotations = vec![("CDIKEY".to_string(), long_value)];
    assert!(validate_annotations(&large_annotations, path).is_err());

    let invalid_annotations = pairs(&[("inv$$alid_CDIKEY", "inv$$alid_CDIVAL")]);
    assert!(validate_annotations(&invalid_annotations, path).is_err());
}

#[test]
fn objectmeta_test_validate_spec_annotations() {
    let annotations = good();

    assert!(validate_spec_annotations("", &annotations).is_ok());
    assert!(validate_spec_annotations("CDITEST", &annotations).is_ok());

    let long_value = "CDI".repeat(TOTAL_ANNOTATION_SIZE_LIMIT + 1);
    let large_annotations = vec![("CDIKEY".to_string(), long_value)];
    assert!(validate_spec_annotations("", &large_annotations).is_err());

    let invalid_annotations = pairs(&[("inva$$lid_CDIKEY", "inval$$id_CDIVAL")]);
    assert!(validate_spec_annotations("CDITEST", &invalid_annotations).is_err());
}

#[test]
fn annotation_faults_are_listed() {
    let e = validate_spec_annotations("dev", &pairs(&[("ok", "v"), ("b@d", "v")])).unwrap_err();
    assert_eq!(e.path, "dev.annotations");
    assert_eq!(e.faults, vec![AnnotationFault::InvalidKey(1, NameFault::InvalidName)]);
    let e = validate_spec_annotations("", &pairs(&[("", "v")])).unwrap_err();
    assert_eq!(e.path, "annotations");
    assert_eq!(
        e.faults,
        vec![
            AnnotationFault::InvalidKey(0, NameFault::EmptyName),
            AnnotationFault::InvalidKey(0, NameFault::InvalidName)
        ]
    );
}

#[test]
fn keys_are_checked_lower_cased() {
    assert!(validate_annotations(&pairs(&[("CDI.K8S.IO/VFIO", "x")]), "p").is_ok());
}

#[test]
fn qualified_name_faults() {
    assert!(is_qualified_name("example.com/MyName").is_empty());
    assert!(is_qualified_name("my.name").is_empty());
    assert_eq!(is_qualified_name("a/b/c"), vec![NameFault::TooManyParts]);
    assert_eq!(is_qualified_name("/name"), vec![NameFault::EmptyPrefix]);
    assert_eq!(is_qualified_name("Example.com/name"), vec![NameFault::InvalidPrefix]);
    assert_eq!(is_qualified_name("a..b/name"), vec![NameFault::InvalidPrefix]);
    assert_eq!(is_qualified_name("prefix/"), vec![NameFault::EmptyName, NameFault::InvalidName]);
    let long = "a".repeat(64);
    assert_eq!(is_qualified_name(&long), vec![NameFault::NameTooLong]);
    assert_eq!(is_qualified_name("-a"), vec![NameFault::InvalidName]);
}

#[test]
fn size_limit_is_inclusive() {
    let at_limit = vec![("k".to_string(), "v".repeat(TOTAL_ANNOTATION_SIZE_LIMIT - 1))];
    assert!(validate_annotations(&at_limit, "p").is_ok());
    let over = vec![("k".to_string(), "v".repeat(TOTAL_ANNOTATION_SIZE_LIMIT))];
    assert_eq!(validate_annotations(&over, "p").unwrap_err().faults, vec![AnnotationFault::TooLarge]);
}
