use container_device_interface::parser;
use container_device_interface::parser::{NameError, ParseError};

#[test]
fn qualified_name() {
    let vendor = "nvidia.com";
    let class = "gpu";
    let name = "0";
    let device = parser::qualified_name(vendor, class, name);
    assert_eq!(device, "nvidia.com/gpu=0");
    assert!(parser::is_qualified_name(&device));
}

#[test]
fn parse_qualified_name() {
    let device = "nvidia.com/gpu=0";
    match parser::parse_qualified_name(device) {
        Ok((vendor, class, name)) => {
            assert_eq!(vendor, "nvidia.com");
            assert_eq!(class, "gpu");
            assert_eq!(name, "0");
        }
        Err(e) => {
            println!("error: {:?}", e);
        }
    }
}

#[test]
fn parse_device() {
    let device = "nvidia.com/gpu=0";
    let (vendor, class, name) = parser::parse_device(device);
    assert_eq!(vendor, "nvidia.com");
    assert_eq!(class, "gpu");
    assert_eq!(name, "0");
}

#[test]
fn parse_qualifier() {
    let qualifier = "nvidia.com/gpu";
    let (vendor, class) = parser::parse_qualifier(qualifier);
    assert_eq!(vendor, "nvidia.com");
    assert_eq!(class, "gpu");
}

#[test]
fn validate_vendor_name() {
    let vendor = "nvidia.com";
    assert!(parser::validate_vendor_name(vendor).is_ok());

    let vendor = "nvi((dia";
    assert!(parser::validate_vendor_name(vendor).is_err());
}

#[test]
fn validate_class_name() {
    let class = "gpu";
    assert!(parser::validate_class_name(class).is_ok());

    let class = "g(pu";
    assert!(parser::validate_class_name(class).is_err());
}

#[test]
fn validate_device_name() {
    let name = "0";
    assert!(parser::validate_device_name(name).is_ok());

    let name = "0(";
    assert!(parser::validate_device_name(name).is_err());
}

#[test]
fn validate_vendor_or_class_name() {
    let name = "nvidia.com";
    assert!(parser::validate_vendor_or_class_name(name).is_ok());

    let name = "nvi((dia.com";
    assert!(parser::validate_vendor_or_class_name(name).is_err());
}

#[test]
fn qualified_name_parses_to_its_parts() {
    let r = parser::parse_qualified_name("nvidia.com/gpu=0").unwrap();
    assert_eq!(r, ("nvidia.com".to_string(), "gpu".to_string(), "0".to_string()));
    assert!(parser::is_qualified_name("nvidia.com/gpu=0"));
}

#[test]
fn unqualified_name_is_an_error() {
    assert_eq!(parser::parse_qualified_name("badname"), Err(ParseError::MissingVendor));
    assert!(!parser::is_qualified_name("badname"));
    assert_eq!(parser::parse_device("badname"), ("", "", "badname"));
}

#[test]
fn round_trip_of_several_names() {
    for (v, c, n) in [("vendor.com", "class", "dev:0"), ("a", "b-c_d.e", "_x.y"), ("Z9", "q", "0")] {
        let q = parser::qualified_name(v, c, n);
        assert_eq!(
            parser::parse_qualified_name(&q).unwrap(),
            (v.to_string(), c.to_string(), n.to_string())
        );
    }
}

#[test]
fn parse_errors_name_the_part() {
    assert_eq!(parser::parse_qualified_name("vendor.com/class="), Err(ParseError::MissingName));
    assert_eq!(
        parser::parse_qualified_name("1vendor/class=dev"),
        Err(ParseError::InvalidVendor(NameError::NotStartingWithLetter))
    );
    assert_eq!(
        parser::parse_qualified_name("vendor/cl+ass=dev"),
        Err(ParseError::InvalidClass(NameError::InvalidChar('+')))
    );
    assert_eq!(
        parser::parse_qualified_name("vendor/class=de(v"),
        Err(ParseError::InvalidName(NameError::InvalidChar('(')))
    );
    assert_eq!(parser::parse_qualified_name("/class=dev"), Err(ParseError::MissingVendor));
    assert_eq!(parser::parse_qualified_name("a/b/c=dev"), Err(ParseError::MissingVendor));
}

#[test]
fn split_is_at_the_last_equals_sign() {
    assert_eq!(parser::parse_device("a=b/c=d"), ("a=b", "c", "d"));
    assert_eq!(
        parser::parse_qualified_name("a=b/c=d"),
        Err(ParseError::InvalidVendor(NameError::InvalidChar('=')))
    );
}

#[test]
fn qualifier_fallbacks() {
    assert_eq!(parser::parse_qualifier("nvidia.com"), ("", "nvidia.com"));
    assert_eq!(parser::parse_qualifier("a/b/c"), ("", "a/b/c"));
    assert_eq!(parser::parse_qualifier("/gpu"), ("", "/gpu"));
    assert_eq!(parser::parse_qualifier("vendor/"), ("", "vendor/"));
}

#[test]
fn name_rules() {
    assert_eq!(parser::validate_vendor_name(""), Err(NameError::Empty));
    assert_eq!(parser::validate_class_name("9gpu"), Err(NameError::NotStartingWithLetter));
    assert_eq!(parser::validate_device_name("9:a-b_c.d"), Ok(()));
    assert_eq!(parser::validate_device_name(""), Err(NameError::Empty));
    assert_eq!(parser::validate_vendor_or_class_name("ab:c"), Err(NameError::InvalidChar(':')));
}
