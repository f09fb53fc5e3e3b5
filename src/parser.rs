//! Qualified device names of the form `vendor/class=name`.
use vstd::prelude::*;
use crate::chars::{
    alphabetic, alphanumeric, count_char, is_alphabetic_char, is_alphanumeric_char, lacks, last_pos, lemma_count_concat,
    lemma_last_pos_bounds, lemma_last_pos_none, lemma_last_pos_split, scan_char, text_chars,
};

verus! {

/// Why a vendor, class or device name is not well formed.
#[derive(Clone, Copy, Debug, PartialEq, Eq, Structural)]
pub enum NameError {
    Empty,
    NotStartingWithLetter,
    InvalidChar(char),
}

/// Why a text is not a qualified device name.
#[derive(Clone, Copy, Debug, PartialEq, Eq, Structural)]
pub enum ParseError {
    MissingVendor,
    MissingClass,
    MissingName,
    InvalidVendor(NameError),
    InvalidClass(NameError),
    InvalidName(NameError),
}

/// A character allowed in a vendor or class name.
pub open spec fn vendor_char(c: char) -> bool {
    alphanumeric(c) || c == '-' || c == '_' || c == '.'
}

/// A character allowed in a device name.
pub open spec fn device_char(c: char) -> bool {
    vendor_char(c) || c == ':'
}

pub open spec fn name_char(c: char, device: bool) -> bool {
    if device {
        device_char(c)
    } else {
        vendor_char(c)
    }
}

/// The first character of `s` that the class of names rejects.
pub open spec fn first_bad(s: Seq<char>, device: bool) -> Option<char>
    decreases s.len(),
{
    if s.len() == 0 {
        None
    } else if !name_char(s[0], device) {
        Some(s[0])
    } else {
        first_bad(s.drop_first(), device)
    }
}

pub open spec fn vendor_or_class_check(s: Seq<char>) -> Result<(), NameError> {
    if s.len() == 0 {
        Err(NameError::Empty)
    } else if !alphabetic(s[0]) {
        Err(NameError::NotStartingWithLetter)
    } else {
        match first_bad(s, false) {
            Some(c) => Err(NameError::InvalidChar(c)),
            None => Ok(()),
        }
    }
}

pub open spec fn device_name_check(s: Seq<char>) -> Result<(), NameError> {
    if s.len() == 0 {
        Err(NameError::Empty)
    } else {
        match first_bad(s, true) {
            Some(c) => Err(NameError::InvalidChar(c)),
            None => Ok(()),
        }
    }
}

/// A vendor or class name: an alphabetic character, then alphanumeric
/// characters, `-`, `_` or `.`.
pub open spec fn valid_vendor_or_class(s: Seq<char>) -> bool {
    &&& s.len() > 0
    &&& alphabetic(s[0])
    &&& forall|i: int| 0 <= i < s.len() ==> vendor_char(#[trigger] s[i])
}

/// A device name: alphanumeric characters, `-`, `_`, `.` or `:`, at least one.
pub open spec fn valid_device_name(s: Seq<char>) -> bool {
    &&& s.len() > 0
    &&& forall|i: int| 0 <= i < s.len() ==> device_char(#[trigger] s[i])
}

/// `vendor/class=name`.
pub open spec fn qualified(vendor: Seq<char>, class: Seq<char>, name: Seq<char>) -> Seq<char> {
    vendor + seq!['/'] + class + seq!['='] + name
}

/// Splits `vendor/class` at its one `/`; anything else yields an empty
/// vendor and the whole text as class.
pub open spec fn qualifier_parts(kind: Seq<char>) -> (Seq<char>, Seq<char>) {
    let i = last_pos(kind, '/');
    if count_char(kind, '/') == 1 && 0 < i && i < kind.len() - 1 {
        (kind.subrange(0, i), kind.subrange(i + 1, kind.len() as int))
    } else {
        (Seq::empty(), kind)
    }
}

/// Splits a device name at its last `=`; an unqualified name yields an empty
/// vendor and class and the whole text as name.
pub open spec fn device_parts(device: Seq<char>) -> (Seq<char>, Seq<char>, Seq<char>) {
    let e = last_pos(device, '=');
    if e < 0 {
        (Seq::empty(), Seq::empty(), device)
    } else {
        let (v, c) = qualifier_parts(device.subrange(0, e));
        if v.len() == 0 {
            (Seq::empty(), Seq::empty(), device)
        } else {
            (v, c, device.subrange(e + 1, device.len() as int))
        }
    }
}

/// The outcome of parsing a qualified device name.
pub open spec fn parse_spec(device: Seq<char>) -> Result<(Seq<char>, Seq<char>, Seq<char>), ParseError> {
    let (v, c, n) = device_parts(device);
    if v.len() == 0 {
        Err(ParseError::MissingVendor)
    } else if c.len() == 0 {
        Err(ParseError::MissingClass)
    } else if n.len() == 0 {
        Err(ParseError::MissingName)
    } else if vendor_or_class_check(v) is Err {
        Err(ParseError::InvalidVendor(vendor_or_class_check(v)->Err_0))
    } else if vendor_or_class_check(c) is Err {
        Err(ParseError::InvalidClass(vendor_or_class_check(c)->Err_0))
    } else if device_name_check(n) is Err {
        Err(ParseError::InvalidName(device_name_check(n)->Err_0))
    } else {
        Ok((v, c, n))
    }
}

pub proof fn lemma_first_bad_none(s: Seq<char>, device: bool)
    ensures
        first_bad(s, device) is None <==> forall|i: int|
            0 <= i < s.len() ==> name_char(#[trigger] s[i], device),
        first_bad(s, device) is Some ==> !name_char(first_bad(s, device)->0, device),
    decreases s.len(),
{
    if s.len() > 0 {
        lemma_first_bad_none(s.drop_first(), device);
        if name_char(s[0], device) {
            assert forall|i: int| 0 <= i < s.len() && i != 0 implies s[i] == s.drop_first()[i - 1] by {}
            if forall|i: int| 0 <= i < s.drop_first().len() ==> name_char(#[trigger] s.drop_first()[i], device) {
                assert forall|i: int| 0 <= i < s.len() implies name_char(#[trigger] s[i], device) by {
                    if i > 0 {
                        assert(s[i] == s.drop_first()[i - 1]);
                    }
                }
            } else {
                let j = choose|j: int| 0 <= j < s.drop_first().len() && !name_char(#[trigger] s.drop_first()[j], device);
                assert(!name_char(s[j + 1], device));
            }
        }
    }
}

pub proof fn lemma_valid_names(s: Seq<char>)
    ensures
        valid_vendor_or_class(s) <==> vendor_or_class_check(s) is Ok,
        valid_device_name(s) <==> device_name_check(s) is Ok,
{
    lemma_first_bad_none(s, false);
    lemma_first_bad_none(s, true);
}

fn first_bad_exec(s: &str, device: bool) -> (r: Option<char>)
    ensures
        r == first_bad(s@, device),
{
    let chars = text_chars(s);
    let n = chars.len();
    let mut i: usize = 0;
    assert(s@.subrange(0, n as int) =~= s@);
    while i < n
        invariant
            n == s@.len(),
            chars@ == s@,
            0 <= i <= n,
            first_bad(s@, device) == first_bad(s@.subrange(i as int, n as int), device),
        decreases n - i,
    {
        let c = chars[i];
        let ok = if device {
            is_alphanumeric_char(c) || c == '-' || c == '_' || c == '.' || c == ':'
        } else {
            is_alphanumeric_char(c) || c == '-' || c == '_' || c == '.'
        };
        proof {
            let t = s@.subrange(i as int, n as int);
            assert(t[0] == c);
            assert(t.drop_first() =~= s@.subrange(i + 1, n as int));
        }
        if !ok {
            return Some(c);
        }
        i = i + 1;
    }
    None
}

/// Builds `vendor/class=name`; the parts are not checked.
pub fn qualified_name(vendor: &str, class: &str, name: &str) -> (r: String)
    ensures
        r@ == qualified(vendor@, class@, name@),
{
    let mut r = String::from_str(vendor);
    r.append("/");
    r.append(class);
    r.append("=");
    r.append(name);
    proof {
        reveal_strlit("/");
        reveal_strlit("=");
    }
    r
}

/// Splits a device kind `vendor/class` into its two parts. When `kind` holds
/// no `/`, more than one, or an empty side, the vendor is empty and the class
/// is the whole text.
pub fn parse_qualifier(kind: &str) -> (r: (&str, &str))
    ensures
        (r.0@, r.1@) == qualifier_parts(kind@),
{
    proof {
        reveal_strlit("");
        assert(""@ =~= Seq::<char>::empty());
    }
    let n = kind.unicode_len();
    let (last, count) = scan_char(kind, '/');
    match last {
        Some(i) => {
            if count == 1 && 0 < i && i < n - 1 {
                (kind.substring_char(0, i), kind.substring_char(i + 1, n))
            } else {
                ("", kind)
            }
        },
        None => ("", kind),
    }
}

/// Splits a device name into vendor, class and name. The split is made at the
/// last `=`; an unqualified name gives an empty vendor and class and the
/// verbatim input as name.
pub fn parse_device(device: &str) -> (r: (&str, &str, &str))
    ensures
        (r.0@, r.1@, r.2@) == device_parts(device@),
{
    proof {
        reveal_strlit("");
        assert(""@ =~= Seq::<char>::empty());
    }
    let n = device.unicode_len();
    let (last, _count) = scan_char(device, '=');
    proof {
        lemma_last_pos_bounds(device@, '=');
    }
    match last {
        None => ("", "", device),
        Some(e) => {
            let left = device.substring_char(0, e);
            let (vendor, class) = parse_qualifier(left);
            if vendor.unicode_len() == 0 {
                ("", "", device)
            } else {
                (vendor, class, device.substring_char(e + 1, n))
            }
        },
    }
}

/// Checks a vendor or class name: an alphabetic character first, then
/// alphanumeric characters,
/// `-`, `_` or `.`.
pub fn validate_vendor_or_class_name(name: &str) -> (r: Result<(), NameError>)
    ensures
        r == vendor_or_class_check(name@),
        r is Ok <==> valid_vendor_or_class(name@),
{
    proof {
        lemma_valid_names(name@);
    }
    if name.unicode_len() == 0 {
        return Err(NameError::Empty);
    }
    if !is_alphabetic_char(name.get_char(0)) {
        return Err(NameError::NotStartingWithLetter);
    }
    match first_bad_exec(name, false) {
        Some(c) => Err(NameError::InvalidChar(c)),
        None => Ok(()),
    }
}

/// Checks a vendor name.
pub fn validate_vendor_name(vendor: &str) -> (r: Result<(), NameError>)
    ensures
        r == vendor_or_class_check(vendor@),
        r is Ok <==> valid_vendor_or_class(vendor@),
{
    validate_vendor_or_class_name(vendor)
}

/// Checks a class name.
pub fn validate_class_name(class: &str) -> (r: Result<(), NameError>)
    ensures
        r == vendor_or_class_check(class@),
        r is Ok <==> valid_vendor_or_class(class@),
{
    validate_vendor_or_class_name(class)
}

/// Checks a device name: alphanumeric characters, `-`, `_`, `.` or `:`, at
/// least one.
pub fn validate_device_name(name: &str) -> (r: Result<(), NameError>)
    ensures
        r == device_name_check(name@),
        r is Ok <==> valid_device_name(name@),
{
    proof {
        lemma_valid_names(name@);
    }
    if name.unicode_len() == 0 {
        return Err(NameError::Empty);
    }
    match first_bad_exec(name, true) {
        Some(c) => Err(NameError::InvalidChar(c)),
        None => Ok(()),
    }
}

/// Splits a qualified device name into vendor, class and name, each checked.
pub fn parse_qualified_name(device: &str) -> (r: Result<(String, String, String), ParseError>)
    ensures
        match (r, parse_spec(device@)) {
            (Ok((v, c, n)), Ok((sv, sc, sn))) => v@ == sv && c@ == sc && n@ == sn,
            (Err(e), Err(se)) => e == se,
            _ => false,
        },
{
    let (vendor, class, name) = parse_device(device);
    if vendor.unicode_len() == 0 {
        return Err(ParseError::MissingVendor);
    }
    if class.unicode_len() == 0 {
        return Err(ParseError::MissingClass);
    }
    if name.unicode_len() == 0 {
        return Err(ParseError::MissingName);
    }
    if let Err(e) = validate_vendor_name(vendor) {
        return Err(ParseError::InvalidVendor(e));
    }
    if let Err(e) = validate_class_name(class) {
        return Err(ParseError::InvalidClass(e));
    }
    if let Err(e) = validate_device_name(name) {
        return Err(ParseError::InvalidName(e));
    }
    Ok((vendor.to_string(), class.to_string(), name.to_string()))
}

/// Whether `device` is a well-formed qualified device name.
pub fn is_qualified_name(device: &str) -> (r: bool)
    ensures
        r == parse_spec(device@) is Ok,
{
    parse_qualified_name(device).is_ok()
}

/// Parsing a name built from well-formed parts gives the parts back. The
/// separators stay out of the parts: no `/` in the vendor or class, no `=`
/// in the name.
pub proof fn lemma_parse_qualified_round_trip(vendor: Seq<char>, class: Seq<char>, name: Seq<char>)
    requires
        valid_vendor_or_class(vendor),
        valid_vendor_or_class(class),
        valid_device_name(name),
        lacks(vendor, '/'),
        lacks(class, '/'),
        lacks(name, '='),
    ensures
        parse_spec(qualified(vendor, class, name)) == Ok::<(Seq<char>, Seq<char>, Seq<char>), ParseError>((vendor, class, name)),
{
    let q = qualified(vendor, class, name);
    let left = vendor + seq!['/'] + class;
    assert(q == left + seq!['='] + name);
    lemma_last_pos_split(left, '=', name);
    let e = left.len() as int;
    assert(q.subrange(0, e) =~= left);
    assert(q.subrange(e + 1, q.len() as int) =~= name);
    lemma_last_pos_split(vendor, '/', class);
    lemma_last_pos_none(vendor, '/');
    lemma_last_pos_none(class, '/');
    lemma_count_concat(vendor + seq!['/'], class, '/');
    lemma_count_concat(vendor, seq!['/'], '/');
    assert(count_char(seq!['/'], '/') == 1) by {
        let one = seq!['/'];
        assert(one.drop_last() =~= Seq::<char>::empty());
        assert(count_char(one.drop_last(), '/') == 0);
        assert(one.last() == '/');
    }
    assert(left.subrange(0, vendor.len() as int) =~= vendor);
    assert(left.subrange(vendor.len() as int + 1, left.len() as int) =~= class);
    lemma_valid_names(vendor);
    lemma_valid_names(class);
    lemma_valid_names(name);
}

} // verus!
