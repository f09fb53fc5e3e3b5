//! Checks of annotations whose values name devices.
use vstd::prelude::*;
use crate::k8s::{annotations_too_large, total_size, TOTAL_ANNOTATION_SIZE_LIMIT};
use crate::parser::{parse_qualified_name, parse_spec, ParseError};

verus! {

/// What is wrong with annotations whose values name devices.
#[derive(Clone, Copy, Debug, PartialEq, Eq, Structural)]
pub enum ValueFault {
    TooLarge,
    /// The value at this index is not a qualified device name.
    InvalidValue(usize, ParseError),
}

/// The faults of the values of `a` from index `i` on.
pub open spec fn value_faults(a: Seq<(String, String)>, i: int) -> Seq<ValueFault>
    decreases a.len() - i,
{
    if i < 0 || i >= a.len() {
        Seq::empty()
    } else {
        let rest = value_faults(a, i + 1);
        match parse_spec(a[i].1@) {
            Ok(_) => rest,
            Err(e) => seq![ValueFault::InvalidValue(i as usize, e)] + rest,
        }
    }
}

/// Everything wrong with annotations whose values name devices: their size
/// when it is over the limit, then each value that is not a qualified name.
pub open spec fn annotation_value_faults(a: Seq<(String, String)>) -> Seq<ValueFault> {
    if total_size(a) > TOTAL_ANNOTATION_SIZE_LIMIT {
        seq![ValueFault::TooLarge] + value_faults(a, 0)
    } else {
        value_faults(a, 0)
    }
}

/// Checks that annotations are at most 256 KiB and that every value is a
/// qualified device name.
pub fn validate_annotations(annotations: &Vec<(String, String)>) -> (r: Result<(), Vec<ValueFault>>)
    ensures
        r is Ok <==> annotation_value_faults(annotations@).len() == 0,
        r is Err ==> r->Err_0@ == annotation_value_faults(annotations@),
{
    let mut faults: Vec<ValueFault> = Vec::new();
    if annotations_too_large(annotations) {
        faults.push(ValueFault::TooLarge);
    }
    let ghost head = faults@;
    let mut i: usize = 0;
    while i < annotations.len()
        invariant
            0 <= i <= annotations@.len(),
            faults@ + value_faults(annotations@, i as int) == head + value_faults(annotations@, 0),
        decreases annotations@.len() - i,
    {
        let ghost before = faults@;
        match parse_qualified_name(annotations[i].1.as_str()) {
            Ok(_) => {},
            Err(e) => {
                faults.push(ValueFault::InvalidValue(i, e));
            },
        }
        assert(faults@ + value_faults(annotations@, i + 1) =~= before + value_faults(annotations@, i as int));
        i = i + 1;
    }
    assert(faults@ =~= annotation_value_faults(annotations@));
    if faults.len() == 0 {
        Ok(())
    } else {
        Err(faults)
    }
}

/// Checks annotations of the file or device `name` as `validate_annotations`
/// does; each fault comes with the path of the annotations.
pub fn validate_spec_annotations(name: &str, annotations: &Vec<(String, String)>) -> (r: Result<(), (String, Vec<ValueFault>)>)
    ensures
        r is Ok <==> annotation_value_faults(annotations@).len() == 0,
        r is Err ==> r->Err_0.1@ == annotation_value_faults(annotations@),
        r is Err ==> r->Err_0.0@ == if name@.len() == 0 {
            "annotations"@
        } else {
            name@ + ".annotations"@
        },
{
    match validate_annotations(annotations) {
        Ok(()) => Ok(()),
        Err(faults) => {
            if name.unicode_len() == 0 {
                Err((String::from_str("annotations"), faults))
            } else {
                let mut path = String::from_str(name);
                path.append(".annotations");
                Err((path, faults))
            }
        },
    }
}

} // verus!
