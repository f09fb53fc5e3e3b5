//! Small helpers for showing specification files.
use vstd::prelude::*;
use crate::chars::same_text;
use crate::spec::{extension_of, path_extension};

verus! {

/// The output format: `format` when given, else the extension of `path`
/// when it is exactly `json` or `yaml`, else empty.
pub open spec fn chosen_format(format: Seq<char>, path: Seq<char>) -> Seq<char> {
    if format.len() > 0 {
        format
    } else {
        match extension_of(path) {
            Some(e) => if e == "json"@ || e == "yaml"@ {
                e
            } else {
                format
            },
            None => format,
        }
    }
}

/// Picks the output format for a file: `format` when given, else the
/// file's extension when it is `json` or `yaml`.
pub fn choose_format(format: &str, path: &str) -> (r: String)
    ensures
        r@ == chosen_format(format@, path@),
{
    if format.unicode_len() > 0 {
        return format.to_string();
    }
    match path_extension(path) {
        Some(e) => {
            if same_text(e.as_str(), "json") || same_text(e.as_str(), "yaml") {
                e
            } else {
                format.to_string()
            }
        },
        None => format.to_string(),
    }
}

/// `level` spaces.
pub fn indent(level: usize) -> (r: String)
    ensures
        r@ == Seq::new(level as nat, |i: int| ' '),
{
    let mut r = String::new();
    let mut i: usize = 0;
    proof {
        reveal_strlit(" ");
    }
    while i < level
        invariant
            0 <= i <= level,
            " "@ == seq![' '],
            r@ == Seq::new(i as nat, |k: int| ' '),
        decreases level - i,
    {
        r.append(" ");
        assert(r@ =~= Seq::new((i + 1) as nat, |k: int| ' '));
        i = i + 1;
    }
    r
}

} // verus!
