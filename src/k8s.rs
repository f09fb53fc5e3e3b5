//! Kubernetes-style checks of annotation keys and of the annotations' size.
use vstd::prelude::*;
use vstd::utf8::encode_utf8;
use crate::chars::{
    count_char, is_alnum, is_alnum_exec, is_digit, last_pos, lemma_last_pos_bounds, lemma_last_pos_none,
    scan_char,
};

verus! {

/// The largest total size, in bytes, of the keys and values of annotations.
pub const TOTAL_ANNOTATION_SIZE_LIMIT: usize = 262144;

/// The longest name part of a qualified name, in bytes.
pub const QUALIFIED_NAME_MAX_LENGTH: usize = 63;

/// The longest DNS-1123 subdomain, in bytes.
pub const DNS1123_SUBDOMAIN_MAX_LENGTH: usize = 253;

/// What is wrong with a qualified name `[prefix/]name`.
#[derive(Clone, Copy, Debug, PartialEq, Eq, Structural)]
pub enum NameFault {
    TooManyParts,
    EmptyPrefix,
    InvalidPrefix,
    EmptyName,
    NameTooLong,
    InvalidName,
}

/// What is wrong with a set of annotations.
#[derive(Clone, Copy, Debug, PartialEq, Eq, Structural)]
pub enum AnnotationFault {
    /// The key at this index, lower-cased, is not a qualified name.
    InvalidKey(usize, NameFault),
    TooLarge,
}

/// The annotations found at `path` and what is wrong with them.
#[derive(Clone, Debug)]
pub struct AnnotationsError {
    pub path: String,
    pub faults: Vec<AnnotationFault>,
}

/// Names the result of `str::to_lowercase`.
pub uninterp spec fn lower_of(s: Seq<char>) -> Seq<char>;

/// Relies on `str::to_lowercase`: the result depends on the text alone.
#[verifier::external_body]
fn lowercase(s: &str) -> (r: String)
    ensures
        r@ == lower_of(s@),
{
    s.to_lowercase()
}

/// The length of `s` in bytes, as `str::len` gives it.
pub open spec fn byte_len(s: Seq<char>) -> usize {
    encode_utf8(s).len() as usize
}

pub open spec fn lower_alnum(c: char) -> bool {
    ('a' <= c && c <= 'z') || is_digit(c)
}

/// `[-A-Za-z0-9_.]`
pub open spec fn name_char_ascii(c: char) -> bool {
    is_alnum(c) || c == '_' || c == '-' || c == '.'
}

/// `[A-Za-z0-9]([-A-Za-z0-9_.]*[A-Za-z0-9])?`
pub open spec fn qualified_name_pattern(s: Seq<char>) -> bool {
    &&& s.len() > 0
    &&& is_alnum(s[0])
    &&& is_alnum(s.last())
    &&& forall|i: int| 0 <= i < s.len() ==> name_char_ascii(#[trigger] s[i])
}

/// Labels of `[a-z0-9]([-a-z0-9]*[a-z0-9])?` joined by `.`.
pub open spec fn dns1123_subdomain_pattern(s: Seq<char>) -> bool {
    &&& s.len() > 0
    &&& lower_alnum(s[0])
    &&& lower_alnum(s.last())
    &&& forall|i: int| 0 <= i < s.len() ==> (lower_alnum(#[trigger] s[i]) || s[i] == '-' || s[i] == '.')
    &&& forall|i: int| 0 < i < s.len() - 1 && #[trigger] s[i] == '.' ==> lower_alnum(s[i - 1]) && lower_alnum(s[i + 1])
}

pub open spec fn dns1123_subdomain_ok(s: Seq<char>) -> bool {
    byte_len(s) <= DNS1123_SUBDOMAIN_MAX_LENGTH && dns1123_subdomain_pattern(s)
}

/// The faults of the name part of a qualified name.
pub open spec fn name_part_faults(n: Seq<char>) -> Seq<NameFault> {
    let size: Seq<NameFault> = if n.len() == 0 {
        seq![NameFault::EmptyName]
    } else if byte_len(n) > QUALIFIED_NAME_MAX_LENGTH {
        seq![NameFault::NameTooLong]
    } else {
        Seq::empty()
    };
    if qualified_name_pattern(n) {
        size
    } else {
        size.push(NameFault::InvalidName)
    }
}

/// The faults of `value` as a qualified name: an optional DNS subdomain
/// prefix and `/`, then a name of at most 63 bytes made of letters, digits,
/// `-`, `_` and `.` that starts and ends with a letter or digit.
pub open spec fn qualified_name_faults(value: Seq<char>) -> Seq<NameFault> {
    let slashes = count_char(value, '/');
    if slashes == 0 {
        name_part_faults(value)
    } else if slashes == 1 {
        let i = last_pos(value, '/');
        let prefix = value.subrange(0, i);
        let name = value.subrange(i + 1, value.len() as int);
        let pf: Seq<NameFault> = if prefix.len() == 0 {
            seq![NameFault::EmptyPrefix]
        } else if !dns1123_subdomain_ok(prefix) {
            seq![NameFault::InvalidPrefix]
        } else {
            Seq::empty()
        };
        pf + name_part_faults(name)
    } else {
        seq![NameFault::TooManyParts]
    }
}

fn qualified_name_pattern_exec(s: &str) -> (r: bool)
    ensures
        r == qualified_name_pattern(s@),
{
    let n = s.unicode_len();
    if n == 0 {
        return false;
    }
    if !is_alnum_exec(s.get_char(0)) || !is_alnum_exec(s.get_char(n - 1)) {
        return false;
    }
    let mut i: usize = 0;
    while i < n
        invariant
            n == s@.len(),
            0 <= i <= n,
            forall|k: int| 0 <= k < i ==> name_char_ascii(#[trigger] s@[k]),
        decreases n - i,
    {
        let c = s.get_char(i);
        if !(is_alnum_exec(c) || c == '-' || c == '_' || c == '.') {
            assert(!name_char_ascii(s@[i as int]));
            return false;
        }
        i = i + 1;
    }
    true
}

fn lower_alnum_exec(c: char) -> (r: bool)
    ensures
        r == lower_alnum(c),
{
    ('a' <= c && c <= 'z') || ('0' <= c && c <= '9')
}

/// Whether `s` is a DNS-1123 subdomain of at most 253 bytes.
pub fn is_dns1123_subdomain(s: &str) -> (r: bool)
    ensures
        r == dns1123_subdomain_ok(s@),
{
    if s.len() > DNS1123_SUBDOMAIN_MAX_LENGTH {
        return false;
    }
    let n = s.unicode_len();
    if n == 0 {
        return false;
    }
    if !lower_alnum_exec(s.get_char(0)) || !lower_alnum_exec(s.get_char(n - 1)) {
        return false;
    }
    let mut i: usize = 0;
    while i < n
        invariant
            n == s@.len(),
            n > 0,
            lower_alnum(s@[0]),
            lower_alnum(s@.last()),
            0 <= i <= n,
            forall|k: int| 0 <= k < i ==> (lower_alnum(#[trigger] s@[k]) || s@[k] == '-' || s@[k] == '.'),
            forall|k: int| 0 < k < n - 1 && k < i && #[trigger] s@[k] == '.' ==> lower_alnum(s@[k - 1]) && lower_alnum(s@[k + 1]),
        decreases n - i,
    {
        let c = s.get_char(i);
        if !(lower_alnum_exec(c) || c == '-' || c == '.') {
            return false;
        }
        if c == '.' && 0 < i && i < n - 1 {
            if !lower_alnum_exec(s.get_char(i - 1)) || !lower_alnum_exec(s.get_char(i + 1)) {
                return false;
            }
        }
        i = i + 1;
    }
    true
}

fn name_part_faults_exec(name: &str) -> (r: Vec<NameFault>)
    ensures
        r@ == name_part_faults(name@),
{
    let mut errs: Vec<NameFault> = Vec::new();
    if name.unicode_len() == 0 {
        errs.push(NameFault::EmptyName);
    } else if name.len() > QUALIFIED_NAME_MAX_LENGTH {
        errs.push(NameFault::NameTooLong);
    }
    if !qualified_name_pattern_exec(name) {
        errs.push(NameFault::InvalidName);
    }
    assert(errs@ =~= name_part_faults(name@));
    errs
}

/// What is wrong with `value` as a qualified name; nothing when it is one.
pub fn is_qualified_name(value: &str) -> (r: Vec<NameFault>)
    ensures
        r@ == qualified_name_faults(value@),
{
    let (last, slashes) = scan_char(value, '/');
    if slashes == 0 {
        return name_part_faults_exec(value);
    }
    if slashes > 1 {
        let mut errs: Vec<NameFault> = Vec::new();
        errs.push(NameFault::TooManyParts);
        assert(errs@ =~= seq![NameFault::TooManyParts]);
        return errs;
    }
    proof {
        lemma_last_pos_bounds(value@, '/');
        if last_pos(value@, '/') < 0 {
            lemma_last_pos_none(value@, '/');
        }
    }
    let i = match last {
        Some(i) => i,
        None => 0,
    };
    let n = value.unicode_len();
    let prefix = value.substring_char(0, i);
    let name = value.substring_char(i + 1, n);
    let mut errs: Vec<NameFault> = Vec::new();
    if prefix.unicode_len() == 0 {
        errs.push(NameFault::EmptyPrefix);
    } else if !is_dns1123_subdomain(prefix) {
        errs.push(NameFault::InvalidPrefix);
    }
    let mut rest = name_part_faults_exec(name);
    errs.append(&mut rest);
    errs
}

/// The faults of the keys of `a` from index `i` on, each key lower-cased.
pub open spec fn key_faults(a: Seq<(String, String)>, i: int) -> Seq<AnnotationFault>
    decreases a.len() - i,
{
    if i < 0 || i >= a.len() {
        Seq::empty()
    } else {
        qualified_name_faults(lower_of(a[i].0@)).map_values(
            |f: NameFault| AnnotationFault::InvalidKey(i as usize, f),
        ) + key_faults(a, i + 1)
    }
}

/// The total size in bytes of the keys and values of `a`.
pub open spec fn total_size(a: Seq<(String, String)>) -> nat
    decreases a.len(),
{
    if a.len() == 0 {
        0
    } else {
        total_size(a.drop_last()) + byte_len(a.last().0@) as nat + byte_len(a.last().1@) as nat
    }
}

/// Everything wrong with annotations: the faults of the lower-cased keys in
/// order, then their size when it is over the limit.
pub open spec fn annotation_faults(a: Seq<(String, String)>) -> Seq<AnnotationFault> {
    if total_size(a) > TOTAL_ANNOTATION_SIZE_LIMIT {
        key_faults(a, 0).push(AnnotationFault::TooLarge)
    } else {
        key_faults(a, 0)
    }
}

proof fn lemma_total_size_grows(a: Seq<(String, String)>, i: int)
    requires
        0 <= i <= a.len(),
    ensures
        total_size(a.subrange(0, i)) <= total_size(a),
    decreases a.len() - i,
{
    if i < a.len() {
        lemma_total_size_grows(a, i + 1);
        assert(a.subrange(0, i + 1).drop_last() =~= a.subrange(0, i));
    } else {
        assert(a.subrange(0, i) =~= a);
    }
}

/// Whether the annotations' keys and values together exceed the size limit.
pub fn annotations_too_large(annotations: &Vec<(String, String)>) -> (r: bool)
    ensures
        r == (total_size(annotations@) > TOTAL_ANNOTATION_SIZE_LIMIT),
{
    let mut total: usize = 0;
    let mut i: usize = 0;
    while i < annotations.len()
        invariant
            0 <= i <= annotations@.len(),
            total == total_size(annotations@.subrange(0, i as int)),
            total <= TOTAL_ANNOTATION_SIZE_LIMIT,
        decreases annotations@.len() - i,
    {
        let k = annotations[i].0.as_str().len();
        let v = annotations[i].1.as_str().len();
        proof {
            let t = annotations@.subrange(0, i + 1);
            assert(t.drop_last() =~= annotations@.subrange(0, i as int));
        }
        if k > TOTAL_ANNOTATION_SIZE_LIMIT - total || v > TOTAL_ANNOTATION_SIZE_LIMIT - total - k {
            proof {
                lemma_total_size_grows(annotations@, i + 1);
            }
            return true;
        }
        total = total + k + v;
        i = i + 1;
    }
    assert(annotations@.subrange(0, annotations@.len() as int) =~= annotations@);
    false
}

/// Checks annotations: each key, lower-cased, must be a qualified name, and
/// keys and values together must not exceed 256 KiB. `path` names the
/// annotations in the error.
pub fn validate_annotations(annotations: &Vec<(String, String)>, path: &str) -> (r: Result<(), AnnotationsError>)
    ensures
        r is Ok <==> annotation_faults(annotations@).len() == 0,
        r is Err ==> r->Err_0.faults@ == annotation_faults(annotations@) && r->Err_0.path@ == path@,
{
    let mut faults: Vec<AnnotationFault> = Vec::new();
    let mut i: usize = 0;
    while i < annotations.len()
        invariant
            0 <= i <= annotations@.len(),
            faults@ + key_faults(annotations@, i as int) == key_faults(annotations@, 0),
        decreases annotations@.len() - i,
    {
        let lowered = lowercase(annotations[i].0.as_str());
        let errs = is_qualified_name(lowered.as_str());
        let ghost before = faults@;
        let mut j: usize = 0;
        while j < errs.len()
            invariant
                0 <= j <= errs@.len(),
                i < annotations@.len(),
                errs@ == qualified_name_faults(lower_of(annotations@[i as int].0@)),
                faults@ == before + errs@.subrange(0, j as int).map_values(
                    |f: NameFault| AnnotationFault::InvalidKey(i as usize, f),
                ),
            decreases errs@.len() - j,
        {
            faults.push(AnnotationFault::InvalidKey(i, errs[j]));
            assert(faults@ =~= before + errs@.subrange(0, j + 1).map_values(
                |f: NameFault| AnnotationFault::InvalidKey(i as usize, f),
            ));
            j = j + 1;
        }
        assert(errs@.subrange(0, errs@.len() as int) =~= errs@);
        assert(faults@ + key_faults(annotations@, i + 1) =~= before + key_faults(annotations@, i as int));
        i = i + 1;
    }
    assert(faults@ =~= key_faults(annotations@, 0));
    if annotations_too_large(annotations) {
        faults.push(AnnotationFault::TooLarge);
    }
    if faults.len() == 0 {
        Ok(())
    } else {
        Err(AnnotationsError { path: String::from_str(path), faults })
    }
}

/// Checks the annotations of a specification file (`name` empty) or of the
/// device `name`.
pub fn validate_spec_annotations(name: &str, annotations: &Vec<(String, String)>) -> (r: Result<(), AnnotationsError>)
    ensures
        r is Ok <==> annotation_faults(annotations@).len() == 0,
        r is Err ==> r->Err_0.faults@ == annotation_faults(annotations@),
        r is Err ==> r->Err_0.path@ == if name@.len() == 0 {
            "annotations"@
        } else {
            name@ + ".annotations"@
        },
{
    if name.unicode_len() == 0 {
        validate_annotations(annotations, "annotations")
    } else {
        let mut path = String::from_str(name);
        path.append(".annotations");
        validate_annotations(annotations, path.as_str())
    }
}

} // verus!
