//! Character classes and small searches over character sequences.
use vstd::prelude::*;
use vstd::std_specs::iter::IteratorSpec;

verus! {

pub open spec fn is_letter(c: char) -> bool {
    ('a' <= c && c <= 'z') || ('A' <= c && c <= 'Z')
}

pub open spec fn is_digit(c: char) -> bool {
    '0' <= c && c <= '9'
}

pub open spec fn is_alnum(c: char) -> bool {
    is_letter(c) || is_digit(c)
}

/// Names the result of `char::is_alphabetic`.
pub uninterp spec fn alphabetic(c: char) -> bool;

/// Names the result of `char::is_alphanumeric`.
pub uninterp spec fn alphanumeric(c: char) -> bool;

/// Relies on `char::is_alphabetic`: whether `c` has the Unicode `Alphabetic`
/// property, a function of the character alone.
#[verifier::external_body]
pub(crate) fn is_alphabetic_char(c: char) -> (r: bool)
    ensures
        r == alphabetic(c),
{
    c.is_alphabetic()
}

/// Relies on `char::is_alphanumeric`: whether `c` is alphabetic or numeric in
/// Unicode's sense, a function of the character alone.
#[verifier::external_body]
pub(crate) fn is_alphanumeric_char(c: char) -> (r: bool)
    ensures
        r == alphanumeric(c),
{
    c.is_alphanumeric()
}

/// Position of the last occurrence of `c` in `s`, or -1 when there is none.
pub open spec fn last_pos(s: Seq<char>, c: char) -> int
    decreases s.len(),
{
    if s.len() == 0 {
        -1
    } else if s.last() == c {
        s.len() - 1
    } else {
        last_pos(s.drop_last(), c)
    }
}

/// Number of occurrences of `c` in `s`.
pub open spec fn count_char(s: Seq<char>, c: char) -> nat
    decreases s.len(),
{
    if s.len() == 0 {
        0
    } else {
        count_char(s.drop_last(), c) + if s.last() == c {
            1nat
        } else {
            0nat
        }
    }
}

pub open spec fn lacks(s: Seq<char>, c: char) -> bool {
    forall|i: int| 0 <= i < s.len() ==> s[i] != c
}

pub fn is_letter_exec(c: char) -> (r: bool)
    ensures
        r == is_letter(c),
{
    ('a' <= c && c <= 'z') || ('A' <= c && c <= 'Z')
}

pub fn is_digit_exec(c: char) -> (r: bool)
    ensures
        r == is_digit(c),
{
    '0' <= c && c <= '9'
}

pub fn is_alnum_exec(c: char) -> (r: bool)
    ensures
        r == is_alnum(c),
{
    is_letter_exec(c) || is_digit_exec(c)
}

pub proof fn lemma_last_pos_bounds(s: Seq<char>, c: char)
    ensures
        -1 <= last_pos(s, c) < s.len(),
        last_pos(s, c) >= 0 ==> s[last_pos(s, c)] == c,
        forall|j: int| last_pos(s, c) < j < s.len() ==> s[j] != c,
    decreases s.len(),
{
    if s.len() > 0 && s.last() != c {
        lemma_last_pos_bounds(s.drop_last(), c);
        assert forall|j: int| last_pos(s, c) < j < s.len() implies s[j] != c by {
            if j < s.len() - 1 {
                assert(s[j] == s.drop_last()[j]);
            }
        }
    }
}

pub proof fn lemma_last_pos_none(s: Seq<char>, c: char)
    requires
        lacks(s, c),
    ensures
        last_pos(s, c) == -1,
        count_char(s, c) == 0,
    decreases s.len(),
{
    if s.len() > 0 {
        lemma_last_pos_none(s.drop_last(), c);
    }
}

/// The last `c` of `a + [c] + b` is the one between them when `b` holds none.
pub proof fn lemma_last_pos_split(a: Seq<char>, c: char, b: Seq<char>)
    requires
        lacks(b, c),
    ensures
        last_pos(a + seq![c] + b, c) == a.len(),
    decreases b.len(),
{
    let s = a + seq![c] + b;
    if b.len() == 0 {
        assert(s.last() == c);
    } else {
        assert(s.drop_last() =~= a + seq![c] + b.drop_last());
        assert(s.last() == b.last());
        lemma_last_pos_split(a, c, b.drop_last());
    }
}

pub proof fn lemma_count_concat(a: Seq<char>, b: Seq<char>, c: char)
    ensures
        count_char(a + b, c) == count_char(a, c) + count_char(b, c),
    decreases b.len(),
{
    if b.len() == 0 {
        assert(a + b =~= a);
    } else {
        assert((a + b).drop_last() =~= a + b.drop_last());
        lemma_count_concat(a, b.drop_last(), c);
    }
}

/// The characters of `s`, in order.
pub fn text_chars(s: &str) -> (r: Vec<char>)
    ensures
        r@ == s@,
{
    broadcast use vstd::string::group_string_axioms;
    let mut it = s.chars();
    let mut out: Vec<char> = Vec::new();
    loop
        invariant
            out@ + it.remaining() == s@,
            it.obeys_prophetic_iter_laws(),
            it.decrease() is Some,
        ensures
            out@ == s@,
        decreases it.decrease()->0,
    {
        let ghost before = it.remaining();
        match it.next() {
            Some(c) => {
                out.push(c);
                assert(out@ + it.remaining() =~= s@);
            },
            None => {
                assert(before.len() == 0);
                assert(out@ =~= s@);
                break;
            },
        }
    }
    out
}

/// Finds the last occurrence of `c` and counts the occurrences.
pub fn scan_char(s: &str, c: char) -> (r: (Option<usize>, usize))
    ensures
        r.0 is Some <==> last_pos(s@, c) >= 0,
        r.0 is Some ==> r.0->0 == last_pos(s@, c),
        r.1 == count_char(s@, c),
{
    let chars = text_chars(s);
    let n = chars.len();
    let mut last: Option<usize> = None;
    let mut count: usize = 0;
    let mut i: usize = 0;
    while i < n
        invariant
            n == s@.len(),
            chars@ == s@,
            0 <= i <= n,
            last is Some <==> last_pos(s@.subrange(0, i as int), c) >= 0,
            last is Some ==> last->0 == last_pos(s@.subrange(0, i as int), c),
            count == count_char(s@.subrange(0, i as int), c),
            count <= i,
        decreases n - i,
    {
        let ch = chars[i];
        proof {
            let t = s@.subrange(0, i + 1);
            assert(t.drop_last() =~= s@.subrange(0, i as int));
            assert(t.last() == ch);
            lemma_last_pos_bounds(s@.subrange(0, i as int), c);
        }
        if ch == c {
            last = Some(i);
            count = count + 1;
        }
        i = i + 1;
    }
    assert(s@.subrange(0, n as int) =~= s@);
    (last, count)
}

/// Whether `s` holds the character `c`.
pub fn contains_char(s: &str, c: char) -> (r: bool)
    ensures
        r == !lacks(s@, c),
{
    let (last, _count) = scan_char(s, c);
    proof {
        lemma_last_pos_bounds(s@, c);
        if lacks(s@, c) {
            lemma_last_pos_none(s@, c);
        }
    }
    last.is_some()
}

/// Whether two texts are equal, character by character.
pub fn same_text(a: &str, b: &str) -> (r: bool)
    ensures
        r == (a@ == b@),
{
    let ac = text_chars(a);
    let bc = text_chars(b);
    let n = ac.len();
    if n != bc.len() {
        return false;
    }
    let mut i: usize = 0;
    while i < n
        invariant
            ac@ == a@,
            bc@ == b@,
            n == a@.len(),
            n == b@.len(),
            0 <= i <= n,
            forall|j: int| 0 <= j < i ==> a@[j] == b@[j],
        decreases n - i,
    {
        if ac[i] != bc[i] {
            return false;
        }
        i = i + 1;
    }
    assert(a@ =~= b@);
    true
}

/// Whether `s` begins with `prefix`.
pub open spec fn has_prefix(s: Seq<char>, prefix: Seq<char>) -> bool {
    prefix.len() <= s.len() && s.subrange(0, prefix.len() as int) == prefix
}

/// Whether `s` begins with `prefix`.
pub fn starts_with(s: &str, prefix: &str) -> (r: bool)
    ensures
        r == has_prefix(s@, prefix@),
{
    let n = prefix.unicode_len();
    if n > s.unicode_len() {
        return false;
    }
    let mut i: usize = 0;
    while i < n
        invariant
            n == prefix@.len(),
            n <= s@.len(),
            0 <= i <= n,
            forall|j: int| 0 <= j < i ==> s@[j] == prefix@[j],
        decreases n - i,
    {
        if s.get_char(i) != prefix.get_char(i) {
            assert(s@.subrange(0, n as int)[i as int] != prefix@[i as int]);
            return false;
        }
        i = i + 1;
    }
    assert(s@.subrange(0, n as int) =~= prefix@);
    true
}

/// Appends the character at position `i` of `s` to `out`.
pub fn push_char_of(out: &mut String, s: &str, i: usize)
    requires
        i < s@.len() <= usize::MAX,
    ensures
        final(out)@ == old(out)@.push(s@[i as int]),
{
    let one = s.substring_char(i, i + 1);
    out.append(one);
    assert(one@ =~= seq![s@[i as int]]);
}

} // verus!
