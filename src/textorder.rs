//! The order of texts by character code, and sorted lists of distinct texts.
use vstd::prelude::*;
use crate::chars::same_text;

verus! {

/// `a` comes before `b`: at the first character where they differ `a`'s
/// has the lower code, or `a` is a proper prefix of `b`.
pub open spec fn text_lt(a: Seq<char>, b: Seq<char>) -> bool
    decreases a.len(),
{
    if a.len() == 0 {
        b.len() > 0
    } else if b.len() == 0 {
        false
    } else if a[0] != b[0] {
        a[0] < b[0]
    } else {
        text_lt(a.drop_first(), b.drop_first())
    }
}

pub proof fn lemma_text_lt_irreflexive(a: Seq<char>)
    ensures
        !text_lt(a, a),
    decreases a.len(),
{
    if a.len() > 0 {
        lemma_text_lt_irreflexive(a.drop_first());
    }
}

pub proof fn lemma_text_lt_transitive(a: Seq<char>, b: Seq<char>, c: Seq<char>)
    requires
        text_lt(a, b),
        text_lt(b, c),
    ensures
        text_lt(a, c),
    decreases a.len(),
{
    if a.len() > 0 && b.len() > 0 && c.len() > 0 {
        if a[0] == b[0] && b[0] == c[0] {
            lemma_text_lt_transitive(a.drop_first(), b.drop_first(), c.drop_first());
        }
    }
}

pub proof fn lemma_text_lt_total(a: Seq<char>, b: Seq<char>)
    ensures
        a == b || text_lt(a, b) || text_lt(b, a),
    decreases a.len(),
{
    if a.len() > 0 && b.len() > 0 {
        if a[0] == b[0] {
            lemma_text_lt_total(a.drop_first(), b.drop_first());
            if a.drop_first() == b.drop_first() {
                assert(a =~= seq![a[0]] + a.drop_first());
                assert(b =~= seq![b[0]] + b.drop_first());
            }
        }
    } else if a.len() == 0 && b.len() == 0 {
        assert(a =~= b);
    }
}

/// Whether `a` comes before `b`.
pub fn text_less(a: &str, b: &str) -> (r: bool)
    ensures
        r == text_lt(a@, b@),
{
    let n = a.unicode_len();
    let m = b.unicode_len();
    let mut i: usize = 0;
    assert(a@.subrange(0, n as int) =~= a@);
    assert(b@.subrange(0, m as int) =~= b@);
    while i < n && i < m
        invariant
            n == a@.len(),
            m == b@.len(),
            0 <= i <= n,
            i <= m,
            text_lt(a@, b@) == text_lt(a@.subrange(i as int, n as int), b@.subrange(i as int, m as int)),
        decreases n - i,
    {
        let x = a.get_char(i);
        let y = b.get_char(i);
        let ghost sa = a@.subrange(i as int, n as int);
        let ghost sb = b@.subrange(i as int, m as int);
        assert(sa[0] == x && sb[0] == y);
        if x != y {
            return x < y;
        }
        assert(sa.drop_first() =~= a@.subrange(i + 1, n as int));
        assert(sb.drop_first() =~= b@.subrange(i + 1, m as int));
        i = i + 1;
    }
    assert(a@.subrange(0, n as int) =~= a@);
    assert(b@.subrange(0, m as int) =~= b@);
    i == n && i < m
}

/// The texts of `s` are in strictly increasing order.
pub open spec fn strictly_sorted(s: Seq<Seq<char>>) -> bool {
    forall|i: int, j: int| 0 <= i < j < s.len() ==> text_lt(#[trigger] s[i], #[trigger] s[j])
}

pub open spec fn text_views(s: Seq<String>) -> Seq<Seq<char>> {
    s.map_values(|x: String| x@)
}

/// Adds `x` to a strictly sorted list of texts unless it is already there.
pub fn sorted_insert(v: &mut Vec<String>, x: String)
    requires
        strictly_sorted(text_views(old(v)@)),
    ensures
        strictly_sorted(text_views(final(v)@)),
        forall|k: Seq<char>| text_views(final(v)@).contains(k) <==> (text_views(old(v)@).contains(k) || k == x@),
{
    let ghost old_t = text_views(v@);
    let mut pos: usize = 0;
    while pos < v.len() && text_less(v[pos].as_str(), x.as_str())
        invariant
            0 <= pos <= v@.len(),
            text_views(v@) == old_t,
            strictly_sorted(old_t),
            old_t == text_views(old(v)@),
            forall|k: int| 0 <= k < pos ==> text_lt(#[trigger] old_t[k], x@),
        decreases v@.len() - pos,
    {
        pos = pos + 1;
    }
    if pos < v.len() && same_text(v[pos].as_str(), x.as_str()) {
        assert(old_t[pos as int] == x@);
        assert(old_t.contains(x@));
        return;
    }
    proof {
        if pos < v@.len() {
            lemma_text_lt_total(old_t[pos as int], x@);
            assert(text_lt(x@, old_t[pos as int]));
        }
    }
    v.insert(pos, x);
    let ghost new_t = text_views(v@);
    assert(new_t =~= old_t.insert(pos as int, x@));
    proof {
        assert forall|i: int, j: int| 0 <= i < j < new_t.len() implies text_lt(#[trigger] new_t[i], #[trigger] new_t[j]) by {
            if j < pos {
            } else if j == pos {
            } else if i < pos {
                if j - 1 > pos {
                    lemma_text_lt_transitive(x@, old_t[pos as int], old_t[j - 1]);
                }
                lemma_text_lt_transitive(old_t[i], x@, old_t[j - 1]);
            } else if i == pos {
                if j - 1 > pos {
                    lemma_text_lt_transitive(x@, old_t[pos as int], old_t[j - 1]);
                }
            } else {
            }
        }
        assert forall|k: Seq<char>| new_t.contains(k) <==> (old_t.contains(k) || k == x@) by {
            if new_t.contains(k) {
                let i = choose|i: int| 0 <= i < new_t.len() && new_t[i] == k;
                if i < pos {
                    assert(old_t[i] == k);
                } else if i > pos {
                    assert(old_t[i - 1] == k);
                }
            }
            if old_t.contains(k) {
                let i = choose|i: int| 0 <= i < old_t.len() && old_t[i] == k;
                if i < pos {
                    assert(new_t[i] == k);
                } else {
                    assert(new_t[i + 1] == k);
                }
            }
            if k == x@ {
                assert(new_t[pos as int] == k);
            }
        }
    }
}

} // verus!
