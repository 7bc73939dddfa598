//! The order of strings: by character code, as `String`'s `Ord` compares
//! their UTF-8 bytes.

use vstd::prelude::*;
use crate::text::chars_of;

verus! {

/// Whether `a` comes strictly before `b`.
pub open spec fn text_lt(a: Seq<char>, b: Seq<char>) -> bool
    decreases a.len(),
{
    if a.len() == 0 {
        b.len() > 0
    } else if b.len() == 0 {
        false
    } else if a[0] != b[0] {
        (a[0] as u32) < (b[0] as u32)
    } else {
        text_lt(a.drop_first(), b.drop_first())
    }
}

/// Each entry comes strictly before the next.
pub open spec fn strictly_sorted(v: Seq<Seq<char>>) -> bool {
    forall|i: int| 0 <= i < v.len() - 1 ==> text_lt(#[trigger] v[i], v[i + 1])
}

/// No text comes before itself.
pub proof fn lemma_text_lt_irreflexive(a: Seq<char>)
    ensures
        !text_lt(a, a),
    decreases a.len(),
{
    if a.len() > 0 {
        lemma_text_lt_irreflexive(a.drop_first());
    }
}

/// Of two different texts one comes before the other, and never both.
pub proof fn lemma_text_lt_total(a: Seq<char>, b: Seq<char>)
    ensures
        a != b ==> text_lt(a, b) || text_lt(b, a),
        !(text_lt(a, b) && text_lt(b, a)),
        !text_lt(a, a),
    decreases a.len(),
{
    lemma_text_lt_irreflexive(a);
    if a.len() > 0 && b.len() > 0 {
        if a[0] == b[0] {
            lemma_text_lt_total(a.drop_first(), b.drop_first());
            if a != b {
                assert(a.drop_first() != b.drop_first()) by {
                    if a.drop_first() == b.drop_first() {
                        assert(a =~= seq![a[0]] + a.drop_first());
                        assert(b =~= seq![b[0]] + b.drop_first());
                    }
                }
            }
        } else {
            vstd::utf8::char_u32_cast(a[0], a[0] as u32);
            vstd::utf8::char_u32_cast(b[0], b[0] as u32);
        }
    } else if a.len() == 0 && b.len() == 0 {
        assert(a =~= b);
    }
}

/// The order of texts is transitive.
pub proof fn lemma_text_lt_transitive(a: Seq<char>, b: Seq<char>, c: Seq<char>)
    requires
        text_lt(a, b),
        text_lt(b, c),
    ensures
        text_lt(a, c),
    decreases a.len(),
{
    if a.len() > 0 {
        if a[0] == b[0] && b[0] == c[0] {
            lemma_text_lt_transitive(a.drop_first(), b.drop_first(), c.drop_first());
        } else {
            vstd::utf8::char_u32_cast(a[0], a[0] as u32);
            vstd::utf8::char_u32_cast(c[0], c[0] as u32);
        }
    }
}

/// A strictly sorted list holds no entry twice, so it has as many entries
/// as its set.
pub proof fn lemma_sorted_distinct(v: Seq<Seq<char>>)
    requires
        strictly_sorted(v),
    ensures
        v.no_duplicates(),
        v.to_set().len() == v.len(),
{
    assert forall|i: int, j: int| 0 <= i < j < v.len() implies text_lt(v[i], v[j]) by {
        lemma_sorted_pair(v, i, j);
    }
    assert forall|i: int, j: int| 0 <= i < v.len() && 0 <= j < v.len() && i != j implies v[i]
        != v[j] by {
        if i < j {
            lemma_text_lt_irreflexive(v[i]);
        } else {
            lemma_text_lt_irreflexive(v[j]);
        }
    }
    v.unique_seq_to_set();
}

proof fn lemma_sorted_pair(v: Seq<Seq<char>>, i: int, j: int)
    requires
        strictly_sorted(v),
        0 <= i < j < v.len(),
    ensures
        text_lt(v[i], v[j]),
    decreases j - i,
{
    if j > i + 1 {
        lemma_sorted_pair(v, i, j - 1);
        assert(text_lt(v[j - 1], v[j - 1 + 1]));
        lemma_text_lt_transitive(v[i], v[j - 1], v[j]);
    } else {
        assert(text_lt(v[i], v[i + 1]));
    }
}

/// Whether `a` comes strictly before `b`.
pub fn less(a: &[char], b: &[char]) -> (r: bool)
    ensures
        r == text_lt(a@, b@),
{
    let mut i: usize = 0;
    assert(a@.skip(0) =~= a@);
    assert(b@.skip(0) =~= b@);
    while i < a.len() && i < b.len() && a[i] == b[i]
        invariant
            i <= a.len(),
            i <= b.len(),
            text_lt(a@, b@) == text_lt(a@.skip(i as int), b@.skip(i as int)),
        decreases a.len() - i,
    {
        assert(a@.skip(i as int).drop_first() =~= a@.skip(i + 1));
        assert(b@.skip(i as int).drop_first() =~= b@.skip(i + 1));
        i = i + 1;
    }
    if i == a.len() {
        i < b.len()
    } else if i == b.len() {
        false
    } else {
        (a[i] as u32) < (b[i] as u32)
    }
}

/// The views of a list of strings.
pub open spec fn string_views(v: Seq<String>) -> Seq<Seq<char>> {
    v.map_values(|s: String| s@)
}

/// Adds `s` to the strictly sorted `v`, unless it is there already.
pub fn insert_sorted(v: &mut Vec<String>, s: String)
    requires
        strictly_sorted(string_views(old(v)@)),
    ensures
        strictly_sorted(string_views(final(v)@)),
        string_views(final(v)@).to_set() == string_views(old(v)@).to_set().insert(s@),
{
    let sc = chars_of(s.as_str());
    let ghost w = string_views(v@);
    let mut p: usize = 0;
    while p < v.len() && less(chars_of(v[p].as_str()).as_slice(), sc.as_slice())
        invariant
            p <= v.len(),
            w == string_views(v@),
            sc@ == s@,
            p > 0 ==> text_lt(w[p - 1], s@),
        decreases v.len() - p,
    {
        p = p + 1;
    }
    if p < v.len() {
        let cur = chars_of(v[p].as_str());
        proof {
            lemma_text_lt_total(w[p as int], s@);
        }
        if cur.len() == sc.len() && crate::text::same(cur.as_slice(), sc.as_slice()) {
            assert(w[p as int] == s@);
            assert(w.to_set().insert(s@) =~= w.to_set()) by {
                assert(w.to_set().contains(w[p as int]));
            }
            return;
        }
    }
    proof {
        if p < v.len() {
            lemma_text_lt_total(w[p as int], s@);
        }
    }
    let ghost sv = s@;
    v.insert(p, s);
    let ghost nw = string_views(v@);
    assert(nw =~= w.take(p as int) + seq![sv] + w.skip(p as int));
    assert forall|i: int| 0 <= i < nw.len() - 1 implies text_lt(#[trigger] nw[i], nw[i + 1]) by {
        if i < p - 1 {
            assert(nw[i] == w[i] && nw[i + 1] == w[i + 1]);
        } else if i == p - 1 {
        } else if i == p {
        } else {
            assert(nw[i] == w[i - 1] && nw[i + 1] == w[i]);
        }
    }
    assert(nw.to_set() =~= w.to_set().insert(sv)) by {
        assert forall|x: Seq<char>| nw.to_set().contains(x) implies w.to_set().insert(sv).contains(x) by {
            let i = choose|i: int| 0 <= i < nw.len() && nw[i] == x;
            if i < p {
                assert(w[i] == x);
            } else if i > p {
                assert(w[i - 1] == x);
            }
        }
        assert forall|x: Seq<char>| w.to_set().insert(sv).contains(x) implies nw.to_set().contains(x) by {
            if x == sv {
                assert(nw[p as int] == x);
            } else {
                let i = choose|i: int| 0 <= i < w.len() && w[i] == x;
                if i < p {
                    assert(nw[i] == x);
                } else {
                    assert(nw[i + 1] == x);
                }
            }
        }
    }
}

} // verus!
