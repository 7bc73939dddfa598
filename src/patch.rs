//! Where a documentation block goes in a file, and how edits are applied.

use vstd::prelude::*;
use crate::model::LlmDocResult;
use crate::regexes::{
    re_fn_sig, re_struct, regex_valid, sig_line_in, sig_line_near, Matcher, FN_SIG_PATTERN,
    STRUCT_PATTERN,
};
use vstd::utf8::{
    encode_utf8, encode_utf8_valid_utf8, is_char_boundary, is_char_boundary_iff_not_is_continuation_byte,
    is_char_boundary_start_end_of_seq, is_continuation_byte, valid_utf8, valid_utf8_concat,
    valid_utf8_split,
};
use crate::text::{
    bytes_of, char_boundary, string_from_utf8, append, append_str, blank, chars_of, is_blank, join, join_lines, lead_ws, lead_ws_len, line_or_empty,
    lines, occurs_at, same, slice_vec, split_lines, starts_with, string_of, trim_start, trimmed_starts_with,
    views,
};

verus! {

/// The comment marker that begins each documentation line.
pub open spec fn doc_marker() -> Seq<char> {
    seq!['/', '/', '/']
}

/// A line whose text, after leading whitespace, begins with the comment marker.
pub open spec fn is_doc_line(l: Seq<char>) -> bool {
    starts_with(trim_start(l), doc_marker())
}

/// A line that opens an outer or inner attribute.
pub open spec fn is_attr_line(l: Seq<char>) -> bool {
    starts_with(trim_start(l), seq!['#', '[']) || starts_with(trim_start(l), seq!['#', '!', '['])
}

/// A documentation line, or a `doc` attribute.
pub open spec fn is_docish_line(l: Seq<char>) -> bool {
    is_doc_line(l) || starts_with(trim_start(l), seq!['#', '!', '[', 'd', 'o', 'c'])
        || starts_with(trim_start(l), seq!['#', '[', 'd', 'o', 'c'])
}

/// Whether `l` is a documentation line.
pub fn doc_line(l: &[char]) -> (r: bool)
    ensures
        r == is_doc_line(l@),
{
    let m = vec!['/', '/', '/'];
    trimmed_starts_with(l, m.as_slice())
}

/// Whether `l` opens an attribute.
pub fn attr_line(l: &[char]) -> (r: bool)
    ensures
        r == is_attr_line(l@),
{
    let a = vec!['#', '['];
    let b = vec!['#', '!', '['];
    trimmed_starts_with(l, a.as_slice()) || trimmed_starts_with(l, b.as_slice())
}

/// Whether `l` is a documentation line or a `doc` attribute.
pub fn docish_line(l: &[char]) -> (r: bool)
    ensures
        r == is_docish_line(l@),
{
    let a = vec!['#', '!', '[', 'd', 'o', 'c'];
    let b = vec!['#', '[', 'd', 'o', 'c'];
    doc_line(l) || trimmed_starts_with(l, a.as_slice()) || trimmed_starts_with(l, b.as_slice())
}

/// First line of the run of documentation lines that ends right above line `j`.
pub open spec fn doc_start(ls: Seq<Seq<char>>, j: int) -> int
    decreases j,
{
    if 0 < j <= ls.len() && is_doc_line(ls[j - 1]) {
        doc_start(ls, j - 1)
    } else {
        j
    }
}

/// First line of the run of documentation lines or `doc` attributes that ends
/// right above line `j`.
pub open spec fn docish_start(ls: Seq<Seq<char>>, j: int) -> int
    decreases j,
{
    if 0 < j <= ls.len() && is_docish_line(ls[j - 1]) {
        docish_start(ls, j - 1)
    } else {
        j
    }
}

/// First line of the run of attribute lines that ends right above line `j`.
pub open spec fn attr_start(ls: Seq<Seq<char>>, j: int) -> int
    decreases j,
{
    if 0 < j <= ls.len() && is_attr_line(ls[j - 1]) {
        attr_start(ls, j - 1)
    } else {
        j
    }
}

/// Walking up from line `i`, the topmost attribute line reached: `top` is the
/// topmost one so far, and `below_attr` says that line `i + 1` is an
/// attribute line, so that one blank line at `i` may be passed over.
pub open spec fn attr_walk(ls: Seq<Seq<char>>, i: int, top: int, below_attr: bool) -> int
    decreases i + 1,
{
    if i < 0 || i >= ls.len() {
        top
    } else if is_attr_line(ls[i]) {
        attr_walk(ls, i - 1, i, true)
    } else if below_attr && is_blank(ls[i]) {
        attr_walk(ls, i - 1, top, false)
    } else {
        top
    }
}

/// The line that documentation of a type declared at `sig` is placed above:
/// the top of the attribute block over the declaration, or the declaration.
pub open spec fn type_anchor(ls: Seq<Seq<char>>, sig: int) -> int {
    attr_walk(ls, sig - 1, sig, false)
}

/// Where a documentation block goes.
#[derive(Debug, Clone, Copy, PartialEq, Eq, Structural)]
pub enum InsertWhere {
    /// Insert before this line.
    Before(usize),
    /// Replace the lines from the first up to the second, which stays.
    Replace(usize, usize),
}

/// The slot for a type declared at line `sig`.
pub open spec fn type_slot(ls: Seq<Seq<char>>, sig: int, overwrite: bool) -> Option<InsertWhere> {
    let a = type_anchor(ls, sig);
    if 0 < a <= ls.len() && is_doc_line(ls[a - 1]) {
        if overwrite {
            Some(InsertWhere::Replace(doc_start(ls, a - 1) as usize, a as usize))
        } else {
            None
        }
    } else {
        Some(InsertWhere::Before(a as usize))
    }
}

/// The slot for a field whose documentation goes at line `at`.
pub open spec fn field_slot(ls: Seq<Seq<char>>, at: int, overwrite: bool) -> Option<InsertWhere> {
    if at == 0 {
        Some(InsertWhere::Before(0))
    } else if at <= ls.len() && is_doc_line(ls[at - 1]) {
        if overwrite {
            Some(InsertWhere::Replace(doc_start(ls, at - 1) as usize, at as usize))
        } else {
            None
        }
    } else {
        Some(InsertWhere::Before(at as usize))
    }
}

/// The lines to replace for a function declared at the 1-based line
/// `start_line_1`: the documentation over it, and over its attribute block if
/// there is one, which then ends the range; without attributes, the range
/// ends at the declaration and takes in one blank line right above it.
pub open spec fn fn_range(ls: Seq<Seq<char>>, start_line_1: int) -> (int, int) {
    let sig = if start_line_1 > 0 {
        start_line_1 - 1
    } else {
        0
    };
    let lo = docish_start(ls, sig);
    let a = attr_start(ls, sig);
    if a < sig {
        let lo2 = docish_start(ls, a);
        (if lo2 < lo {
            lo2
        } else {
            lo
        }, a)
    } else if 0 < sig <= ls.len() && is_blank(ls[sig - 1]) && sig - 1 < lo {
        (sig - 1, sig)
    } else {
        (lo, sig)
    }
}

proof fn lemma_doc_start_bounds(ls: Seq<Seq<char>>, j: int)
    requires
        0 <= j,
    ensures
        0 <= doc_start(ls, j) <= j,
    decreases j,
{
    if 0 < j <= ls.len() && is_doc_line(ls[j - 1]) {
        lemma_doc_start_bounds(ls, j - 1);
    }
}

proof fn lemma_docish_start_bounds(ls: Seq<Seq<char>>, j: int)
    requires
        0 <= j,
    ensures
        0 <= docish_start(ls, j) <= j,
    decreases j,
{
    if 0 < j <= ls.len() && is_docish_line(ls[j - 1]) {
        lemma_docish_start_bounds(ls, j - 1);
    }
}

proof fn lemma_attr_start_bounds(ls: Seq<Seq<char>>, j: int)
    requires
        0 <= j,
    ensures
        0 <= attr_start(ls, j) <= j,
    decreases j,
{
    if 0 < j <= ls.len() && is_attr_line(ls[j - 1]) {
        lemma_attr_start_bounds(ls, j - 1);
    }
}

/// Computes `doc_start`.
fn doc_run_start(ls: &Vec<Vec<char>>, j: usize) -> (r: usize)
    ensures
        r == doc_start(views(ls@), j as int),
        r <= j,
{
    proof {
        lemma_doc_start_bounds(views(ls@), j as int);
    }
    let mut k = j;
    while k > 0 && k <= ls.len() && doc_line(ls[k - 1].as_slice())
        invariant
            k <= j,
            doc_start(views(ls@), k as int) == doc_start(views(ls@), j as int),
        decreases k,
    {
        k = k - 1;
    }
    k
}

/// Computes `docish_start`.
fn docish_run_start(ls: &Vec<Vec<char>>, j: usize) -> (r: usize)
    ensures
        r == docish_start(views(ls@), j as int),
        r <= j,
{
    proof {
        lemma_docish_start_bounds(views(ls@), j as int);
    }
    let mut k = j;
    while k > 0 && k <= ls.len() && docish_line(ls[k - 1].as_slice())
        invariant
            k <= j,
            docish_start(views(ls@), k as int) == docish_start(views(ls@), j as int),
        decreases k,
    {
        k = k - 1;
    }
    k
}

/// Computes `attr_start`.
fn attr_run_start(ls: &Vec<Vec<char>>, j: usize) -> (r: usize)
    ensures
        r == attr_start(views(ls@), j as int),
        r <= j,
{
    proof {
        lemma_attr_start_bounds(views(ls@), j as int);
    }
    let mut k = j;
    while k > 0 && k <= ls.len() && attr_line(ls[k - 1].as_slice())
        invariant
            k <= j,
            attr_start(views(ls@), k as int) == attr_start(views(ls@), j as int),
        decreases k,
    {
        k = k - 1;
    }
    k
}

/// Computes `type_anchor`.
fn type_anchor_of(ls: &Vec<Vec<char>>, sig: usize) -> (r: usize)
    ensures
        r == type_anchor(views(ls@), sig as int),
        r <= sig,
{
    let ghost v = views(ls@);
    let mut j = sig;
    let mut top = sig;
    let mut below = false;
    let mut done = false;
    while j > 0 && !done
        invariant
            j <= top <= sig,
            done ==> attr_walk(v, sig - 1, sig as int, false) == top,
            !done ==> attr_walk(v, sig - 1, sig as int, false) == attr_walk(
                v,
                j - 1,
                top as int,
                below,
            ),
            v == views(ls@),
        decreases j + (if done {
            0int
        } else {
            1int
        }),
    {
        let i = j - 1;
        if i >= ls.len() {
            done = true;
        } else if attr_line(ls[i].as_slice()) {
            top = i;
            below = true;
            j = i;
        } else if below && blank(ls[i].as_slice()) {
            below = false;
            j = i;
        } else {
            done = true;
        }
    }
    top
}

/// Where documentation for the type declared at 0-based line
/// `struct_sig_line0` goes: above the attribute block over the declaration,
/// replacing a documentation block found there when `overwrite` is set, and
/// `None` when such a block is there and `overwrite` is not set.
pub fn doc_slot_above_attrs(src: &str, struct_sig_line0: usize, overwrite: bool) -> (r: Option<
    InsertWhere,
>)
    ensures
        r == type_slot(lines(src@), struct_sig_line0 as int, overwrite),
{
    let cs = chars_of(src);
    let ls = split_lines(cs.as_slice());
    type_slot_in(&ls, struct_sig_line0, overwrite)
}

/// `type_slot` over lines already split.
pub fn type_slot_in(ls: &Vec<Vec<char>>, sig: usize, overwrite: bool) -> (r: Option<InsertWhere>)
    ensures
        r == type_slot(views(ls@), sig as int, overwrite),
{
    let a = type_anchor_of(ls, sig);
    if a > 0 && a <= ls.len() && doc_line(ls[a - 1].as_slice()) {
        if overwrite {
            let lo = doc_run_start(ls, a - 1);
            Some(InsertWhere::Replace(lo, a))
        } else {
            None
        }
    } else {
        Some(InsertWhere::Before(a))
    }
}

/// Where documentation for a field goes when it belongs at 0-based line
/// `insert_line0`: replacing the documentation block right above that line
/// when `overwrite` is set, `None` when such a block is there and `overwrite`
/// is not set, and before the line otherwise.
pub fn field_doc_slot(src: &str, insert_line0: usize, overwrite: bool) -> (r: Option<InsertWhere>)
    ensures
        r == field_slot(lines(src@), insert_line0 as int, overwrite),
{
    let cs = chars_of(src);
    let ls = split_lines(cs.as_slice());
    field_slot_in(&ls, insert_line0, overwrite)
}

/// `field_slot` over lines already split.
pub fn field_slot_in(ls: &Vec<Vec<char>>, at: usize, overwrite: bool) -> (r: Option<InsertWhere>)
    ensures
        r == field_slot(views(ls@), at as int, overwrite),
{
    if at == 0 {
        Some(InsertWhere::Before(0))
    } else if at <= ls.len() && doc_line(ls[at - 1].as_slice()) {
        if overwrite {
            let lo = doc_run_start(ls, at - 1);
            Some(InsertWhere::Replace(lo, at))
        } else {
            None
        }
    } else {
        Some(InsertWhere::Before(at))
    }
}

/// The range of lines `(lo, hi)` that documentation for the function declared
/// at the 1-based line `start_line_1` replaces (see `fn_range`).
pub fn find_doc_insertion_range(source: &str, start_line_1: usize) -> (r: (usize, usize))
    ensures
        (r.0 as int, r.1 as int) == fn_range(lines(source@), start_line_1 as int),
        r.0 <= r.1,
{
    let cs = chars_of(source);
    let ls = split_lines(cs.as_slice());
    fn_range_in(&ls, start_line_1)
}

/// `fn_range` over lines already split.
pub fn fn_range_in(ls: &Vec<Vec<char>>, start_line_1: usize) -> (r: (usize, usize))
    ensures
        (r.0 as int, r.1 as int) == fn_range(views(ls@), start_line_1 as int),
        r.0 <= r.1,
{
    let sig = if start_line_1 > 0 {
        start_line_1 - 1
    } else {
        0
    };
    let lo = docish_run_start(ls, sig);
    let a = attr_run_start(ls, sig);
    if a < sig {
        let lo2 = docish_run_start(ls, a);
        (if lo2 < lo {
            lo2
        } else {
            lo
        }, a)
    } else if sig > 0 && sig <= ls.len() && blank(ls[sig - 1].as_slice()) && sig - 1 < lo {
        (sig - 1, sig)
    } else {
        (lo, sig)
    }
}

/// A replacement of the bytes from `start` up to `end` of a text by `text`.
pub struct Edit {
    /// First byte replaced.
    pub start: usize,
    /// First byte kept after the replaced range.
    pub end: usize,
    /// What the range becomes.
    pub text: String,
}

impl View for Edit {
    type V = (int, int, Seq<char>);

    /// The range and the replacement.
    open spec fn view(&self) -> (int, int, Seq<char>) {
        (self.start as int, self.end as int, self.text@)
    }
}

/// The views of a list of edits.
pub open spec fn edit_views(es: Seq<Edit>) -> Seq<(int, int, Seq<char>)> {
    es.map_values(|e: Edit| e@)
}

/// The bytes `t` with the range from `start` up to `end` replaced by `x`.
pub open spec fn replace_range(t: Seq<u8>, start: int, end: int, x: Seq<u8>) -> Seq<u8> {
    t.take(start) + x + t.skip(end)
}

/// Whether the edit `e` applies to the UTF-8 bytes `t`: its range is in
/// order, within `t`, and both ends fall between characters.
pub open spec fn applies(t: Seq<u8>, e: (int, int, Seq<char>)) -> bool {
    0 <= e.0 <= e.1 <= t.len() && is_char_boundary(t, e.0) && is_char_boundary(t, e.1)
}

/// The UTF-8 bytes `t` after the edit `e`, or `t` itself when the edit's
/// range is reversed, runs past the end of `t`, or splits a character.
pub open spec fn apply_one(t: Seq<u8>, e: (int, int, Seq<char>)) -> Seq<u8> {
    if applies(t, e) {
        replace_range(t, e.0, e.1, encode_utf8(e.2))
    } else {
        t
    }
}

/// `t` after the edits, one after the other in the order given.
pub open spec fn apply_in_order(t: Seq<u8>, es: Seq<(int, int, Seq<char>)>) -> Seq<u8>
    decreases es.len(),
{
    if es.len() == 0 {
        t
    } else {
        apply_in_order(apply_one(t, es[0]), es.drop_first())
    }
}

/// `sorted` with `e` placed after every edit that starts at or after it.
pub open spec fn insert_desc(sorted: Seq<(int, int, Seq<char>)>, e: (int, int, Seq<char>)) -> Seq<
    (int, int, Seq<char>),
>
    decreases sorted.len(),
{
    if sorted.len() == 0 {
        seq![e]
    } else if sorted.last().0 >= e.0 {
        sorted.push(e)
    } else {
        insert_desc(sorted.drop_last(), e).push(sorted.last())
    }
}

/// The edits by descending start, edits with equal starts in their given order.
pub open spec fn by_start_desc(es: Seq<(int, int, Seq<char>)>) -> Seq<(int, int, Seq<char>)>
    decreases es.len(),
{
    if es.len() == 0 {
        seq![]
    } else {
        insert_desc(by_start_desc(es.drop_last()), es.last())
    }
}

/// `t` after the edits, from the last start to the first.
pub open spec fn edited(t: Seq<u8>, es: Seq<(int, int, Seq<char>)>) -> Seq<u8> {
    apply_in_order(t, by_start_desc(es))
}

proof fn lemma_insert_desc_at(
    sorted: Seq<(int, int, Seq<char>)>,
    e: (int, int, Seq<char>),
    p: int,
)
    requires
        0 <= p <= sorted.len(),
        forall|q: int| p <= q < sorted.len() ==> (#[trigger] sorted[q]).0 < e.0,
        p == 0 || sorted[p - 1].0 >= e.0,
    ensures
        insert_desc(sorted, e) == sorted.take(p) + seq![e] + sorted.skip(p),
    decreases sorted.len(),
{
    if sorted.len() == 0 {
        assert(sorted.take(p) + seq![e] + sorted.skip(p) =~= seq![e]);
    } else if sorted.last().0 >= e.0 {
        assert(p == sorted.len());
        assert(sorted.take(p) + seq![e] + sorted.skip(p) =~= sorted.push(e));
    } else {
        let d = sorted.drop_last();
        assert forall|q: int| p <= q < d.len() implies (#[trigger] d[q]).0 < e.0 by {
            assert(d[q] == sorted[q]);
        }
        lemma_insert_desc_at(d, e, p);
        assert(d.take(p) + seq![e] + d.skip(p) + seq![sorted.last()] =~= sorted.take(p) + seq![e]
            + sorted.skip(p));
    }
}

/// Applies the edits to `text` from the last start to the first, so that each
/// edit's byte offsets still refer to the text as given; an edit whose start
/// lies after its end, whose end lies past the text as it stands when its
/// turn comes, or whose ends fall inside a character, is skipped.
pub fn apply_edits(text: String, edits: Vec<Edit>) -> (r: String)
    ensures
        encode_utf8(r@) == edited(encode_utf8(text@), edit_views(edits@)),
{
    let ghost es = edit_views(edits@);
    let n = edits.len();
    let mut rest = edits;
    let mut sorted: Vec<Edit> = Vec::new();
    let mut k: usize = 0;
    assert(es.skip(0) =~= es);
    assert(es.take(0) =~= seq![]);
    while rest.len() > 0
        invariant
            k <= es.len(),
            n == es.len(),
            k + rest.len() == es.len(),
            edit_views(rest@) == es.skip(k as int),
            edit_views(sorted@) == by_start_desc(es.take(k as int)),
        decreases rest.len(),
    {
        let ghost old_rest = rest@;
        let e = rest.remove(0);
        assert(edit_views(old_rest)[0] == e@);
        assert(es.take(k + 1).drop_last() =~= es.take(k as int));
        assert(es.take(k + 1).last() == e@);
        let mut p = sorted.len();
        while p > 0 && sorted[p - 1].start < e.start
            invariant
                p <= sorted.len(),
                forall|q: int| p <= q < sorted.len() ==> (#[trigger] sorted@[q]).start < e.start,
            decreases p,
        {
            p = p - 1;
        }
        proof {
            let sv = edit_views(sorted@);
            assert forall|q: int| p <= q < sv.len() implies (#[trigger] sv[q]).0 < e@.0 by {
                assert(sv[q] == sorted@[q]@);
            }
            if p > 0 {
                assert(sv[p - 1] == sorted@[p - 1]@);
            }
            lemma_insert_desc_at(sv, e@, p as int);
        }
        let ghost old_sorted = edit_views(sorted@);
        let ghost ev = e@;
        sorted.insert(p, e);
        assert(edit_views(sorted@) =~= old_sorted.take(p as int) + seq![ev] + old_sorted.skip(p as int));
        assert(rest@ =~= old_rest.drop_first());
        assert(edit_views(rest@) =~= edit_views(old_rest).drop_first());
        assert(es.skip(k as int).drop_first() =~= es.skip(k + 1));
        assert(edit_views(rest@) =~= es.skip(k + 1));
        k = k + 1;
    }
    assert(es.take(k as int) =~= es);
    let mut cur = bytes_of(text.as_str());
    proof {
        encode_utf8_valid_utf8(text@);
    }
    let mut i: usize = 0;
    assert(edit_views(sorted@).skip(0) =~= edit_views(sorted@));
    while i < sorted.len()
        invariant
            i <= sorted.len(),
            valid_utf8(cur@),
            apply_in_order(cur@, edit_views(sorted@).skip(i as int)) == edited(
                encode_utf8(text@),
                es,
            ),
            edit_views(sorted@) == by_start_desc(es),
        decreases sorted.len() - i,
    {
        assert(edit_views(sorted@).skip(i as int).drop_first() =~= edit_views(sorted@).skip(i + 1));
        let e = &sorted[i];
        assert(edit_views(sorted@).skip(i as int)[0] == e@);
        if e.start <= e.end && e.end <= cur.len() && char_boundary(cur.as_slice(), e.start)
            && char_boundary(cur.as_slice(), e.end) {
            let mut next = byte_range(cur.as_slice(), 0, e.start);
            let x = bytes_of(e.text.as_str());
            append_bytes(&mut next, x.as_slice());
            let tail = byte_range(cur.as_slice(), e.end, cur.len());
            append_bytes(&mut next, tail.as_slice());
            proof {
                valid_utf8_split(cur@, e.start as int);
                valid_utf8_split(cur@, e.end as int);
                encode_utf8_valid_utf8(e.text@);
                valid_utf8_concat(cur@.subrange(0, e.start as int), x@);
                valid_utf8_concat(
                    cur@.subrange(0, e.start as int) + x@,
                    cur@.subrange(e.end as int, cur@.len() as int),
                );
            }
            assert(next@ =~= replace_range(cur@, e.start as int, e.end as int, encode_utf8(e.text@)));
            cur = next;
        }
        i = i + 1;
    }
    assert(edit_views(sorted@).skip(i as int) =~= seq![]);
    match string_from_utf8(cur) {
        Some(r) => r,
        None => {
            proof {
                assert(false);
            }
            String::new()
        },
    }
}

/// The bytes of `s` from `lo` up to `hi`.
fn byte_range(s: &[u8], lo: usize, hi: usize) -> (r: Vec<u8>)
    requires
        lo <= hi <= s.len(),
    ensures
        r@ == s@.subrange(lo as int, hi as int),
{
    let mut r: Vec<u8> = Vec::new();
    let mut i = lo;
    while i < hi
        invariant
            lo <= i <= hi <= s.len(),
            r@ == s@.subrange(lo as int, i as int),
        decreases hi - i,
    {
        r.push(s[i]);
        i = i + 1;
    }
    r
}

/// Appends the bytes `p` to `out`.
fn append_bytes(out: &mut Vec<u8>, p: &[u8])
    ensures
        final(out)@ == old(out)@ + p@,
{
    let mut i: usize = 0;
    while i < p.len()
        invariant
            i <= p.len(),
            out@ == old(out)@ + p@.subrange(0, i as int),
        decreases p.len() - i,
    {
        out.push(p[i]);
        i = i + 1;
    }
}

/// Whether a blank line belongs before a block inserted at 0-based line
/// `at`: the line above it is there and is not blank.
pub open spec fn needs_blank_above(ls: Seq<Seq<char>>, at: int) -> bool {
    at > 0 && !is_blank(line_or_empty(ls, at - 1))
}

/// Whether the line above 0-based line `insert_line0` is there and is not
/// blank.
pub fn needs_leading_blank_line(source: &str, insert_line0: usize) -> (r: bool)
    ensures
        r == needs_blank_above(lines(source@), insert_line0 as int),
{
    let cs = chars_of(source);
    let ls = split_lines(cs.as_slice());
    needs_blank_in(&ls, insert_line0)
}

/// `needs_blank_above` over lines already split.
pub fn needs_blank_in(ls: &Vec<Vec<char>>, at: usize) -> (r: bool)
    ensures
        r == needs_blank_above(views(ls@), at as int),
{
    if at == 0 {
        false
    } else if at - 1 < ls.len() {
        !blank(ls[at - 1].as_slice())
    } else {
        proof {
            assert(is_blank(Seq::<char>::empty()));
        }
        false
    }
}

/// `doc`, after a newline when the line above 0-based line `insert_line0` is
/// there and is not blank.
pub fn add_leading_blank_if_needed(source: &str, insert_line0: usize, doc: &str) -> (r: String)
    ensures
        r@ == (if needs_blank_above(lines(source@), insert_line0 as int) {
            seq!['\n'] + doc@
        } else {
            doc@
        }),
{
    let cs = chars_of(source);
    let ls = split_lines(cs.as_slice());
    let d = chars_of(doc);
    let v = with_blank_in(&ls, insert_line0, d);
    string_of(v.as_slice())
}

/// `doc`, after a newline when `needs_blank_above` holds at line `at`.
pub fn with_blank_in(ls: &Vec<Vec<char>>, at: usize, doc: Vec<char>) -> (r: Vec<char>)
    ensures
        r@ == (if needs_blank_above(views(ls@), at as int) {
            seq!['\n'] + doc@
        } else {
            doc@
        }),
{
    if needs_blank_in(ls, at) {
        let mut s: Vec<char> = Vec::new();
        s.push('\n');
        append(&mut s, doc.as_slice());
        s
    } else {
        doc
    }
}

/// `s` without its carriage returns.
pub open spec fn without_cr(s: Seq<char>) -> Seq<char>
    decreases s.len(),
{
    if s.len() == 0 {
        s
    } else if s.last() == '\r' {
        without_cr(s.drop_last())
    } else {
        without_cr(s.drop_last()).push(s.last())
    }
}

/// `s` without its carriage returns.
pub fn remove_cr(s: &[char]) -> (r: Vec<char>)
    ensures
        r@ == without_cr(s@),
{
    let mut r: Vec<char> = Vec::new();
    let mut i: usize = 0;
    assert(s@.take(0) =~= seq![]);
    while i < s.len()
        invariant
            i <= s.len(),
            r@ == without_cr(s@.take(i as int)),
        decreases s.len() - i,
    {
        assert(s@.take(i + 1).drop_last() =~= s@.take(i as int));
        if s[i] != '\r' {
            r.push(s[i]);
        }
        i = i + 1;
    }
    assert(s@.take(i as int) =~= s@);
    r
}

/// One line of a documentation block, indented by `indent`: a line with the
/// comment marker is kept, a blank line becomes a bare marker, and any other
/// line gets the marker and a space.
pub open spec fn indent_doc_line(indent: Seq<char>, l: Seq<char>) -> Seq<char> {
    if starts_with(l, doc_marker()) {
        indent + l
    } else if is_blank(l) {
        indent + doc_marker()
    } else {
        indent + doc_marker() + seq![' '] + l
    }
}

/// The lines of `doc` indented like `target`, each with the comment marker,
/// ending with one newline.
pub open spec fn indented(target: Seq<char>, doc: Seq<char>) -> Seq<char> {
    let indent = target.take(lead_ws(target) as int);
    join(lines(without_cr(doc)).map_values(|l: Seq<char>| indent_doc_line(indent, l))) + seq!['\n']
}

/// `doc` as a documentation block indented like `target_line`: each line
/// carries the comment marker after the indentation of `target_line`, and the
/// block ends with exactly one newline.
pub fn indent_like(target_line: &str, doc: &str) -> (r: String)
    ensures
        r@ == indented(target_line@, doc@),
{
    let t = chars_of(target_line);
    let d = chars_of(doc);
    let v = indent_like_chars(t.as_slice(), d.as_slice());
    string_of(v.as_slice())
}

/// `indented` over characters.
pub fn indent_like_chars(target: &[char], doc: &[char]) -> (r: Vec<char>)
    ensures
        r@ == indented(target@, doc@),
{
    let n = lead_ws_len(target);
    let indent = slice_vec(target, 0, n);
    let clean = remove_cr(doc);
    let ls = split_lines(clean.as_slice());
    let mut out_lines: Vec<Vec<char>> = Vec::new();
    let marker = vec!['/', '/', '/'];
    let ghost f = |l: Seq<char>| indent_doc_line(indent@, l);
    let mut i: usize = 0;
    while i < ls.len()
        invariant
            i <= ls.len(),
            marker@ == doc_marker(),
            views(out_lines@) == views(ls@).take(i as int).map_values(f),
            f == (|l: Seq<char>| indent_doc_line(indent@, l)),
        decreases ls.len() - i,
    {
        let l = &ls[i];
        let mut o: Vec<char> = Vec::new();
        append(&mut o, indent.as_slice());
        if occurs_at(l.as_slice(), 0, marker.as_slice()) {
            append(&mut o, l.as_slice());
        } else if blank(l.as_slice()) {
            append(&mut o, marker.as_slice());
        } else {
            append(&mut o, marker.as_slice());
            o.push(' ');
            append(&mut o, l.as_slice());
        }
        assert(l@.skip(0) =~= l@);
        assert(o@ =~= indent_doc_line(indent@, l@));
        let ghost before = views(out_lines@);
        out_lines.push(o);
        assert(views(out_lines@) =~= before.push(o@));
        assert(views(ls@).take(i + 1).map_values(f) =~= views(ls@).take(i as int).map_values(f).push(
            f(views(ls@)[i as int]),
        ));
        i = i + 1;
    }
    assert(views(ls@).take(i as int) =~= views(ls@));
    let mut out = join_lines(&out_lines);
    out.push('\n');
    out
}

// ---------------------------------------------------------------- the pass

/// Byte offsets of the line starts of the bytes `s`: 0 and every position
/// after a newline.
pub open spec fn starts_upto(s: Seq<u8>) -> Seq<int>
    decreases s.len(),
{
    if s.len() == 0 {
        seq![0]
    } else if s.last() == 10u8 {
        starts_upto(s.drop_last()).push(s.len() as int)
    } else {
        starts_upto(s.drop_last())
    }
}

/// The line starts of the bytes `s`, then their length.
pub open spec fn line_starts(s: Seq<u8>) -> Seq<int> {
    starts_upto(s).push(s.len() as int)
}

/// Entry `i` of `ss`, or `d` past its end.
pub open spec fn entry_or(ss: Seq<int>, i: int, d: int) -> int {
    if 0 <= i < ss.len() {
        ss[i]
    } else {
        d
    }
}

/// The declaration that `pattern` finds near line `start0`, when the pattern compiles.
pub open spec fn located(ls: Seq<Seq<char>>, start0: int, pattern: Seq<char>) -> Option<int> {
    if regex_valid(pattern) {
        sig_line_near(ls, start0, pattern)
    } else {
        None
    }
}

pub open spec fn min_of(a: int, b: int) -> int {
    if a < b {
        a
    } else {
        b
    }
}

/// The lines `(lo, hi)` to replace for an item of `kind` hinted at line
/// `start0`, and the line whose indentation the block takes; or why there
/// are none: `Err(true)` when no declaration was found, `Err(false)` when a
/// documentation block is there and `overwrite` is not set.
pub open spec fn item_slot(ls: Seq<Seq<char>>, kind: Seq<char>, start0: int, overwrite: bool) -> Result<
    (int, int, int),
    bool,
> {
    if kind == "struct"@ {
        match located(ls, start0, STRUCT_PATTERN@) {
            None => Err(true),
            Some(sig) => match type_slot(ls, sig, overwrite) {
                Some(InsertWhere::Before(i)) => Ok((i as int, i as int, min_of(i as int, sig))),
                Some(InsertWhere::Replace(lo, hi)) => Ok((lo as int, hi as int, min_of(hi as int, sig))),
                None => Err(false),
            },
        }
    } else if kind == "field"@ {
        match field_slot(ls, start0, overwrite) {
            Some(InsertWhere::Before(i)) => Ok((i as int, i as int, i as int)),
            Some(InsertWhere::Replace(lo, hi)) => Ok((lo as int, hi as int, hi as int)),
            None => Err(false),
        }
    } else {
        match located(ls, start0, FN_SIG_PATTERN@) {
            None => Err(true),
            Some(sig) => {
                let r = fn_range(ls, sig + 1);
                Ok((r.0, r.1, sig))
            },
        }
    }
}

/// Whether a documentation line or `doc` attribute lies among the lines
/// from `lo` up to `hi`.
pub open spec fn doc_in_range(ls: Seq<Seq<char>>, lo: int, hi: int) -> bool {
    exists|k: int| lo <= k < hi && 0 <= k < ls.len() && #[trigger] is_docish_line(ls[k])
}

/// The edit that places the documentation of `r` in `src`, or why there is
/// none (see `item_slot`); `None` when `r` has no line hint.
pub open spec fn item_edit(src: Seq<char>, r: LlmDocResult, overwrite: bool) -> Option<
    Result<(int, int, Seq<char>), bool>,
> {
    match r.start_line {
        None => None,
        Some(s1) => {
            let ls = lines(src);
            let start0 = if s1 > 0 {
                s1 - 1
            } else {
                0
            };
            match item_slot(ls, r.kind@, start0, overwrite) {
                Err(e) => Some(Err(e)),
                Ok(slot) => {
                    let lo = slot.0;
                    let hi = slot.1;
                    if !overwrite && doc_in_range(
                        ls,
                        min_of(lo, ls.len() as int),
                        min_of(hi, ls.len() as int),
                    ) {
                        Some(Err(false))
                    } else {
                        let ss = line_starts(encode_utf8(src));
                        let sb = entry_or(ss, lo, 0);
                        let eb = entry_or(ss, hi, sb);
                        let body = indented(line_or_empty(ls, slot.2), r.llm_doc@);
                        let text = if r.kind@ != "field"@ && needs_blank_above(ls, lo) {
                            seq!['\n'] + body
                        } else {
                            body
                        };
                        Some(Ok((sb, eb, text)))
                    }
                },
            }
        },
    }
}

/// The results that belong to `file`, in their order.
pub open spec fn file_items(results: Seq<LlmDocResult>, file: Seq<char>) -> Seq<LlmDocResult>
    decreases results.len(),
{
    if results.len() == 0 {
        seq![]
    } else if results.last().file@ == file {
        file_items(results.drop_last(), file).push(results.last())
    } else {
        file_items(results.drop_last(), file)
    }
}

/// The line hint of `r`, 0 without one.
pub open spec fn start_key(r: LlmDocResult) -> int {
    match r.start_line {
        Some(s) => s as int,
        None => 0,
    }
}

/// `sorted` with `r` placed after every item whose hint is at most its own.
pub open spec fn insert_by_line(sorted: Seq<LlmDocResult>, r: LlmDocResult) -> Seq<LlmDocResult>
    decreases sorted.len(),
{
    if sorted.len() == 0 {
        seq![r]
    } else if start_key(sorted.last()) <= start_key(r) {
        sorted.push(r)
    } else {
        insert_by_line(sorted.drop_last(), r).push(sorted.last())
    }
}

/// The items by ascending line hint, items with equal hints in their order.
pub open spec fn by_start_line(items: Seq<LlmDocResult>) -> Seq<LlmDocResult>
    decreases items.len(),
{
    if items.len() == 0 {
        seq![]
    } else {
        insert_by_line(by_start_line(items.drop_last()), items.last())
    }
}

/// The edits for `items`, in their order, with the number of items skipped
/// for want of a declaration and for an existing documentation block.
pub open spec fn plan(src: Seq<char>, items: Seq<LlmDocResult>, overwrite: bool) -> (
    Seq<(int, int, Seq<char>)>,
    nat,
    nat,
)
    decreases items.len(),
{
    if items.len() == 0 {
        (seq![], 0, 0)
    } else {
        let p = plan(src, items.drop_last(), overwrite);
        match item_edit(src, items.last(), overwrite) {
            None => p,
            Some(Err(true)) => (p.0, p.1 + 1, p.2),
            Some(Err(false)) => (p.0, p.1, p.2 + 1),
            Some(Ok(e)) => (p.0.push(e), p.1, p.2),
        }
    }
}

/// The plan for the results of `file`, taken by ascending line hint.
pub open spec fn file_plan(src: Seq<char>, results: Seq<LlmDocResult>, file: Seq<char>, overwrite: bool) -> (
    Seq<(int, int, Seq<char>)>,
    nat,
    nat,
) {
    plan(src, by_start_line(file_items(results, file)), overwrite)
}

/// What one file became.
pub struct PatchOutcome {
    /// The new text of the file.
    pub text: String,
    /// Number of edits made.
    pub edits: usize,
    /// Items skipped because no declaration was found near their hint.
    pub skipped_no_sig: usize,
    /// Items skipped because documentation is there and overwriting is off.
    pub skipped_existing_doc: usize,
}

fn line_starts_of(s: &[u8]) -> (r: Vec<usize>)
    ensures
        r@.map_values(|x: usize| x as int) == line_starts(s@),
        forall|i: int| 0 <= i < r@.len() ==> #[trigger] r@[i] <= s.len(),
{
    let mut r: Vec<usize> = Vec::new();
    r.push(0);
    let mut i: usize = 0;
    assert(s@.take(0) =~= seq![]);
    assert(r@.map_values(|x: usize| x as int) =~= seq![0int]);
    while i < s.len()
        invariant
            i <= s.len(),
            r@.map_values(|x: usize| x as int) == starts_upto(s@.take(i as int)),
            forall|k: int| 0 <= k < r@.len() ==> #[trigger] r@[k] <= i,
        decreases s.len() - i,
    {
        assert(s@.take(i + 1).drop_last() =~= s@.take(i as int));
        if s[i] == 10u8 {
            let ghost before = r@.map_values(|x: usize| x as int);
            r.push(i + 1);
            assert(r@.map_values(|x: usize| x as int) =~= before.push(i + 1));
        }
        i = i + 1;
    }
    assert(s@.take(i as int) =~= s@);
    let ghost before = r@.map_values(|x: usize| x as int);
    r.push(s.len());
    assert(r@.map_values(|x: usize| x as int) =~= before.push(s.len() as int));
    r
}

fn slot_in(
    ls: &Vec<Vec<char>>,
    is_struct: bool,
    is_field: bool,
    start0: usize,
    overwrite: bool,
    fn_re: &Option<Matcher>,
    st_re: &Option<Matcher>,
) -> (r: Result<(usize, usize, usize), bool>)
    requires
        fn_re is Some <==> regex_valid(FN_SIG_PATTERN@),
        fn_re matches Some(m) ==> m.pattern() == FN_SIG_PATTERN@,
        st_re is Some <==> regex_valid(STRUCT_PATTERN@),
        st_re matches Some(m) ==> m.pattern() == STRUCT_PATTERN@,
    ensures
        ({
            let kind = if is_struct {
                "struct"@
            } else if is_field {
                "field"@
            } else {
                "fn"@
            };
            match r {
                Ok(t) => item_slot(views(ls@), kind, start0 as int, overwrite) == Ok::<
                    (int, int, int),
                    bool,
                >((t.0 as int, t.1 as int, t.2 as int)),
                Err(e) => item_slot(views(ls@), kind, start0 as int, overwrite) == Err::<
                    (int, int, int),
                    bool,
                >(e),
            }
        }),
{
    proof {
        reveal_strlit("struct");
        reveal_strlit("field");
        reveal_strlit("fn");
        assert("fn"@.len() != "struct"@.len());
        assert("fn"@.len() != "field"@.len());
        assert("field"@.len() != "struct"@.len());
    }
    if is_struct {
        let sig = match st_re {
            Some(m) => sig_line_in(ls, start0, m),
            None => None,
        };
        match sig {
            None => Err(true),
            Some(sig) => match type_slot_in(ls, sig, overwrite) {
                Some(InsertWhere::Before(i)) => Ok((i, i, if i < sig {
                    i
                } else {
                    sig
                })),
                Some(InsertWhere::Replace(lo, hi)) => Ok((lo, hi, if hi < sig {
                    hi
                } else {
                    sig
                })),
                None => Err(false),
            },
        }
    } else if is_field {
        match field_slot_in(ls, start0, overwrite) {
            Some(InsertWhere::Before(i)) => Ok((i, i, i)),
            Some(InsertWhere::Replace(lo, hi)) => Ok((lo, hi, hi)),
            None => Err(false),
        }
    } else {
        let sig = match fn_re {
            Some(m) => sig_line_in(ls, start0, m),
            None => None,
        };
        match sig {
            None => Err(true),
            Some(sig) => {
                let r = fn_range_in(ls, sig + 1);
                Ok((r.0, r.1, sig))
            },
        }
    }
}

fn doc_between(ls: &Vec<Vec<char>>, lo: usize, hi: usize) -> (r: bool)
    requires
        hi <= ls.len(),
    ensures
        r == doc_in_range(views(ls@), lo as int, hi as int),
{
    let mut k = lo;
    while k < hi
        invariant
            lo <= k,
            hi <= ls.len(),
            forall|j: int| lo <= j < k ==> !is_docish_line(#[trigger] views(ls@)[j]),
        decreases hi - k,
    {
        if docish_line(ls[k].as_slice()) {
            assert(is_docish_line(views(ls@)[k as int]));
            return true;
        }
        k = k + 1;
    }
    false
}

fn edit_for(
    cs: &Vec<char>,
    ls: &Vec<Vec<char>>,
    ss: &Vec<usize>,
    r: &LlmDocResult,
    overwrite: bool,
    fn_re: &Option<Matcher>,
    st_re: &Option<Matcher>,
) -> (out: Option<Result<Edit, bool>>)
    requires
        views(ls@) == lines(cs@),
        ss@.map_values(|x: usize| x as int) == line_starts(encode_utf8(cs@)),
        fn_re is Some <==> regex_valid(FN_SIG_PATTERN@),
        fn_re matches Some(m) ==> m.pattern() == FN_SIG_PATTERN@,
        st_re is Some <==> regex_valid(STRUCT_PATTERN@),
        st_re matches Some(m) ==> m.pattern() == STRUCT_PATTERN@,
    ensures
        out is None ==> item_edit(cs@, *r, overwrite) is None,
        out matches Some(Err(e)) ==> item_edit(cs@, *r, overwrite) == Some(
            Err::<(int, int, Seq<char>), bool>(e),
        ),
        out matches Some(Ok(e)) ==> item_edit(cs@, *r, overwrite) == Some(
            Ok::<(int, int, Seq<char>), bool>(e@),
        ),
{
    let s1 = match r.start_line {
        None => {
            return None;
        },
        Some(s1) => s1,
    };
    let start0: usize = if s1 > 0 {
        (s1 - 1) as usize
    } else {
        0
    };
    let kind = chars_of(r.kind.as_str());
    let is_struct = same(kind.as_slice(), chars_of("struct").as_slice());
    let is_field = same(kind.as_slice(), chars_of("field").as_slice());
    proof {
        reveal_strlit("struct");
        reveal_strlit("field");
        reveal_strlit("fn");
        assert("fn"@.len() != "struct"@.len());
        assert("fn"@.len() != "field"@.len());
        assert("field"@.len() != "struct"@.len());
        if !is_struct && !is_field {
            assert(item_slot(views(ls@), kind@, start0 as int, overwrite) == item_slot(
                views(ls@),
                "fn"@,
                start0 as int,
                overwrite,
            ));
        }
    }
    let (lo, hi, ind) = match slot_in(ls, is_struct, is_field, start0, overwrite, fn_re, st_re) {
        Err(e) => {
            return Some(Err(e));
        },
        Ok(t) => t,
    };
    let n = ls.len();
    let lo2 = if lo < n {
        lo
    } else {
        n
    };
    let hi2 = if hi < n {
        hi
    } else {
        n
    };
    if !overwrite && doc_between(ls, lo2, hi2) {
        return Some(Err(false));
    }
    let ghost sv = ss@.map_values(|x: usize| x as int);
    let sb = if lo < ss.len() {
        ss[lo]
    } else {
        0
    };
    let eb = if hi < ss.len() {
        ss[hi]
    } else {
        sb
    };
    assert(sb as int == entry_or(sv, lo as int, 0));
    assert(eb as int == entry_or(sv, hi as int, sb as int));
    let target: Vec<char> = if ind < ls.len() {
        ls[ind].clone()
    } else {
        Vec::new()
    };
    assert(target@ == line_or_empty(views(ls@), ind as int));
    let doc = chars_of(r.llm_doc.as_str());
    let body = indent_like_chars(target.as_slice(), doc.as_slice());
    let text = if !is_field {
        with_blank_in(ls, lo, body)
    } else {
        body
    };
    proof {
        reveal_strlit("field");
    }
    let e = Edit { start: sb, end: eb, text: string_of(text.as_slice()) };
    Some(Ok(e))
}

/// Places the documentation of the results that belong to `file` in
/// `source`, the file's text: results by ascending line hint, each
/// resolved against the text as given, all edits applied at once.
pub fn patch_source(source: &str, file: &str, results: &[LlmDocResult], overwrite: bool) -> (r:
    PatchOutcome)
    ensures
        encode_utf8(r.text@) == edited(
            encode_utf8(source@),
            file_plan(source@, results@, file@, overwrite).0,
        ),
        r.edits == file_plan(source@, results@, file@, overwrite).0.len(),
        r.skipped_no_sig == file_plan(source@, results@, file@, overwrite).1,
        r.skipped_existing_doc == file_plan(source@, results@, file@, overwrite).2,
{
    let cs = chars_of(source);
    let ls = split_lines(cs.as_slice());
    let sb = bytes_of(source);
    let ss = line_starts_of(sb.as_slice());
    let fn_re = re_fn_sig();
    let st_re = re_struct();
    let fc = chars_of(file);
    let mut mine: Vec<&LlmDocResult> = Vec::new();
    let mut i: usize = 0;
    assert(results@.take(0) =~= seq![]);
    while i < results.len()
        invariant
            i <= results.len(),
            fc@ == file@,
            derefs(mine@) == by_start_line(file_items(results@.take(i as int), file@)),
        decreases results.len() - i,
    {
        let r = &results[i];
        assert(results@.take(i + 1).drop_last() =~= results@.take(i as int));
        assert(results@.take(i + 1).last() == *r);
        let rf = chars_of(r.file.as_str());
        if same(rf.as_slice(), fc.as_slice()) {
            let key = key_of(r);
            let mut p = mine.len();
            while p > 0 && key_of(mine[p - 1]) > key
                invariant
                    p <= mine.len(),
                    key as int == start_key(*r),
                    forall|q: int|
                        p <= q < mine@.len() ==> start_key(*#[trigger] mine@[q]) > start_key(*r),
                decreases p,
            {
                p = p - 1;
            }
            proof {
                let d = derefs(mine@);
                assert forall|q: int| p <= q < d.len() implies start_key(#[trigger] d[q]) > start_key(
                    *r,
                ) by {
                    assert(d[q] == *mine@[q]);
                }
                if p > 0 {
                    assert(d[p - 1] == *mine@[p - 1]);
                }
                lemma_insert_by_line_at(d, *r, p as int);
            }
            let ghost old_mine = derefs(mine@);
            let ghost fi = file_items(results@.take(i as int), file@);
            assert(fi.push(*r).drop_last() =~= fi);
            assert(file_items(results@.take(i + 1), file@) == fi.push(*r));
            mine.insert(p, r);
            assert(derefs(mine@) =~= old_mine.take(p as int) + seq![*r] + old_mine.skip(p as int));
        }
        i = i + 1;
    }
    assert(results@.take(i as int) =~= results@);
    let ghost items = derefs(mine@);
    let mut edits: Vec<Edit> = Vec::new();
    let mut no_sig: usize = 0;
    let mut existing: usize = 0;
    let mut k: usize = 0;
    assert(items.take(0) =~= seq![]);
    while k < mine.len()
        invariant
            k <= mine.len(),
            items == derefs(mine@),
            views(ls@) == lines(cs@),
            ss@.map_values(|x: usize| x as int) == line_starts(encode_utf8(cs@)),
            fn_re is Some <==> regex_valid(FN_SIG_PATTERN@),
            fn_re matches Some(m) ==> m.pattern() == FN_SIG_PATTERN@,
            st_re is Some <==> regex_valid(STRUCT_PATTERN@),
            st_re matches Some(m) ==> m.pattern() == STRUCT_PATTERN@,
            no_sig <= k,
            existing <= k,
            edits.len() <= k,
            plan(cs@, items.take(k as int), overwrite) == (
                edit_views(edits@),
                no_sig as nat,
                existing as nat,
            ),
        decreases mine.len() - k,
    {
        assert(items.take(k + 1).drop_last() =~= items.take(k as int));
        assert(items.take(k + 1).last() == *mine@[k as int]);
        match edit_for(&cs, &ls, &ss, mine[k], overwrite, &fn_re, &st_re) {
            None => {},
            Some(Err(true)) => {
                no_sig = no_sig + 1;
            },
            Some(Err(false)) => {
                existing = existing + 1;
            },
            Some(Ok(e)) => {
                let ghost before = edit_views(edits@);
                let ghost ev = e@;
                edits.push(e);
                assert(edit_views(edits@) =~= before.push(ev));
            },
        }
        k = k + 1;
    }
    assert(items.take(k as int) =~= items);
    let n = edits.len();
    let text = apply_edits(string_of(cs.as_slice()), edits);
    PatchOutcome { text, edits: n, skipped_no_sig: no_sig, skipped_existing_doc: existing }
}

/// The items that a list of references points at.
pub open spec fn derefs(s: Seq<&LlmDocResult>) -> Seq<LlmDocResult> {
    s.map_values(|r: &LlmDocResult| *r)
}

fn key_of(r: &LlmDocResult) -> (k: u32)
    ensures
        k as int == start_key(*r),
{
    match r.start_line {
        Some(s) => s,
        None => 0,
    }
}

proof fn lemma_insert_by_line_at(sorted: Seq<LlmDocResult>, r: LlmDocResult, p: int)
    requires
        0 <= p <= sorted.len(),
        forall|q: int| p <= q < sorted.len() ==> start_key(#[trigger] sorted[q]) > start_key(r),
        p == 0 || start_key(sorted[p - 1]) <= start_key(r),
    ensures
        insert_by_line(sorted, r) == sorted.take(p) + seq![r] + sorted.skip(p),
    decreases sorted.len(),
{
    if sorted.len() == 0 {
        assert(sorted.take(p) + seq![r] + sorted.skip(p) =~= seq![r]);
    } else if start_key(sorted.last()) <= start_key(r) {
        assert(p == sorted.len());
        assert(sorted.take(p) + seq![r] + sorted.skip(p) =~= sorted.push(r));
    } else {
        let d = sorted.drop_last();
        assert forall|q: int| p <= q < d.len() implies start_key(#[trigger] d[q]) > start_key(r) by {
            assert(d[q] == sorted[q]);
        }
        lemma_insert_by_line_at(d, r, p);
        assert(d.take(p) + seq![r] + d.skip(p) + seq![sorted.last()] =~= sorted.take(p) + seq![r]
            + sorted.skip(p));
    }
}

/// An edit leaves the text outside its range as it was: applying one edit
/// that applies to the UTF-8 bytes `t` keeps every byte before `start` and
/// after `end`, and puts the replacement's bytes between them.
pub proof fn lemma_edit_keeps_outside(t: Seq<u8>, e: (int, int, Seq<char>))
    requires
        applies(t, e),
    ensures
        edited(t, seq![e]) == t.take(e.0) + encode_utf8(e.2) + t.skip(e.1),
        edited(t, seq![e]).take(e.0) == t.take(e.0),
        edited(t, seq![e]).skip(e.0 + encode_utf8(e.2).len()) == t.skip(e.1),
{
    let es = seq![e];
    assert(es.drop_last() =~= Seq::<(int, int, Seq<char>)>::empty());
    let none = Seq::<(int, int, Seq<char>)>::empty();
    assert(by_start_desc(none) == none);
    assert(es.last() == e);
    assert(insert_desc(none, e) == seq![e]);
    assert(by_start_desc(es) == insert_desc(by_start_desc(es.drop_last()), es.last()));
    assert(by_start_desc(es) =~= seq![e]);
    let x = encode_utf8(e.2);
    let r = replace_range(t, e.0, e.1, x);
    assert(apply_in_order(r, none) == r);
    assert(seq![e].drop_first() =~= none);
    assert(apply_one(t, e) == r);
    assert(edited(t, es) == apply_in_order(apply_one(t, es[0]), es.drop_first()));
    assert(edited(t, es) == r);
    assert(r.take(e.0) =~= t.take(e.0));
    assert(r.skip(e.0 + x.len()) =~= t.skip(e.1));
}

/// A pass that plans no edit for a file, every item of it skipped for an
/// existing documentation block or a missing declaration, leaves the file's
/// text as it was.
pub proof fn lemma_no_edit_no_change(
    source: Seq<char>,
    results: Seq<LlmDocResult>,
    file: Seq<char>,
    overwrite: bool,
)
    requires
        file_plan(source, results, file, overwrite).0.len() == 0,
    ensures
        edited(encode_utf8(source), file_plan(source, results, file, overwrite).0) == encode_utf8(
            source,
        ),
{
    let es = file_plan(source, results, file, overwrite).0;
    assert(es =~= Seq::<(int, int, Seq<char>)>::empty());
    assert(by_start_desc(es) == Seq::<(int, int, Seq<char>)>::empty());
}

proof fn lemma_insert_desc_members(sorted: Seq<(int, int, Seq<char>)>, e: (int, int, Seq<char>))
    ensures
        forall|x: (int, int, Seq<char>)| #[trigger] insert_desc(sorted, e).contains(x) ==> x == e
            || sorted.contains(x),
    decreases sorted.len(),
{
    if sorted.len() > 0 && sorted.last().0 < e.0 {
        lemma_insert_desc_members(sorted.drop_last(), e);
        let r = insert_desc(sorted.drop_last(), e);
        assert forall|x: (int, int, Seq<char>)| #[trigger] r.push(sorted.last()).contains(x) implies x
            == e || sorted.contains(x) by {
            let k = choose|k: int| 0 <= k < r.push(sorted.last()).len() && r.push(sorted.last())[k]
                == x;
            if k < r.len() {
                assert(r.contains(x));
                if x != e {
                    let j = choose|j: int| 0 <= j < sorted.drop_last().len() && sorted.drop_last()[j]
                        == x;
                    assert(sorted[j] == x);
                }
            } else {
                assert(sorted[sorted.len() - 1] == x);
            }
        }
    } else if sorted.len() > 0 {
        assert forall|x: (int, int, Seq<char>)| #[trigger] sorted.push(e).contains(x) implies x == e
            || sorted.contains(x) by {
            let k = choose|k: int| 0 <= k < sorted.push(e).len() && sorted.push(e)[k] == x;
            if k < sorted.len() {
                assert(sorted[k] == x);
            }
        }
    }
}

proof fn lemma_by_start_desc_members(es: Seq<(int, int, Seq<char>)>)
    ensures
        forall|x: (int, int, Seq<char>)| #[trigger] by_start_desc(es).contains(x) ==> es.contains(x),
    decreases es.len(),
{
    if es.len() > 0 {
        lemma_by_start_desc_members(es.drop_last());
        lemma_insert_desc_members(by_start_desc(es.drop_last()), es.last());
        assert forall|x: (int, int, Seq<char>)| #[trigger] by_start_desc(es).contains(x) implies es.contains(
            x,
        ) by {
            if x == es.last() {
                assert(es[es.len() - 1] == x);
            } else {
                assert(by_start_desc(es.drop_last()).contains(x));
                let j = choose|j: int| 0 <= j < es.drop_last().len() && es.drop_last()[j] == x;
                assert(es[j] == x);
            }
        }
    }
}

proof fn lemma_apply_keeps_prefix(t: Seq<u8>, es: Seq<(int, int, Seq<char>)>, m: int)
    requires
        0 <= m <= t.len(),
        forall|k: int| 0 <= k < es.len() ==> (#[trigger] es[k]).0 >= m,
    ensures
        apply_in_order(t, es).len() >= m,
        apply_in_order(t, es).take(m) == t.take(m),
    decreases es.len(),
{
    if es.len() > 0 {
        let t1 = apply_one(t, es[0]);
        assert(t1.len() >= m && t1.take(m) =~= t.take(m));
        assert forall|k: int| 0 <= k < es.drop_first().len() implies (#[trigger] es.drop_first()[k]).0
            >= m by {
            assert(es.drop_first()[k] == es[k + 1]);
        }
        lemma_apply_keeps_prefix(t1, es.drop_first(), m);
        assert(apply_in_order(t1, es.drop_first()).take(m) =~= t1.take(m));
    }
}

/// No edit of a batch touches the text before the first place any of them
/// starts: when every edit starts at or after byte `m` (within the text),
/// the first `m` bytes come out as they went in.
pub proof fn lemma_edits_keep_prefix(t: Seq<u8>, es: Seq<(int, int, Seq<char>)>, m: int)
    requires
        0 <= m <= t.len(),
        forall|k: int| 0 <= k < es.len() ==> (#[trigger] es[k]).0 >= m,
    ensures
        edited(t, es).take(m) == t.take(m),
{
    let sorted = by_start_desc(es);
    lemma_by_start_desc_members(es);
    assert forall|k: int| 0 <= k < sorted.len() implies (#[trigger] sorted[k]).0 >= m by {
        assert(sorted.contains(sorted[k]));
        let j = choose|j: int| 0 <= j < es.len() && es[j] == sorted[k];
    }
    lemma_apply_keeps_prefix(t, sorted, m);
}

/// Each of the edits `ds` starts at or before its end, and each ends at or
/// before the start of the one before it.
pub open spec fn separated(ds: Seq<(int, int, Seq<char>)>) -> bool {
    &&& forall|k: int| 0 <= k < ds.len() ==> (#[trigger] ds[k]).0 <= ds[k].1
    &&& forall|k: int| 0 < k < ds.len() ==> (#[trigger] ds[k]).1 <= ds[k - 1].0
}

/// The bytes `t` with the separated edits `ds` spliced in: the text's own
/// bytes before, between and after the edits, and each edit's replacement
/// in its place.
pub open spec fn spliced(t: Seq<u8>, ds: Seq<(int, int, Seq<char>)>) -> Seq<u8>
    decreases ds.len(),
{
    if ds.len() == 0 {
        t
    } else {
        spliced(t.take(ds[0].0), ds.drop_first()) + encode_utf8(ds[0].2) + t.skip(ds[0].1)
    }
}

proof fn lemma_boundary_concat(p: Seq<u8>, q: Seq<u8>, i: int)
    requires
        valid_utf8(p),
        valid_utf8(q),
        0 <= i <= p.len(),
    ensures
        valid_utf8(p + q),
        is_char_boundary(p + q, i) == is_char_boundary(p, i),
{
    valid_utf8_concat(p, q);
    is_char_boundary_start_end_of_seq(p);
    is_char_boundary_start_end_of_seq(q);
    if i == 0 {
    } else if i < p.len() {
        is_char_boundary_iff_not_is_continuation_byte(p + q, i);
        is_char_boundary_iff_not_is_continuation_byte(p, i);
        assert((p + q)[i] == p[i]);
    } else if q.len() == 0 {
        assert(p + q =~= p);
    } else {
        is_char_boundary_iff_not_is_continuation_byte(p + q, i);
        is_char_boundary_iff_not_is_continuation_byte(q, 0);
        assert((p + q)[i] == q[0]);
    }
}

proof fn lemma_apply_on_prefix(p: Seq<u8>, q: Seq<u8>, ds: Seq<(int, int, Seq<char>)>)
    requires
        valid_utf8(p),
        valid_utf8(q),
        separated(ds),
        ds.len() > 0 ==> ds[0].1 <= p.len(),
    ensures
        apply_in_order(p + q, ds) == apply_in_order(p, ds) + q,
        valid_utf8(apply_in_order(p, ds)),
    decreases ds.len(),
{
    if ds.len() > 0 {
        let e = ds[0];
        let rest = ds.drop_first();
        assert(separated(rest)) by {
            assert forall|k: int| 0 <= k < rest.len() implies (#[trigger] rest[k]).0 <= rest[k].1 by {
                assert(rest[k] == ds[k + 1]);
            }
            assert forall|k: int| 0 < k < rest.len() implies (#[trigger] rest[k]).1 <= rest[k - 1].0 by {
                assert(rest[k] == ds[k + 1] && rest[k - 1] == ds[k]);
            }
        }
        if rest.len() > 0 {
            assert(rest[0] == ds[1]);
        }
        if 0 <= e.0 <= e.1 {
            lemma_boundary_concat(p, q, e.0);
            lemma_boundary_concat(p, q, e.1);
        }
        if applies(p, e) {
            let x = encode_utf8(e.2);
            encode_utf8_valid_utf8(e.2);
            valid_utf8_split(p, e.0);
            valid_utf8_split(p, e.1);
            let p1 = p.take(e.0) + x + p.skip(e.1);
            valid_utf8_concat(p.take(e.0), x);
            valid_utf8_concat(p.take(e.0) + x, p.skip(e.1));
            assert(p.subrange(0, e.0) =~= p.take(e.0));
            assert(p.subrange(e.1, p.len() as int) =~= p.skip(e.1));
            assert(apply_one(p + q, e) =~= p1 + q);
            assert(apply_one(p, e) == p1);
            lemma_apply_on_prefix(p1, q, rest);
        } else {
            assert(!applies(p + q, e));
            assert(apply_one(p + q, e) == p + q);
            lemma_apply_on_prefix(p, q, rest);
        }
    }
}

proof fn lemma_apply_separated(t: Seq<u8>, ds: Seq<(int, int, Seq<char>)>)
    requires
        valid_utf8(t),
        separated(ds),
        forall|k: int| 0 <= k < ds.len() ==> applies(t, #[trigger] ds[k]),
    ensures
        apply_in_order(t, ds) == spliced(t, ds),
    decreases ds.len(),
{
    if ds.len() > 0 {
        let e = ds[0];
        let rest = ds.drop_first();
        assert(applies(t, ds[0]));
        assert(separated(rest)) by {
            assert forall|k: int| 0 <= k < rest.len() implies (#[trigger] rest[k]).0 <= rest[k].1 by {
                assert(rest[k] == ds[k + 1]);
            }
            assert forall|k: int| 0 < k < rest.len() implies (#[trigger] rest[k]).1 <= rest[k - 1].0 by {
                assert(rest[k] == ds[k + 1] && rest[k - 1] == ds[k]);
            }
        }
        let x = encode_utf8(e.2);
        encode_utf8_valid_utf8(e.2);
        valid_utf8_split(t, e.0);
        valid_utf8_split(t, e.1);
        let p = t.take(e.0);
        let q = x + t.skip(e.1);
        assert(t.subrange(0, e.0) =~= p);
        assert(t.subrange(e.1, t.len() as int) =~= t.skip(e.1));
        valid_utf8_concat(x, t.skip(e.1));
        assert(apply_one(t, e) =~= p + q);
        if rest.len() > 0 {
            assert(rest[0] == ds[1]);
            assert(ds[1].1 <= ds[0].0);
        }
        lemma_apply_on_prefix(p, q, rest);
        let u = t.skip(e.0);
        assert(t =~= p + u);
        valid_utf8_split(t, e.0);
        assert(u =~= t.subrange(e.0, t.len() as int));
        assert forall|k: int| 0 <= k < rest.len() implies applies(p, #[trigger] rest[k]) by {
            assert(rest[k] == ds[k + 1]);
            assert(applies(t, ds[k + 1]));
            lemma_separated_ends(ds, k + 1);
            lemma_boundary_concat(p, u, rest[k].0);
            lemma_boundary_concat(p, u, rest[k].1);
        }
        lemma_apply_separated(p, rest);
        assert(spliced(t, ds) == spliced(p, rest) + x + t.skip(e.1));
        assert(apply_in_order(t, ds) == apply_in_order(p + q, rest));
        assert(spliced(p, rest) + q =~= spliced(p, rest) + x + t.skip(e.1));
    }
}

proof fn lemma_separated_ends(ds: Seq<(int, int, Seq<char>)>, k: int)
    requires
        separated(ds),
        0 < k < ds.len(),
    ensures
        ds[k].1 <= ds[0].0,
    decreases k,
{
    assert(ds[k].1 <= ds[k - 1].0);
    if k > 1 {
        assert(ds[k - 1].0 <= ds[k - 1].1);
        lemma_separated_ends(ds, k - 1);
    }
}

/// Bytes outside the edited ranges are kept, in order: when the edits, by
/// descending start, are separated and each applies to the UTF-8 text `t`,
/// the result is the text's own bytes with each replacement spliced in.
pub proof fn lemma_edits_splice(t: Seq<u8>, es: Seq<(int, int, Seq<char>)>)
    requires
        valid_utf8(t),
        forall|k: int| 0 <= k < es.len() ==> applies(t, #[trigger] es[k]),
        separated(by_start_desc(es)),
    ensures
        edited(t, es) == spliced(t, by_start_desc(es)),
{
    let ds = by_start_desc(es);
    lemma_by_start_desc_members(es);
    assert forall|k: int| 0 <= k < ds.len() implies applies(t, #[trigger] ds[k]) by {
        assert(ds.contains(ds[k]));
        let j = choose|j: int| 0 <= j < es.len() && es[j] == ds[k];
        assert(applies(t, es[j]));
    }
    lemma_apply_separated(t, ds);
}

/// Each of the edits `ds` starts strictly before the one before it.
pub open spec fn strictly_desc(ds: Seq<(int, int, Seq<char>)>) -> bool {
    forall|k: int| 0 < k < ds.len() ==> (#[trigger] ds[k]).0 < ds[k - 1].0
}

proof fn lemma_insert_desc_strict(sorted: Seq<(int, int, Seq<char>)>, e: (int, int, Seq<char>))
    requires
        strictly_desc(sorted),
        forall|k: int| 0 <= k < sorted.len() ==> (#[trigger] sorted[k]).0 != e.0,
    ensures
        strictly_desc(insert_desc(sorted, e)),
        insert_desc(sorted, e).len() == sorted.len() + 1,
        insert_desc(sorted, e).last() == e || (sorted.len() > 0 && insert_desc(sorted, e).last()
            == sorted.last()),
    decreases sorted.len(),
{
    if sorted.len() == 0 {
    } else if sorted.last().0 >= e.0 {
        let r = sorted.push(e);
        assert forall|k: int| 0 < k < r.len() implies (#[trigger] r[k]).0 < r[k - 1].0 by {
            if k < sorted.len() {
                assert(r[k] == sorted[k] && r[k - 1] == sorted[k - 1]);
            } else {
                assert(sorted[sorted.len() - 1].0 != e.0);
            }
        }
    } else {
        let dl = sorted.drop_last();
        assert(strictly_desc(dl)) by {
            assert forall|k: int| 0 < k < dl.len() implies (#[trigger] dl[k]).0 < dl[k - 1].0 by {
                assert(dl[k] == sorted[k] && dl[k - 1] == sorted[k - 1]);
            }
        }
        assert forall|k: int| 0 <= k < dl.len() implies (#[trigger] dl[k]).0 != e.0 by {
            assert(dl[k] == sorted[k]);
        }
        lemma_insert_desc_strict(dl, e);
        let m = insert_desc(dl, e);
        let r = m.push(sorted.last());
        if dl.len() > 0 {
            assert(sorted[sorted.len() - 1].0 < sorted[sorted.len() - 2].0);
        }
        assert forall|k: int| 0 < k < r.len() implies (#[trigger] r[k]).0 < r[k - 1].0 by {
            if k < m.len() {
                assert(r[k] == m[k] && r[k - 1] == m[k - 1]);
            } else {
                assert(r[k - 1] == m.last());
            }
        }
    }
}

proof fn lemma_by_start_desc_strict(es: Seq<(int, int, Seq<char>)>)
    requires
        forall|i: int, j: int| 0 <= i < es.len() && 0 <= j < es.len() && i != j ==> (
        #[trigger] es[i]).0 != (#[trigger] es[j]).0,
    ensures
        strictly_desc(by_start_desc(es)),
    decreases es.len(),
{
    if es.len() > 0 {
        let dl = es.drop_last();
        assert forall|i: int, j: int| 0 <= i < dl.len() && 0 <= j < dl.len() && i != j implies (
        #[trigger] dl[i]).0 != (#[trigger] dl[j]).0 by {
            assert(dl[i] == es[i] && dl[j] == es[j]);
        }
        lemma_by_start_desc_strict(dl);
        lemma_by_start_desc_members(dl);
        let sd = by_start_desc(dl);
        assert forall|k: int| 0 <= k < sd.len() implies (#[trigger] sd[k]).0 != es.last().0 by {
            assert(sd.contains(sd[k]));
            let j = choose|j: int| 0 <= j < dl.len() && dl[j] == sd[k];
            assert(es[j] == sd[k]);
            assert(es[es.len() - 1] == es.last());
        }
        lemma_insert_desc_strict(sd, es.last());
    }
}

/// Bytes outside the edited ranges are kept, in order, whatever the order of
/// the edits in the list: when the edits start at distinct places, do not
/// overlap, and each applies to the UTF-8 text `t`, the result is the
/// text's own bytes with each replacement spliced in, by position.
pub proof fn lemma_disjoint_edits_splice(t: Seq<u8>, es: Seq<(int, int, Seq<char>)>)
    requires
        valid_utf8(t),
        forall|k: int| 0 <= k < es.len() ==> applies(t, #[trigger] es[k]),
        forall|i: int, j: int| 0 <= i < es.len() && 0 <= j < es.len() && i != j ==> (
        #[trigger] es[i]).0 != (#[trigger] es[j]).0 && (es[i].1 <= es[j].0 || es[j].1 <= es[i].0),
    ensures
        strictly_desc(by_start_desc(es)),
        edited(t, es) == spliced(t, by_start_desc(es)),
{
    let ds = by_start_desc(es);
    lemma_by_start_desc_strict(es);
    lemma_by_start_desc_members(es);
    assert(separated(ds)) by {
        assert forall|k: int| 0 <= k < ds.len() implies (#[trigger] ds[k]).0 <= ds[k].1 by {
            assert(ds.contains(ds[k]));
            let j = choose|j: int| 0 <= j < es.len() && es[j] == ds[k];
            assert(applies(t, es[j]));
        }
        assert forall|k: int| 0 < k < ds.len() implies (#[trigger] ds[k]).1 <= ds[k - 1].0 by {
            assert(ds.contains(ds[k]));
            assert(ds.contains(ds[k - 1]));
            let a = choose|a: int| 0 <= a < es.len() && es[a] == ds[k];
            let b = choose|b: int| 0 <= b < es.len() && es[b] == ds[k - 1];
            assert(ds[k].0 < ds[k - 1].0);
            assert(a != b);
            assert(applies(t, es[b]));
        }
    }
    lemma_edits_splice(t, es);
}

/// An edit that is skipped among `good` on the text `t`: its range is
/// reversed, or it runs past the end of `t` and starts after every edit of
/// `good`.
pub open spec fn skipped(t: Seq<u8>, good: Seq<(int, int, Seq<char>)>, e: (int, int, Seq<char>)) -> bool {
    e.0 > e.1 || (e.1 > t.len() && forall|k: int| 0 <= k < good.len() ==> e.0 > (#[trigger] good[k]).0)
}

/// The edits of `es` that are not skipped, in order.
pub open spec fn kept(t: Seq<u8>, good: Seq<(int, int, Seq<char>)>, es: Seq<(int, int, Seq<char>)>) -> Seq<
    (int, int, Seq<char>),
>
    decreases es.len(),
{
    if es.len() == 0 {
        seq![]
    } else if skipped(t, good, es.last()) {
        kept(t, good, es.drop_last())
    } else {
        kept(t, good, es.drop_last()).push(es.last())
    }
}

/// The edits go by non-increasing start.
pub open spec fn by_desc(ds: Seq<(int, int, Seq<char>)>) -> bool {
    forall|k: int| 0 < k < ds.len() ==> (#[trigger] ds[k]).0 <= ds[k - 1].0
}

proof fn lemma_insert_desc_sorted(sorted: Seq<(int, int, Seq<char>)>, e: (int, int, Seq<char>))
    requires
        by_desc(sorted),
    ensures
        by_desc(insert_desc(sorted, e)),
        insert_desc(sorted, e).len() == sorted.len() + 1,
        insert_desc(sorted, e).last() == e || (sorted.len() > 0 && insert_desc(sorted, e).last()
            == sorted.last()),
    decreases sorted.len(),
{
    if sorted.len() == 0 {
    } else if sorted.last().0 >= e.0 {
        let r = sorted.push(e);
        assert forall|k: int| 0 < k < r.len() implies (#[trigger] r[k]).0 <= r[k - 1].0 by {
            if k < sorted.len() {
                assert(r[k] == sorted[k] && r[k - 1] == sorted[k - 1]);
            }
        }
    } else {
        let dl = sorted.drop_last();
        assert(by_desc(dl)) by {
            assert forall|k: int| 0 < k < dl.len() implies (#[trigger] dl[k]).0 <= dl[k - 1].0 by {
                assert(dl[k] == sorted[k] && dl[k - 1] == sorted[k - 1]);
            }
        }
        lemma_insert_desc_sorted(dl, e);
        let m = insert_desc(dl, e);
        let r = m.push(sorted.last());
        if dl.len() > 0 {
            assert(sorted[sorted.len() - 1].0 <= sorted[sorted.len() - 2].0);
        }
        assert forall|k: int| 0 < k < r.len() implies (#[trigger] r[k]).0 <= r[k - 1].0 by {
            if k < m.len() {
                assert(r[k] == m[k] && r[k - 1] == m[k - 1]);
            } else {
                assert(r[k - 1] == m.last());
            }
        }
    }
}

proof fn lemma_by_start_desc_sorted(es: Seq<(int, int, Seq<char>)>)
    ensures
        by_desc(by_start_desc(es)),
        by_start_desc(es).len() == es.len(),
    decreases es.len(),
{
    if es.len() > 0 {
        lemma_by_start_desc_sorted(es.drop_last());
        lemma_insert_desc_sorted(by_start_desc(es.drop_last()), es.last());
    }
}

proof fn lemma_kept_insert(
    t: Seq<u8>,
    good: Seq<(int, int, Seq<char>)>,
    sorted: Seq<(int, int, Seq<char>)>,
    x: (int, int, Seq<char>),
)
    requires
        by_desc(sorted),
    ensures
        kept(t, good, insert_desc(sorted, x)) == (if skipped(t, good, x) {
            kept(t, good, sorted)
        } else {
            insert_desc(kept(t, good, sorted), x)
        }),
        kept(t, good, sorted).len() > 0 ==> sorted.len() > 0 && kept(t, good, sorted).last().0
            >= sorted.last().0,
    decreases sorted.len(),
{
    let none = Seq::<(int, int, Seq<char>)>::empty();
    if sorted.len() == 0 {
        assert(seq![x].drop_last() =~= none);
        assert(insert_desc(sorted, x) == seq![x]);
        assert(kept(t, good, sorted) == none);
        assert(insert_desc(none, x) == seq![x]);
        assert(seq![x].last() == x);
        assert(none.push(x) =~= seq![x]);
        if skipped(t, good, x) {
            assert(kept(t, good, seq![x]) == kept(t, good, none));
        } else {
            assert(kept(t, good, seq![x]) == kept(t, good, none).push(x));
        }
    } else {
        let dl = sorted.drop_last();
        let l = sorted.last();
        assert(by_desc(dl)) by {
            assert forall|k: int| 0 < k < dl.len() implies (#[trigger] dl[k]).0 <= dl[k - 1].0 by {
                assert(dl[k] == sorted[k] && dl[k - 1] == sorted[k - 1]);
            }
        }
        lemma_kept_insert(t, good, dl, x);
        if dl.len() > 0 {
            assert(sorted[sorted.len() - 1].0 <= sorted[sorted.len() - 2].0);
            assert(dl.last() == sorted[sorted.len() - 2]);
        }
        let kd = kept(t, good, dl);
        let ks = kept(t, good, sorted);
        assert(kd.push(l).drop_last() =~= kd);
        assert(ks.len() > 0 ==> ks.last().0 >= l.0);
        if l.0 >= x.0 {
            let r = sorted.push(x);
            assert(r.drop_last() =~= sorted);
            assert(r.last() == x);
            assert(insert_desc(sorted, x) == r);
            if skipped(t, good, x) {
                assert(kept(t, good, r) == ks);
            } else {
                assert(kept(t, good, r) == ks.push(x));
                if ks.len() == 0 {
                    assert(insert_desc(ks, x) == seq![x]);
                    assert(ks.push(x) =~= seq![x]);
                } else {
                    assert(insert_desc(ks, x) == ks.push(x));
                }
            }
        } else {
            let m = insert_desc(dl, x);
            let r = m.push(l);
            assert(insert_desc(sorted, x) == r);
            assert(r.drop_last() =~= m);
            assert(r.last() == l);
            if skipped(t, good, x) {
                assert(kept(t, good, m) == kd);
                if skipped(t, good, l) {
                    assert(kept(t, good, r) == kd);
                    assert(ks == kd);
                } else {
                    assert(kept(t, good, r) == kd.push(l));
                    assert(ks == kd.push(l));
                }
            } else {
                assert(kept(t, good, m) == insert_desc(kd, x));
                if !skipped(t, good, l) {
                    assert(ks == kd.push(l));
                    assert(insert_desc(ks, x) == insert_desc(kd, x).push(l));
                    assert(kept(t, good, r) == kept(t, good, m).push(l));
                } else {
                    assert(ks == kd);
                    assert(kept(t, good, r) == kept(t, good, m));
                }
            }
        }
    }
}

proof fn lemma_kept_sorted(t: Seq<u8>, good: Seq<(int, int, Seq<char>)>, es: Seq<(int, int, Seq<char>)>)
    ensures
        kept(t, good, by_start_desc(es)) == by_start_desc(kept(t, good, es)),
    decreases es.len(),
{
    if es.len() > 0 {
        let dl = es.drop_last();
        lemma_kept_sorted(t, good, dl);
        lemma_by_start_desc_sorted(dl);
        lemma_kept_insert(t, good, by_start_desc(dl), es.last());
        if !skipped(t, good, es.last()) {
            let kd = kept(t, good, dl);
            assert(kd.push(es.last()).drop_last() =~= kd);
        }
    }
}

proof fn lemma_kept_front(t: Seq<u8>, good: Seq<(int, int, Seq<char>)>, ds: Seq<(int, int, Seq<char>)>)
    requires
        ds.len() > 0,
    ensures
        kept(t, good, ds) == (if skipped(t, good, ds[0]) {
            kept(t, good, ds.drop_first())
        } else {
            seq![ds[0]] + kept(t, good, ds.drop_first())
        }),
    decreases ds.len(),
{
    if ds.len() == 1 {
        assert(ds.drop_first() =~= Seq::<(int, int, Seq<char>)>::empty());
        assert(ds.drop_last() =~= Seq::<(int, int, Seq<char>)>::empty());
        assert(seq![ds[0]] + Seq::<(int, int, Seq<char>)>::empty() =~= seq![ds[0]]);
    } else {
        lemma_kept_front(t, good, ds.drop_last());
        assert(ds.drop_last().drop_first() =~= ds.drop_first().drop_last());
        assert(ds.drop_first().last() == ds.last());
        assert(ds.drop_last()[0] == ds[0]);
        let kr = kept(t, good, ds.drop_last().drop_first());
        assert((seq![ds[0]] + kr).push(ds.last()) =~= seq![ds[0]] + kr.push(ds.last()));
    }
}

proof fn lemma_apply_kept(
    t: Seq<u8>,
    good: Seq<(int, int, Seq<char>)>,
    u: Seq<u8>,
    ds: Seq<(int, int, Seq<char>)>,
    fresh: bool,
)
    requires
        fresh ==> u == t,
        forall|k: int|
            0 <= k < ds.len() && skipped(t, good, #[trigger] ds[k]) && ds[k].0 <= ds[k].1 ==> fresh
                && forall|j: int| 0 <= j < k ==> skipped(t, good, ds[j]),
    ensures
        apply_in_order(u, ds) == apply_in_order(u, kept(t, good, ds)),
    decreases ds.len(),
{
    if ds.len() > 0 {
        let x = ds[0];
        let rest = ds.drop_first();
        lemma_kept_front(t, good, ds);
        if skipped(t, good, x) {
            if x.0 <= x.1 {
                assert(fresh);
            }
            assert(apply_one(u, x) == u);
            assert forall|k: int|
                0 <= k < rest.len() && skipped(t, good, #[trigger] rest[k]) && rest[k].0 <= rest[k].1
                    implies fresh && forall|j: int| 0 <= j < k ==> skipped(t, good, rest[j]) by {
                assert(rest[k] == ds[k + 1]);
                assert forall|j: int| 0 <= j < k implies skipped(t, good, rest[j]) by {
                    assert(rest[j] == ds[j + 1]);
                }
            }
            lemma_apply_kept(t, good, u, rest, fresh);
        } else {
            let u1 = apply_one(u, x);
            assert forall|k: int|
                0 <= k < rest.len() && skipped(t, good, #[trigger] rest[k]) && rest[k].0 <= rest[k].1
                    implies false && forall|j: int| 0 <= j < k ==> skipped(t, good, rest[j]) by {
                assert(rest[k] == ds[k + 1]);
                assert(!skipped(t, good, ds[0]));
            }
            lemma_apply_kept(t, good, u1, rest, false);
            let kr = kept(t, good, rest);
            assert((seq![x] + kr)[0] == x);
            assert((seq![x] + kr).drop_first() =~= kr);
        }
    }
}

proof fn lemma_kept_members(t: Seq<u8>, good: Seq<(int, int, Seq<char>)>, es: Seq<(int, int, Seq<char>)>)
    ensures
        forall|k: int| 0 <= k < es.len() && !skipped(t, good, #[trigger] es[k]) ==> kept(t, good, es).contains(
            es[k],
        ),
    decreases es.len(),
{
    if es.len() > 0 {
        lemma_kept_members(t, good, es.drop_last());
        let kd = kept(t, good, es.drop_last());
        assert forall|k: int| 0 <= k < es.len() && !skipped(t, good, #[trigger] es[k]) implies kept(
            t,
            good,
            es,
        ).contains(es[k]) by {
            if k < es.len() - 1 {
                assert(es[k] == es.drop_last()[k]);
                let j = choose|j: int| 0 <= j < kd.len() && kd[j] == es[k];
                assert(kd.push(es.last())[j] == es[k]);
            } else {
                assert(kd.push(es.last())[kd.len() as int] == es[k]);
            }
        }
    }
}

/// Edits that are skipped never disturb the others: mixing into the valid
/// edits `good`, anywhere in the list, edits whose range is reversed, or that
/// run past the end of the text and start after every valid edit, gives the
/// same text as the valid edits alone.
pub proof fn lemma_skipped_edits_harmless(t: Seq<u8>, good: Seq<(int, int, Seq<char>)>, es: Seq<(int, int, Seq<char>)>)
    requires
        kept(t, good, es) == good,
    ensures
        edited(t, es) == edited(t, good),
{
    let ds = by_start_desc(es);
    lemma_by_start_desc_sorted(es);
    lemma_by_start_desc_members(es);
    lemma_kept_sorted(t, good, es);
    assert forall|k: int|
        0 <= k < ds.len() && skipped(t, good, #[trigger] ds[k]) && ds[k].0 <= ds[k].1 implies true
            && forall|j: int| 0 <= j < k ==> skipped(t, good, ds[j]) by {
        assert forall|j: int| 0 <= j < k implies skipped(t, good, ds[j]) by {
            lemma_desc_order(ds, j, k);
            if !skipped(t, good, ds[j]) {
                assert(ds.contains(ds[j]));
                let i = choose|i: int| 0 <= i < es.len() && es[i] == ds[j];
                lemma_kept_members(t, good, es);
                assert(kept(t, good, es).contains(es[i]));
                let g = choose|g: int| 0 <= g < good.len() && good[g] == es[i];
                assert(ds[k].0 > good[g].0);
            }
        }
    }
    lemma_apply_kept(t, good, t, ds, true);
}

proof fn lemma_desc_order(ds: Seq<(int, int, Seq<char>)>, j: int, k: int)
    requires
        by_desc(ds),
        0 <= j <= k < ds.len(),
    ensures
        ds[k].0 <= ds[j].0,
    decreases k - j,
{
    if j < k {
        lemma_desc_order(ds, j, k - 1);
        assert(ds[k].0 <= ds[k - 1].0);
    }
}

} // verus!
