//! Turning free-form generated text into a well-formed documentation block.

use vstd::prelude::*;
use crate::patch::{doc_line, doc_marker, is_doc_line, remove_cr, without_cr};
use crate::regexes::{compile, erase_all, escape, escaped, regex_erased, regex_valid};
use crate::text::{
    append, append_str, blank, chars_of, drop_lead, drop_lead_chars, drop_trail, drop_trail_chars,
    is_blank, is_ws, join, join_lines, lead_ws, lead_ws_len, lemma_trim_end_take,
    lemma_trim_start_skip, lines, lines_after, occurs_at, same, slice_vec, split_lines, starts_with,
    string_of, strip_cr, trail_ws, trim, trim_chars, trim_end, trim_end_chars, trim_start, trim_start_chars,
    trimmed_starts_with, views,
};

verus! {

/// The delimiter of a fenced code region.
pub open spec fn fence_mark() -> Seq<char> {
    seq!['`', '`', '`']
}

// ---------------------------------------------------------------- regions

/// The pattern of a `<tag ...>...</tag>` region, in any case and across lines.
pub open spec fn region_pattern(tag: Seq<char>) -> Seq<char> {
    "(?is)<\\s*"@ + escaped(tag) + "\\b[^>]*>.*?</\\s*"@ + escaped(tag) + "\\s*>"@
}

/// `s` without its `<tag>...</tag>` regions, trimmed.
pub open spec fn without_regions(s: Seq<char>, tag: Seq<char>) -> Seq<char> {
    if regex_valid(region_pattern(tag)) {
        trim(regex_erased(region_pattern(tag), s))
    } else {
        trim(s)
    }
}

/// Removes every `<tag ...>...</tag>` region of `s` (in any case, across
/// lines) and trims the rest.
pub fn strip_xml_like(s: &str, tag: &str) -> (r: String)
    ensures
        r@ == without_regions(s@, tag@),
{
    let e = escape(tag);
    let mut p: Vec<char> = chars_of("(?is)<\\s*");
    append_str(&mut p, e.as_str());
    append_str(&mut p, "\\b[^>]*>.*?</\\s*");
    append_str(&mut p, e.as_str());
    append_str(&mut p, "\\s*>");
    assert(p@ =~= region_pattern(tag@));
    let ps = string_of(p.as_slice());
    let kept = match compile(ps.as_str()) {
        Some(m) => chars_of(erase_all(&m, s).as_str()),
        None => chars_of(s),
    };
    let t = trim_chars(kept.as_slice());
    string_of(t.as_slice())
}

// ---------------------------------------------------------------- markers

/// Index of the first of `markers`, from `k` on, that `t` begins with.
pub open spec fn first_marker(t: Seq<char>, markers: Seq<Seq<char>>, k: int) -> Option<int>
    decreases markers.len() - k,
{
    if k < 0 || k >= markers.len() {
        None
    } else if starts_with(t, markers[k]) {
        Some(k)
    } else {
        first_marker(t, markers, k + 1)
    }
}

/// Length of the first line of `s`.
pub open spec fn line_len(s: Seq<char>) -> nat
    decreases s.len(),
{
    if s.len() == 0 || s[0] == '\n' {
        0
    } else {
        1 + line_len(s.drop_first())
    }
}

/// Where the text after the first marker that begins a line outside a
/// fenced region starts, looking at the lines from position `p` on, with
/// `in_fence` telling whether `p` lies inside a fenced region.
pub open spec fn marker_cut(s: Seq<char>, markers: Seq<Seq<char>>, in_fence: bool, p: int) -> Option<
    int,
>
    decreases s.len() - p,
{
    if p < 0 || p > s.len() {
        None
    } else {
        let e = p + line_len(s.skip(p));
        let l = s.subrange(p, e);
        let t = trim_start(l);
        let f = if starts_with(t, fence_mark()) {
            !in_fence
        } else {
            in_fence
        };
        if !f && first_marker(t, markers, 0) is Some {
            Some(p + lead_ws(l) + markers[first_marker(t, markers, 0)->0].len())
        } else if e < s.len() {
            marker_cut(s, markers, f, e + 1)
        } else {
            None
        }
    }
}

/// Number of documentation lines among `ls`.
pub open spec fn doc_line_count(ls: Seq<Seq<char>>) -> nat
    decreases ls.len(),
{
    if ls.len() == 0 {
        0
    } else {
        doc_line_count(ls.drop_last()) + if is_doc_line(ls.last()) {
            1nat
        } else {
            0nat
        }
    }
}

/// `s` trimmed, and cut after the first marker that begins a line outside a
/// fenced region, unless `s` already holds three documentation lines.
pub open spec fn without_wrapper_marker(s: Seq<char>, markers: Seq<Seq<char>>) -> Seq<char> {
    if doc_line_count(lines(s)) >= 3 {
        trim(s)
    } else {
        match marker_cut(s, markers, false, 0) {
            Some(c) => trim(s.skip(c)),
            None => trim(s),
        }
    }
}

/// The views of a list of string slices.
pub open spec fn str_views(ms: Seq<&str>) -> Seq<Seq<char>> {
    ms.map_values(|m: &str| m@)
}

proof fn lemma_line_len(s: Seq<char>)
    ensures
        line_len(s) <= s.len(),
        forall|i: int| 0 <= i < line_len(s) ==> s[i] != '\n',
        line_len(s) < s.len() ==> s[line_len(s) as int] == '\n',
    decreases s.len(),
{
    if s.len() > 0 && s[0] != '\n' {
        lemma_line_len(s.drop_first());
        assert forall|i: int| 0 <= i < line_len(s) implies s[i] != '\n' by {
            if i > 0 {
                assert(s[i] == s.drop_first()[i - 1]);
            }
        }
    }
}

/// End of the line that starts at `p`.
fn line_end_at(s: &[char], p: usize) -> (e: usize)
    requires
        p <= s.len(),
    ensures
        e == p + line_len(s@.skip(p as int)),
        p <= e <= s.len(),
{
    proof {
        lemma_line_len(s@.skip(p as int));
    }
    let mut e = p;
    while e < s.len() && s[e] != '\n'
        invariant
            p <= e <= s.len(),
            line_len(s@.skip(p as int)) == (e - p) + line_len(s@.skip(e as int)),
        decreases s.len() - e,
    {
        assert(s@.skip(e as int).drop_first() =~= s@.skip(e + 1));
        e = e + 1;
    }
    e
}

proof fn lemma_first_marker(t: Seq<char>, ms: Seq<Seq<char>>, j: int)
    ensures
        first_marker(t, ms, j) matches Some(k) ==> j <= k < ms.len() && starts_with(t, ms[k]),
    decreases ms.len() - j,
{
    if j >= 0 && j < ms.len() && !starts_with(t, ms[j]) {
        lemma_first_marker(t, ms, j + 1);
    }
}

fn first_marker_in(t: &[char], ms: &Vec<Vec<char>>) -> (r: Option<usize>)
    ensures
        r matches Some(k) ==> first_marker(t@, views(ms@), 0) == Some(k as int) && k < ms.len(),
        r is None ==> first_marker(t@, views(ms@), 0) is None,
{
    let mut k: usize = 0;
    while k < ms.len()
        invariant
            k <= ms.len(),
            first_marker(t@, views(ms@), 0) == first_marker(t@, views(ms@), k as int),
        decreases ms.len() - k,
    {
        if occurs_at(t, 0, ms[k].as_slice()) {
            assert(t@.skip(0) =~= t@);
            return Some(k);
        }
        assert(t@.skip(0) =~= t@);
        k = k + 1;
    }
    None
}

fn count_doc_lines(ls: &Vec<Vec<char>>) -> (r: usize)
    ensures
        r == doc_line_count(views(ls@)),
{
    let mut n: usize = 0;
    let mut i: usize = 0;
    assert(views(ls@).take(0) =~= seq![]);
    while i < ls.len()
        invariant
            i <= ls.len(),
            n <= i,
            n == doc_line_count(views(ls@).take(i as int)),
        decreases ls.len() - i,
    {
        assert(views(ls@).take(i + 1).drop_last() =~= views(ls@).take(i as int));
        if doc_line(ls[i].as_slice()) {
            n = n + 1;
        }
        i = i + 1;
    }
    assert(views(ls@).take(i as int) =~= views(ls@));
    n
}

/// Drops whatever precedes, and includes, the first of `markers` that begins
/// a line outside a fenced region, then trims; when the text already holds
/// three documentation lines it is only trimmed.
pub fn strip_wrapper_markers(s: &str, markers: &[&str]) -> (r: String)
    ensures
        r@ == without_wrapper_marker(s@, str_views(markers@)),
{
    let cs = chars_of(s);
    let mut ms: Vec<Vec<char>> = Vec::new();
    let mut j: usize = 0;
    while j < markers.len()
        invariant
            j <= markers.len(),
            views(ms@) == str_views(markers@).take(j as int),
        decreases markers.len() - j,
    {
        let m = chars_of(markers[j]);
        let ghost before = views(ms@);
        ms.push(m);
        assert(views(ms@) =~= before.push(m@));
        assert(str_views(markers@).take(j + 1) =~= str_views(markers@).take(j as int).push(
            markers@[j as int]@,
        ));
        j = j + 1;
    }
    assert(str_views(markers@).take(j as int) =~= str_views(markers@));
    let ls = split_lines(cs.as_slice());
    if count_doc_lines(&ls) >= 3 {
        let t = trim_chars(cs.as_slice());
        return string_of(t.as_slice());
    }
    let ghost mv = views(ms@);
    let fence = vec!['`', '`', '`'];
    let mut p: usize = 0;
    let mut in_fence = false;
    let mut cut: Option<usize> = None;
    let mut done = false;
    while !done
        invariant
            p <= cs.len(),
            mv == views(ms@),
            fence@ == fence_mark(),
            done ==> marker_cut(cs@, mv, false, 0) == (match cut {
                Some(c) => Some(c as int),
                None => None,
            }),
            !done ==> marker_cut(cs@, mv, false, 0) == marker_cut(cs@, mv, in_fence, p as int),
            cut matches Some(c) ==> c <= cs.len(),
            !done ==> cut is None,
        decreases cs.len() - p + (if done {
            0int
        } else {
            1int
        }),
    {
        let e = line_end_at(cs.as_slice(), p);
        let l = slice_vec(cs.as_slice(), p, e);
        let k = lead_ws_len(l.as_slice());
        let t = slice_vec(l.as_slice(), k, l.len());
        assert(t@ == trim_start(l@));
        let ghost f0 = in_fence;
        if occurs_at(t.as_slice(), 0, fence.as_slice()) {
            in_fence = !in_fence;
        }
        assert(t@.skip(0) =~= t@);
        if !in_fence {
            match first_marker_in(t.as_slice(), &ms) {
                Some(mi) => {
                    proof {
                        lemma_first_marker(t@, mv, 0);
                    }
                    assert(starts_with(t@, mv[mi as int]));
                    assert(marker_cut(cs@, mv, f0, p as int) == Some(p + k + mv[mi as int].len()));
                    assert(p + k + ms[mi as int]@.len() <= cs.len()) by {
                        assert(t@.len() >= mv[mi as int].len());
                    }
                    cut = Some(p + k + ms[mi].len());
                    assert(marker_cut(cs@, mv, false, 0) == Some(p + k + mv[mi as int].len()));
                    done = true;
                },
                None => {},
            }
        }
        if !done {
            assert(!in_fence ==> first_marker(t@, mv, 0) is None);
            if e < cs.len() {
                assert(marker_cut(cs@, mv, f0, p as int) == marker_cut(cs@, mv, in_fence, e + 1));
                p = e + 1;
            } else {
                assert(marker_cut(cs@, mv, f0, p as int) == None::<int>);
                done = true;
            }
        }
    }
    let out = match cut {
        Some(c) => slice_vec(cs.as_slice(), c, cs.len()),
        None => cs,
    };
    let t = trim_chars(out.as_slice());
    string_of(t.as_slice())
}

// ---------------------------------------------------------------- fences

/// Each line of `ls` without trailing whitespace.
pub open spec fn trim_end_all(ls: Seq<Seq<char>>) -> Seq<Seq<char>> {
    ls.map_values(|l: Seq<char>| trim_end(l))
}

/// Number of lines of `ls` that begin with a fence.
pub open spec fn fence_start_count(ls: Seq<Seq<char>>) -> nat
    decreases ls.len(),
{
    if ls.len() == 0 {
        0
    } else {
        fence_start_count(ls.drop_last()) + if starts_with(ls.last(), fence_mark()) {
            1nat
        } else {
            0nat
        }
    }
}

/// Index of the first non-empty line of `ls` from `i` on, or `ls.len()`.
pub open spec fn first_filled(ls: Seq<Seq<char>>, i: int) -> int
    decreases ls.len() - i,
{
    if i < 0 || i >= ls.len() {
        ls.len() as int
    } else if ls[i].len() > 0 {
        i
    } else {
        first_filled(ls, i + 1)
    }
}

/// Index of the last non-empty line of `ls` before `j`, or -1.
pub open spec fn last_filled(ls: Seq<Seq<char>>, j: int) -> int
    decreases j,
{
    if j <= 0 || j > ls.len() {
        -1
    } else if ls[j - 1].len() > 0 {
        j - 1
    } else {
        last_filled(ls, j - 1)
    }
}

/// When `s` is exactly one fenced region (its first and last non-empty lines
/// are fences, and it has no other), the lines inside it; otherwise `s`
/// without backticks at either end, trimmed.
pub open spec fn unwrapped(s: Seq<char>) -> Seq<char> {
    let ls = trim_end_all(lines(s));
    let a = first_filled(ls, 0);
    let b = last_filled(ls, ls.len() as int);
    if fence_start_count(ls) == 2 && 0 <= a < b && starts_with(ls[a], fence_mark()) && starts_with(
        ls[b],
        fence_mark(),
    ) {
        join(ls.subrange(a + 1, b))
    } else {
        trim(drop_trail(drop_lead(s, '`'), '`'))
    }
}

proof fn lemma_first_filled(ls: Seq<Seq<char>>, i: int)
    requires
        0 <= i <= ls.len(),
    ensures
        i <= first_filled(ls, i) <= ls.len(),
    decreases ls.len() - i,
{
    if i < ls.len() && ls[i].len() == 0 {
        lemma_first_filled(ls, i + 1);
    }
}

proof fn lemma_last_filled(ls: Seq<Seq<char>>, j: int)
    requires
        0 <= j <= ls.len(),
    ensures
        -1 <= last_filled(ls, j) < j,
    decreases j,
{
    if j > 0 && ls[j - 1].len() == 0 {
        lemma_last_filled(ls, j - 1);
    }
}

/// The inside of `s` when it is exactly one fenced region; otherwise `s`
/// without backticks at either end, trimmed.
pub fn unwrap_code_fence_if_wrapped(s: &str) -> (r: String)
    ensures
        r@ == unwrapped(s@),
{
    let cs = chars_of(s);
    let v = unwrap_chars(cs.as_slice());
    string_of(v.as_slice())
}

fn unwrap_chars(cs: &[char]) -> (r: Vec<char>)
    ensures
        r@ == unwrapped(cs@),
{
    let raw = split_lines(cs);
    let mut ls: Vec<Vec<char>> = Vec::new();
    let fence = vec!['`', '`', '`'];
    let mut count: usize = 0;
    let mut i: usize = 0;
    assert(views(raw@).take(0) =~= seq![]);
    while i < raw.len()
        invariant
            i <= raw.len(),
            count <= i,
            fence@ == fence_mark(),
            views(ls@) == trim_end_all(views(raw@).take(i as int)),
            count == fence_start_count(trim_end_all(views(raw@).take(i as int))),
        decreases raw.len() - i,
    {
        let t = trim_end_chars(raw[i].as_slice());
        let ghost before = views(ls@);
        let ghost tv = t@;
        let f = occurs_at(t.as_slice(), 0, fence.as_slice());
        assert(t@.skip(0) =~= t@);
        ls.push(t);
        assert(views(ls@) =~= before.push(tv));
        assert(trim_end_all(views(raw@).take(i + 1)) =~= trim_end_all(views(raw@).take(i as int)).push(
            tv,
        ));
        assert(trim_end_all(views(raw@).take(i + 1)).drop_last() =~= trim_end_all(
            views(raw@).take(i as int),
        ));
        if f {
            count = count + 1;
        }
        i = i + 1;
    }
    assert(views(raw@).take(i as int) =~= views(raw@));
    let ghost lv = views(ls@);
    let mut a: usize = 0;
    while a < ls.len() && ls[a].len() == 0
        invariant
            a <= ls.len(),
            lv == views(ls@),
            first_filled(lv, a as int) == first_filled(lv, 0),
        decreases ls.len() - a,
    {
        a = a + 1;
    }
    let mut b: usize = ls.len();
    while b > 0 && ls[b - 1].len() == 0
        invariant
            b <= ls.len(),
            lv == views(ls@),
            last_filled(lv, b as int) == last_filled(lv, ls.len() as int),
        decreases b,
    {
        b = b - 1;
    }
    if count == 2 && b > 0 && a < b - 1 && occurs_at(ls[a].as_slice(), 0, fence.as_slice())
        && occurs_at(ls[b - 1].as_slice(), 0, fence.as_slice()) {
        assert(ls[a as int]@.skip(0) =~= ls[a as int]@);
        assert(ls[b - 1]@.skip(0) =~= ls[b - 1]@);
        let mut inner: Vec<Vec<char>> = Vec::new();
        let mut k = a + 1;
        while k < b - 1
            invariant
                a + 1 <= k <= b - 1,
                b <= ls.len(),
                lv == views(ls@),
                views(inner@) == lv.subrange(a + 1, k as int),
            decreases b - 1 - k,
        {
            let ghost before = views(inner@);
            inner.push(ls[k].clone());
            assert(views(inner@) =~= before.push(lv[k as int]));
            assert(lv.subrange(a + 1, k + 1) =~= lv.subrange(a + 1, k as int).push(lv[k as int]));
            k = k + 1;
        }
        join_lines(&inner)
    } else {
        proof {
            lemma_first_filled(lv, 0);
            lemma_last_filled(lv, lv.len() as int);
            if count == 2 && 0 <= first_filled(lv, 0) < last_filled(lv, lv.len() as int)
                && starts_with(lv[first_filled(lv, 0)], fence_mark()) && starts_with(
                lv[last_filled(lv, lv.len() as int)],
                fence_mark(),
            ) {
                assert(lv[a as int].skip(0) =~= lv[a as int]);
                assert(lv[b - 1].skip(0) =~= lv[b - 1]);
                assert(false);
            }
        }
        let x = drop_lead_chars(cs, '`');
        let y = drop_trail_chars(x.as_slice(), '`');
        trim_chars(y.as_slice())
    }
}

// ---------------------------------------------------------------- escapes

/// `s` with each occurrence of `from`, scanned from the left without
/// overlaps, replaced by `to`, as `str::replace` does.
pub open spec fn replaced(s: Seq<char>, from: Seq<char>, to: Seq<char>) -> Seq<char>
    decreases s.len(),
{
    if s.len() == 0 {
        s
    } else if from.len() > 0 && starts_with(s, from) {
        to + replaced(s.skip(from.len() as int), from, to)
    } else {
        seq![s[0]] + replaced(s.drop_first(), from, to)
    }
}

/// `s` with every occurrence of `from` replaced by `to`.
pub fn replace_all(s: &[char], from: &[char], to: &[char]) -> (r: Vec<char>)
    requires
        from.len() > 0,
    ensures
        r@ == replaced(s@, from@, to@),
{
    let mut out: Vec<char> = Vec::new();
    let mut i: usize = 0;
    assert(s@.skip(0) =~= s@);
    while i < s.len()
        invariant
            i <= s.len(),
            from.len() > 0,
            out@ + replaced(s@.skip(i as int), from@, to@) == replaced(s@, from@, to@),
        decreases s.len() - i,
    {
        if occurs_at(s, i, from) {
            assert(s@.skip(i as int).skip(from@.len() as int) =~= s@.skip(i + from.len()));
            let ghost o = out@;
            append(&mut out, to);
            assert(out@ + replaced(s@.skip(i + from.len()), from@, to@) =~= o + (to@ + replaced(
                s@.skip(i as int).skip(from@.len() as int),
                from@,
                to@,
            )));
            i = i + from.len();
        } else {
            assert(s@.skip(i as int).drop_first() =~= s@.skip(i + 1));
            let ghost o = out@;
            out.push(s[i]);
            assert(out@ + replaced(s@.skip(i + 1), from@, to@) =~= o + (seq![s@[i as int]]
                + replaced(s@.skip(i as int).drop_first(), from@, to@)));
            i = i + 1;
        }
    }
    assert(s@.skip(i as int) =~= seq![]);
    assert(out@ + seq![] =~= out@);
    out
}

/// `s` with the escape sequences for carriage return and newline, newline,
/// tab and double quote decoded, then their doubled-backslash forms, in
/// that order.
pub open spec fn decoded(s: Seq<char>) -> Seq<char> {
    let s1 = replaced(s, seq!['\\', 'r', '\\', 'n'], seq!['\n']);
    let s2 = replaced(s1, seq!['\\', 'n'], seq!['\n']);
    let s3 = replaced(s2, seq!['\\', 't'], seq!['\t']);
    let s4 = replaced(s3, seq!['\\', '"'], seq!['"']);
    let s5 = replaced(s4, seq!['\\', '\\', 'n'], seq!['\n']);
    let s6 = replaced(s5, seq!['\\', '\\', 't'], seq!['\t']);
    replaced(s6, seq!['\\', '\\', '"'], seq!['"'])
}

/// Decodes the common escape sequences of `s`.
pub fn decode_common_escapes(s: &str) -> (r: String)
    ensures
        r@ == decoded(s@),
{
    let cs = chars_of(s);
    let v = decode_chars(cs.as_slice());
    string_of(v.as_slice())
}

fn decode_chars(cs: &[char]) -> (r: Vec<char>)
    ensures
        r@ == decoded(cs@),
{
    let nl = vec!['\n'];
    let tab = vec!['\t'];
    let quote = vec!['"'];
    let e1 = vec!['\\', 'r', '\\', 'n'];
    let e2 = vec!['\\', 'n'];
    let e3 = vec!['\\', 't'];
    let e4 = vec!['\\', '"'];
    let e5 = vec!['\\', '\\', 'n'];
    let e6 = vec!['\\', '\\', 't'];
    let e7 = vec!['\\', '\\', '"'];
    assert(nl@ =~= seq!['\n']);
    assert(tab@ =~= seq!['\t']);
    assert(quote@ =~= seq!['"']);
    assert(e1@ =~= seq!['\\', 'r', '\\', 'n']);
    assert(e2@ =~= seq!['\\', 'n']);
    assert(e3@ =~= seq!['\\', 't']);
    assert(e4@ =~= seq!['\\', '"']);
    assert(e5@ =~= seq!['\\', '\\', 'n']);
    assert(e6@ =~= seq!['\\', '\\', 't']);
    assert(e7@ =~= seq!['\\', '\\', '"']);
    let s1 = replace_all(cs, e1.as_slice(), nl.as_slice());
    let s2 = replace_all(s1.as_slice(), e2.as_slice(), nl.as_slice());
    let s3 = replace_all(s2.as_slice(), e3.as_slice(), tab.as_slice());
    let s4 = replace_all(s3.as_slice(), e4.as_slice(), quote.as_slice());
    let s5 = replace_all(s4.as_slice(), e5.as_slice(), nl.as_slice());
    let s6 = replace_all(s5.as_slice(), e6.as_slice(), tab.as_slice());
    replace_all(s6.as_slice(), e7.as_slice(), quote.as_slice())
}

// ---------------------------------------------------------------- coercion

/// The heading that a bare section label becomes.
pub open spec fn section_heading(t: Seq<char>) -> Option<Seq<char>> {
    if t == "Parameters:"@ {
        Some("## Parameters"@)
    } else if t == "Returns:"@ {
        Some("## Returns"@)
    } else if t == "Errors:"@ {
        Some("## Errors"@)
    } else if t == "Safety:"@ {
        Some("## Safety"@)
    } else if t == "Notes:"@ {
        Some("## Notes"@)
    } else if t == "Examples:"@ {
        Some("## Examples"@)
    } else {
        None
    }
}

/// `l`, or the heading it stands for when it is a bare section label.
pub open spec fn relabel(l: Seq<char>) -> Seq<char> {
    match section_heading(trim(l)) {
        Some(h) => h,
        None => l,
    }
}

/// The lines of `raw` without carriage returns or trailing whitespace.
pub open spec fn raw_lines(raw: Seq<char>) -> Seq<Seq<char>> {
    trim_end_all(lines(without_cr(raw)))
}

/// Whether `raw` has nothing but blank lines.
pub open spec fn all_blank(raw: Seq<char>) -> bool {
    forall|i: int| 0 <= i < raw_lines(raw).len() ==> is_blank(#[trigger] raw_lines(raw)[i])
}

/// A line left over from structured data: a bare brace or a label.
pub open spec fn is_noise(t: Seq<char>) -> bool {
    t == seq!['{'] || t == seq!['}'] || t == seq!['}', ','] || ends_with_colon(t)
}

pub open spec fn ends_with_colon(t: Seq<char>) -> bool {
    t.len() > 0 && t.last() == ':'
}

/// `t` without one pair of surrounding double quotes.
pub open spec fn unquoted(t: Seq<char>) -> Seq<char> {
    if t.len() >= 2 && t[0] == '"' && t.last() == '"' {
        t.subrange(1, t.len() - 1)
    } else {
        t
    }
}

/// One line of the marker-prefixed rendering, given the lines so far and
/// whether the last line taken was blank.
pub open spec fn coerce_step(acc: (Seq<Seq<char>>, bool), l: Seq<char>) -> (Seq<Seq<char>>, bool) {
    let out = acc.0;
    let prev_blank = acc.1;
    let t = trim(l);
    if starts_with(l, fence_mark()) {
        acc
    } else if t.len() == 0 {
        if prev_blank {
            (out, true)
        } else {
            (out.push(doc_marker()), true)
        }
    } else if starts_with(t, doc_marker()) {
        (out.push(t), false)
    } else if is_noise(t) {
        (out, false)
    } else {
        (out.push(doc_marker() + seq![' '] + unquoted(t)), false)
    }
}

/// The marker-prefixed rendering of `ls`: raw fences dropped, runs of
/// blank lines collapsed to one bare marker, leftovers of structured data
/// dropped, one pair of quotes taken off, and the marker put before the rest.
pub open spec fn coerce_fold(ls: Seq<Seq<char>>) -> (Seq<Seq<char>>, bool)
    decreases ls.len(),
{
    if ls.len() == 0 {
        (seq![], false)
    } else {
        coerce_step(coerce_fold(ls.drop_last()), ls.last())
    }
}

/// Length of the run of documentation lines of `ls` that starts at `i`.
pub open spec fn run_at(ls: Seq<Seq<char>>, i: int) -> nat
    decreases ls.len() - i,
{
    if 0 <= i < ls.len() && is_doc_line(ls[i]) {
        1 + run_at(ls, i + 1)
    } else {
        0
    }
}

/// Line `i` starts a first longest run of documentation lines: no run is
/// longer, and every run that starts before it is shorter.
pub open spec fn longest_at(ls: Seq<Seq<char>>, i: int) -> bool {
    &&& 0 <= i < ls.len()
    &&& run_at(ls, i) > 0
    &&& forall|j: int| 0 <= j < ls.len() ==> #[trigger] run_at(ls, j) <= run_at(ls, i)
    &&& forall|j: int| 0 <= j < i ==> #[trigger] run_at(ls, j) < run_at(ls, i)
}

/// Index of the first line of `ls`, from `i` on, that is not blank.
pub open spec fn first_nonblank(ls: Seq<Seq<char>>, i: int) -> Option<int>
    decreases ls.len() - i,
{
    if i < 0 || i >= ls.len() {
        None
    } else if !is_blank(ls[i]) {
        Some(i)
    } else {
        first_nonblank(ls, i + 1)
    }
}

/// The first longest run of documentation lines of `ls`; without one, the
/// first non-blank line as a documentation line, or a bare marker.
pub open spec fn longest_block(ls: Seq<Seq<char>>) -> Seq<Seq<char>> {
    if exists|i: int| longest_at(ls, i) {
        let i = choose|i: int| longest_at(ls, i);
        ls.subrange(i, i + run_at(ls, i))
    } else {
        match first_nonblank(ls, 0) {
            Some(k) => seq![
                if starts_with(ls[k], doc_marker()) {
                    ls[k]
                } else {
                    doc_marker() + seq![' '] + ls[k]
                },
            ],
            None => seq![doc_marker()],
        }
    }
}

proof fn lemma_longest_at_unique(ls: Seq<Seq<char>>, i: int, j: int)
    requires
        longest_at(ls, i),
        longest_at(ls, j),
    ensures
        i == j,
{
    if i < j {
        assert(run_at(ls, i) < run_at(ls, j));
        assert(run_at(ls, j) <= run_at(ls, i));
    } else if j < i {
        assert(run_at(ls, j) < run_at(ls, i));
        assert(run_at(ls, i) <= run_at(ls, j));
    }
}

/// `l` without a single trailing backslash.
pub open spec fn drop_backslash(l: Seq<char>) -> Seq<char> {
    if l.len() > 0 && l.last() == '\\' && !(l.len() > 1 && l[l.len() - 2] == '\\') {
        l.drop_last()
    } else {
        l
    }
}

/// What follows the slashes of a line and the whitespace after them.
pub open spec fn fence_body(l: Seq<char>) -> Seq<char> {
    trim_start(drop_lead(l, '/'))
}

/// The lines of `ls` with bare opening fences declaring the language, and
/// whether a fenced region is left open at the end.
pub open spec fn fence_fold(ls: Seq<Seq<char>>) -> (Seq<Seq<char>>, bool)
    decreases ls.len(),
{
    if ls.len() == 0 {
        (seq![], false)
    } else {
        let acc = fence_fold(ls.drop_last());
        let l = drop_backslash(ls.last());
        let t = fence_body(l);
        if starts_with(t, fence_mark()) {
            (acc.0.push(
                if !acc.1 && t == fence_mark() {
                    "/// ```rust"@
                } else {
                    l
                },
            ), !acc.1)
        } else {
            (acc.0.push(l), acc.1)
        }
    }
}

/// `fence_fold`, with a closing fence added when a region is left open.
pub open spec fn closed_fences(ls: Seq<Seq<char>>) -> Seq<Seq<char>> {
    let f = fence_fold(ls);
    if f.1 {
        f.0.push("/// ```"@)
    } else {
        f.0
    }
}

/// `ls` without the bare markers and empty lines it ends with.
pub open spec fn drop_trailing_bare(ls: Seq<Seq<char>>) -> Seq<Seq<char>>
    decreases ls.len(),
{
    if ls.len() > 0 && (trim_end(ls.last()) == doc_marker() || trim_end(ls.last()).len() == 0) {
        drop_trailing_bare(ls.drop_last())
    } else {
        ls
    }
}

/// The lines that `coerced` joins.
pub open spec fn coerced_lines(raw: Seq<char>) -> Seq<Seq<char>> {
    drop_trailing_bare(
        closed_fences(longest_block(coerce_fold(raw_lines(raw).map_values(|l: Seq<char>| relabel(l))).0)),
    )
}

/// `raw` as one documentation block, or nothing when `raw` is blank.
pub open spec fn coerced(raw: Seq<char>) -> Seq<char> {
    if all_blank(raw) {
        seq![]
    } else {
        join(coerced_lines(raw))
    }
}

fn heading_of(t: &[char]) -> (r: Option<Vec<char>>)
    ensures
        r matches Some(h) ==> section_heading(t@) == Some(h@),
        r is None ==> section_heading(t@) is None,
{
    if same(t, chars_of("Parameters:").as_slice()) {
        Some(chars_of("## Parameters"))
    } else if same(t, chars_of("Returns:").as_slice()) {
        Some(chars_of("## Returns"))
    } else if same(t, chars_of("Errors:").as_slice()) {
        Some(chars_of("## Errors"))
    } else if same(t, chars_of("Safety:").as_slice()) {
        Some(chars_of("## Safety"))
    } else if same(t, chars_of("Notes:").as_slice()) {
        Some(chars_of("## Notes"))
    } else if same(t, chars_of("Examples:").as_slice()) {
        Some(chars_of("## Examples"))
    } else {
        None
    }
}

fn coerce_one(out: &mut Vec<Vec<char>>, prev_blank: bool, l: &Vec<char>) -> (r: bool)
    ensures
        (views(final(out)@), r) == coerce_step((views(old(out)@), prev_blank), l@),
{
    let fence = vec!['`', '`', '`'];
    let marker = vec!['/', '/', '/'];
    assert(l@.skip(0) =~= l@);
    if occurs_at(l.as_slice(), 0, fence.as_slice()) {
        return prev_blank;
    }
    let t = trim_chars(l.as_slice());
    let ghost before = views(out@);
    if t.len() == 0 {
        if !prev_blank {
            out.push(marker);
            assert(views(out@) =~= before.push(doc_marker()));
        }
        return true;
    }
    assert(t@.skip(0) =~= t@);
    if occurs_at(t.as_slice(), 0, marker.as_slice()) {
        let ghost tv = t@;
        out.push(t);
        assert(views(out@) =~= before.push(tv));
        return false;
    }
    let n = t.len();
    if (n == 1 && t[0] == '{') || (n == 1 && t[0] == '}') || (n == 2 && t[0] == '}' && t[1] == ',')
        || t[n - 1] == ':' {
        assert(is_noise(t@)) by {
            if n == 1 && t@[0] == '{' {
                assert(t@ =~= seq!['{']);
            } else if n == 1 && t@[0] == '}' {
                assert(t@ =~= seq!['}']);
            } else if n == 2 && t@[0] == '}' && t@[1] == ',' {
                assert(t@ =~= seq!['}', ',']);
            }
        }
        return false;
    }
    assert(!is_noise(t@)) by {
        if t@ == seq!['{'] || t@ == seq!['}'] || t@ == seq!['}', ','] {
            assert(t@.len() == n);
        }
    }
    let mut o = marker;
    o.push(' ');
    if n >= 2 && t[0] == '"' && t[n - 1] == '"' {
        let inner = slice_vec(t.as_slice(), 1, n - 1);
        append(&mut o, inner.as_slice());
    } else {
        append(&mut o, t.as_slice());
    }
    let ghost ov = o@;
    assert(ov =~= doc_marker() + seq![' '] + unquoted(t@));
    out.push(o);
    assert(views(out@) =~= before.push(ov));
    false
}

proof fn lemma_run_at(ls: Seq<Seq<char>>, i: int)
    requires
        0 <= i,
    ensures
        i + run_at(ls, i) <= (if i <= ls.len() {
            ls.len() as int
        } else {
            i
        }),
    decreases ls.len() - i,
{
    if 0 <= i < ls.len() && is_doc_line(ls[i]) {
        lemma_run_at(ls, i + 1);
    }
}

fn run_at_in(ls: &Vec<Vec<char>>, i: usize) -> (r: usize)
    requires
        i <= ls.len(),
    ensures
        r == run_at(views(ls@), i as int),
        i + r <= ls.len(),
{
    proof {
        lemma_run_at(views(ls@), i as int);
    }
    let mut j = i;
    while j < ls.len() && doc_line(ls[j].as_slice())
        invariant
            i <= j <= ls.len(),
            run_at(views(ls@), i as int) == (j - i) + run_at(views(ls@), j as int),
        decreases ls.len() - j,
    {
        j = j + 1;
    }
    j - i
}

/// The first longest run of documentation lines of `ls`; without one, the
/// first non-blank line as a documentation line, or a bare marker.
pub fn longest_block_in(ls: &Vec<Vec<char>>) -> (r: Vec<Vec<char>>)
    ensures
        views(r@) == longest_block(views(ls@)),
{
    let ghost v = views(ls@);
    let mut bs: usize = 0;
    let mut bl: usize = 0;
    let mut i: usize = 0;
    while i < ls.len()
        invariant
            i <= ls.len(),
            v == views(ls@),
            bs + bl <= ls.len(),
            bl == 0 ==> forall|j: int| 0 <= j < i ==> #[trigger] run_at(v, j) == 0,
            bl > 0 ==> bs < i && run_at(v, bs as int) == bl,
            forall|j: int| 0 <= j < i ==> #[trigger] run_at(v, j) <= bl,
            forall|j: int| 0 <= j < bs ==> #[trigger] run_at(v, j) < bl,
        decreases ls.len() - i,
    {
        let k = run_at_in(ls, i);
        if k > bl {
            bs = i;
            bl = k;
        }
        i = i + 1;
    }
    let marker = vec!['/', '/', '/'];
    assert(marker@ =~= doc_marker());
    if bl > 0 {
        assert(longest_at(v, bs as int));
        let ghost c = choose|c: int| longest_at(v, c);
        proof {
            lemma_longest_at_unique(v, c, bs as int);
        }
    } else {
        assert forall|c: int| !longest_at(v, c) by {
            if 0 <= c < v.len() {
                assert(run_at(v, c) == 0);
            }
        }
    }
    if bl == 0 {
        let mut j: usize = 0;
        while j < ls.len() && blank(ls[j].as_slice())
            invariant
                j <= ls.len(),
                v == views(ls@),
                first_nonblank(v, 0) == first_nonblank(v, j as int),
            decreases ls.len() - j,
        {
            j = j + 1;
        }
        let mut r: Vec<Vec<char>> = Vec::new();
        if j < ls.len() {
            let l = &ls[j];
            assert(l@.skip(0) =~= l@);
            assert(first_nonblank(v, j as int) == Some(j as int));
            if occurs_at(l.as_slice(), 0, marker.as_slice()) {
                r.push(l.clone());
                assert(views(r@) =~= seq![v[j as int]]);
            } else {
                let mut o = marker;
                o.push(' ');
                append(&mut o, l.as_slice());
                let ghost ov = o@;
                r.push(o);
                assert(views(r@) =~= seq![ov]);
                assert(ov =~= doc_marker() + seq![' '] + v[j as int]);
            }
        } else {
            assert(first_nonblank(v, j as int) is None);
            r.push(marker);
            assert(views(r@) =~= seq![doc_marker()]);
        }
        assert(views(r@) =~= longest_block(v));
        r
    } else {
        let mut r: Vec<Vec<char>> = Vec::new();
        let mut k = bs;
        while k < bs + bl
            invariant
                bs <= k <= bs + bl <= ls.len(),
                v == views(ls@),
                views(r@) == v.subrange(bs as int, k as int),
            decreases bs + bl - k,
        {
            let ghost before = views(r@);
            r.push(ls[k].clone());
            assert(views(r@) =~= before.push(v[k as int]));
            assert(v.subrange(bs as int, k + 1) =~= v.subrange(bs as int, k as int).push(v[k as int]));
            k = k + 1;
        }
        r
    }
}

/// The first longest run of lines that begin, after whitespace, with the
/// comment marker; without one, the first non-blank line given the marker,
/// or a bare marker.
pub fn extract_longest_doc_block(lines: &[String]) -> (r: Vec<String>)
    ensures
        r@.map_values(|s: String| s@) == longest_block(lines@.map_values(|s: String| s@)),
{
    let mut ls: Vec<Vec<char>> = Vec::new();
    let mut i: usize = 0;
    while i < lines.len()
        invariant
            i <= lines.len(),
            views(ls@) == lines@.map_values(|s: String| s@).take(i as int),
        decreases lines.len() - i,
    {
        let c = chars_of(lines[i].as_str());
        let ghost before = views(ls@);
        ls.push(c);
        assert(views(ls@) =~= before.push(lines@[i as int]@));
        assert(lines@.map_values(|s: String| s@).take(i + 1) =~= lines@.map_values(|s: String| s@).take(
            i as int,
        ).push(lines@[i as int]@));
        i = i + 1;
    }
    assert(lines@.map_values(|s: String| s@).take(i as int) =~= lines@.map_values(|s: String| s@));
    let b = longest_block_in(&ls);
    let mut r: Vec<String> = Vec::new();
    let mut j: usize = 0;
    while j < b.len()
        invariant
            j <= b.len(),
            r@.map_values(|s: String| s@) == views(b@).take(j as int),
        decreases b.len() - j,
    {
        let s = string_of(b[j].as_slice());
        let ghost before = r@.map_values(|s: String| s@);
        r.push(s);
        assert(r@.map_values(|s: String| s@) =~= before.push(b@[j as int]@));
        assert(views(b@).take(j + 1) =~= views(b@).take(j as int).push(b@[j as int]@));
        j = j + 1;
    }
    assert(views(b@).take(j as int) =~= views(b@));
    r
}

fn relabel_line(l: &Vec<char>) -> (r: Vec<char>)
    ensures
        r@ == relabel(l@),
{
    let t = trim_chars(l.as_slice());
    match heading_of(t.as_slice()) {
        Some(h) => h,
        None => l.clone(),
    }
}

fn fence_line_step(out: &mut Vec<Vec<char>>, open: bool, l0: &Vec<char>) -> (r: bool)
    ensures
        ({
            let l = drop_backslash(l0@);
            let t = fence_body(l);
            if starts_with(t, fence_mark()) {
                views(final(out)@) == views(old(out)@).push(
                    if !open && t == fence_mark() {
                        "/// ```rust"@
                    } else {
                        l
                    },
                ) && r == !open
            } else {
                views(final(out)@) == views(old(out)@).push(l) && r == open
            }
        }),
{
    let n = l0.len();
    let l = if n > 0 && l0[n - 1] == '\\' && !(n > 1 && l0[n - 2] == '\\') {
        slice_vec(l0.as_slice(), 0, n - 1)
    } else {
        l0.clone()
    };
    assert(l@ =~= drop_backslash(l0@));
    let d = drop_lead_chars(l.as_slice(), '/');
    let t = trim_start_chars(d.as_slice());
    let fence = vec!['`', '`', '`'];
    assert(t@.skip(0) =~= t@);
    let ghost before = views(out@);
    if occurs_at(t.as_slice(), 0, fence.as_slice()) {
        if !open && same(t.as_slice(), fence.as_slice()) {
            let x = chars_of("/// ```rust");
            let ghost xv = x@;
            out.push(x);
            assert(views(out@) =~= before.push(xv));
        } else {
            let ghost lv = l@;
            out.push(l);
            assert(views(out@) =~= before.push(lv));
        }
        !open
    } else {
        let ghost lv = l@;
        out.push(l);
        assert(views(out@) =~= before.push(lv));
        open
    }
}

/// Renders `raw` as one documentation block: every line carries the comment
/// marker, the first longest run of such lines is kept, a bare opening
/// fence declares the language, an open fenced region is closed, and bare
/// markers at the end are dropped; a blank `raw` gives nothing.
pub fn coerce_to_rustdoc(raw: &str) -> (r: String)
    ensures
        r@ == coerced(raw@),
{
    let cs = chars_of(raw);
    let v = coerce_chars(cs.as_slice());
    string_of(v.as_slice())
}

fn coerce_chars(raw: &[char]) -> (r: Vec<char>)
    ensures
        r@ == coerced(raw@),
{
    let clean = remove_cr(raw);
    let rl = split_lines(clean.as_slice());
    let mut tl: Vec<Vec<char>> = Vec::new();
    let mut i: usize = 0;
    while i < rl.len()
        invariant
            i <= rl.len(),
            views(tl@) == trim_end_all(views(rl@).take(i as int)),
        decreases rl.len() - i,
    {
        let t = trim_end_chars(rl[i].as_slice());
        let ghost before = views(tl@);
        let ghost tv = t@;
        tl.push(t);
        assert(views(tl@) =~= before.push(tv));
        assert(trim_end_all(views(rl@).take(i + 1)) =~= trim_end_all(views(rl@).take(i as int)).push(
            tv,
        ));
        i = i + 1;
    }
    assert(views(rl@).take(i as int) =~= views(rl@));
    let ghost lv = views(tl@);
    assert(lv == raw_lines(raw@));
    let mut k: usize = 0;
    while k < tl.len() && blank(tl[k].as_slice())
        invariant
            k <= tl.len(),
            lv == views(tl@),
            forall|j: int| 0 <= j < k ==> is_blank(#[trigger] lv[j]),
        decreases tl.len() - k,
    {
        k = k + 1;
    }
    if k == tl.len() {
        assert(all_blank(raw@));
        return Vec::new();
    }
    assert(!is_blank(lv[k as int]));
    assert(!all_blank(raw@));
    let ghost rel = lv.map_values(|l: Seq<char>| relabel(l));
    let mut out: Vec<Vec<char>> = Vec::new();
    let mut pb = false;
    let mut j: usize = 0;
    assert(rel.take(0) =~= seq![]);
    while j < tl.len()
        invariant
            j <= tl.len(),
            lv == views(tl@),
            rel == lv.map_values(|l: Seq<char>| relabel(l)),
            (views(out@), pb) == coerce_fold(rel.take(j as int)),
        decreases tl.len() - j,
    {
        let l = relabel_line(&tl[j]);
        assert(rel.take(j + 1).drop_last() =~= rel.take(j as int));
        assert(rel.take(j + 1).last() == l@);
        pb = coerce_one(&mut out, pb, &l);
        j = j + 1;
    }
    assert(rel.take(j as int) =~= rel);
    let block = longest_block_in(&out);
    let ghost bv = views(block@);
    let mut f: Vec<Vec<char>> = Vec::new();
    let mut open = false;
    let mut m: usize = 0;
    assert(bv.take(0) =~= seq![]);
    while m < block.len()
        invariant
            m <= block.len(),
            bv == views(block@),
            (views(f@), open) == fence_fold(bv.take(m as int)),
        decreases block.len() - m,
    {
        assert(bv.take(m + 1).drop_last() =~= bv.take(m as int));
        assert(bv.take(m + 1).last() == block@[m as int]@);
        open = fence_line_step(&mut f, open, &block[m]);
        m = m + 1;
    }
    assert(bv.take(m as int) =~= bv);
    if open {
        let c = chars_of("/// ```");
        let ghost before = views(f@);
        let ghost cv = c@;
        f.push(c);
        assert(views(f@) =~= before.push(cv));
    }
    let ghost closed = views(f@);
    assert(closed == closed_fences(bv));
    let marker = vec!['/', '/', '/'];
    assert(marker@ =~= doc_marker());
    loop
        invariant
            drop_trailing_bare(views(f@)) == drop_trailing_bare(closed),
            marker@ == doc_marker(),
        ensures
            views(f@) == drop_trailing_bare(closed),
        decreases f.len(),
    {
        if f.len() == 0 {
            break;
        }
        let t = trim_end_chars(f[f.len() - 1].as_slice());
        if same(t.as_slice(), marker.as_slice()) || t.len() == 0 {
            let ghost before = views(f@);
            f.pop();
            assert(views(f@) =~= before.drop_last());
        } else {
            break;
        }
    }
    join_lines(&f)
}

// ---------------------------------------------------------------- balance

/// A line that opens or closes a fenced region, under any slashes.
pub open spec fn is_fence_line(l: Seq<char>) -> bool {
    starts_with(trim_start(drop_lead(trim_start(l), '/')), fence_mark())
}

/// Number of fence lines among `ls`.
pub open spec fn fence_line_count(ls: Seq<Seq<char>>) -> nat
    decreases ls.len(),
{
    if ls.len() == 0 {
        0
    } else {
        fence_line_count(ls.drop_last()) + if is_fence_line(ls.last()) {
            1nat
        } else {
            0nat
        }
    }
}

/// `s`, with a closing fence line added when its fence lines are odd in number.
pub open spec fn balanced(s: Seq<char>) -> Seq<char> {
    if fence_line_count(lines(s)) % 2 == 1 {
        s + "\n/// ```"@
    } else {
        s
    }
}

fn fence_line(l: &[char]) -> (r: bool)
    ensures
        r == is_fence_line(l@),
{
    let a = trim_start_chars(l);
    let b = drop_lead_chars(a.as_slice(), '/');
    let fence = vec!['`', '`', '`'];
    trimmed_starts_with(b.as_slice(), fence.as_slice())
}

/// Appends a closing fence line when `s` has an odd number of fence lines.
pub fn balance_code_fences(s: &str) -> (r: String)
    ensures
        r@ == balanced(s@),
{
    let cs = chars_of(s);
    let ls = split_lines(cs.as_slice());
    let mut odd = false;
    let mut i: usize = 0;
    assert(views(ls@).take(0) =~= seq![]);
    while i < ls.len()
        invariant
            i <= ls.len(),
            odd == (fence_line_count(views(ls@).take(i as int)) % 2 == 1),
        decreases ls.len() - i,
    {
        assert(views(ls@).take(i + 1).drop_last() =~= views(ls@).take(i as int));
        if fence_line(ls[i].as_slice()) {
            odd = !odd;
        }
        i = i + 1;
    }
    assert(views(ls@).take(i as int) =~= views(ls@));
    if odd {
        let mut v = cs;
        append_str(&mut v, "\n/// ```");
        string_of(v.as_slice())
    } else {
        string_of(cs.as_slice())
    }
}

// ---------------------------------------------------------------- leading lines

/// Number of bare markers that `ls` begins with.
pub open spec fn bare_lead(ls: Seq<Seq<char>>) -> nat
    decreases ls.len(),
{
    if ls.len() > 0 && trim_end(ls[0]) == doc_marker() {
        1 + bare_lead(ls.drop_first())
    } else {
        0
    }
}

/// `s` without the bare-marker lines it begins with.
pub open spec fn without_leading_bare(s: Seq<char>) -> Seq<char> {
    let ls = lines(s);
    if bare_lead(ls) == 0 {
        s
    } else {
        join(ls.skip(bare_lead(ls) as int))
    }
}

/// Drops the bare-marker lines that `s` begins with.
pub fn strip_leading_empty_doc_lines(s: &str) -> (r: String)
    ensures
        r@ == without_leading_bare(s@),
{
    let cs = chars_of(s);
    let ls = split_lines(cs.as_slice());
    let ghost v = views(ls@);
    let marker = vec!['/', '/', '/'];
    assert(marker@ =~= doc_marker());
    let mut i: usize = 0;
    assert(v.skip(0) =~= v);
    while i < ls.len() && same(trim_end_chars(ls[i].as_slice()).as_slice(), marker.as_slice())
        invariant
            i <= ls.len(),
            v == views(ls@),
            marker@ == doc_marker(),
            bare_lead(v) == i + bare_lead(v.skip(i as int)),
        decreases ls.len() - i,
    {
        assert(v.skip(i as int).drop_first() =~= v.skip(i + 1));
        i = i + 1;
    }
    if i == 0 {
        return string_of(cs.as_slice());
    }
    let mut rest: Vec<Vec<char>> = Vec::new();
    let mut k = i;
    while k < ls.len()
        invariant
            i <= k <= ls.len(),
            v == views(ls@),
            views(rest@) == v.subrange(i as int, k as int),
        decreases ls.len() - k,
    {
        let ghost before = views(rest@);
        rest.push(ls[k].clone());
        assert(views(rest@) =~= before.push(v[k as int]));
        assert(v.subrange(i as int, k + 1) =~= v.subrange(i as int, k as int).push(v[k as int]));
        k = k + 1;
    }
    assert(v.subrange(i as int, k as int) =~= v.skip(i as int));
    let j = join_lines(&rest);
    string_of(j.as_slice())
}

// ---------------------------------------------------------------- pipeline

/// The labels that answer-like wrappers begin with.
pub open spec fn wrapper_markers() -> Seq<Seq<char>> {
    seq!["ANSWER:"@, "RESPONSE:"@, "OUTPUT:"@, "QUESTION:"@]
}

/// The documentation block made of `raw`.
pub open spec fn sanitized(raw: Seq<char>) -> Seq<char> {
    without_leading_bare(
        balanced(
            coerced(
                decoded(
                    unwrapped(without_wrapper_marker(without_regions(raw, "think"@), wrapper_markers())),
                ),
            ),
        ),
    )
}

/// Turns free-form generated text into a documentation block: reasoning
/// regions and an answer label go, a wrapping fence is taken off, escapes
/// are decoded, and the rest becomes marker-prefixed lines with balanced
/// fences.
pub fn sanitize_llm_doc(raw: &str) -> (r: String)
    ensures
        r@ == sanitized(raw@),
{
    let s1 = strip_xml_like(raw, "think");
    let markers: Vec<&str> = vec!["ANSWER:", "RESPONSE:", "OUTPUT:", "QUESTION:"];
    assert(str_views(markers@) =~= wrapper_markers());
    let s2 = strip_wrapper_markers(s1.as_str(), markers.as_slice());
    let s3 = unwrap_code_fence_if_wrapped(s2.as_str());
    let s4 = decode_common_escapes(s3.as_str());
    let s5 = coerce_to_rustdoc(s4.as_str());
    let s6 = balance_code_fences(s5.as_str());
    strip_leading_empty_doc_lines(s6.as_str())
}

// ---------------------------------------------------------------- laws

/// `l` holds no newline and no carriage return.
pub open spec fn no_breaks(l: Seq<char>) -> bool {
    forall|k: int| 0 <= k < l.len() ==> #[trigger] l[k] != '\n' && l[k] != '\r'
}

/// A line of a finished block: it begins with the comment marker and holds
/// no line break.
pub open spec fn block_line(l: Seq<char>) -> bool {
    starts_with(l, doc_marker()) && no_breaks(l)
}

/// Every line of `ls` is a line of a finished block.
pub open spec fn block_lines(ls: Seq<Seq<char>>) -> bool {
    forall|i: int| 0 <= i < ls.len() ==> block_line(#[trigger] ls[i])
}

proof fn lemma_join_front(ls: Seq<Seq<char>>)
    requires
        ls.len() >= 2,
    ensures
        join(ls) == ls[0] + seq!['\n'] + join(ls.drop_first()),
    decreases ls.len(),
{
    if ls.len() == 2 {
        assert(ls.drop_last().len() == 1);
        assert(ls.drop_first().len() == 1);
        assert(join(ls.drop_last()) == ls.drop_last()[0]);
        assert(join(ls.drop_first()) == ls.drop_first()[0]);
        assert(ls.drop_first()[0] == ls.last());
        assert(join(ls) == join(ls.drop_last()) + seq!['\n'] + ls.last());
    } else {
        let dl = ls.drop_last();
        let df = ls.drop_first();
        lemma_join_front(dl);
        assert(dl.drop_first() =~= df.drop_last());
        assert(join(df) == join(df.drop_last()) + seq!['\n'] + df.last());
        assert(df.last() == ls.last());
        assert(dl[0] == ls[0]);
        assert(join(ls) == join(dl) + seq!['\n'] + ls.last());
        assert(join(ls) =~= ls[0] + seq!['\n'] + join(df));
    }
}

proof fn lemma_lines_after_prefix(l: Seq<char>, rest: Seq<char>, cur: Seq<char>)
    requires
        forall|k: int| 0 <= k < l.len() ==> l[k] != '\n',
    ensures
        lines_after(l + rest, cur) == lines_after(rest, cur + l),
    decreases l.len(),
{
    if l.len() == 0 {
        assert(l + rest =~= rest);
        assert(cur + l =~= cur);
    } else {
        assert((l + rest)[0] == l[0]);
        assert((l + rest).drop_first() =~= l.drop_first() + rest);
        lemma_lines_after_prefix(l.drop_first(), rest, cur.push(l[0]));
        assert(cur.push(l[0]) + l.drop_first() =~= cur + l);
    }
}

/// The lines of lines joined are those lines, when none is empty or holds a
/// line break.
proof fn lemma_lines_join(ls: Seq<Seq<char>>)
    requires
        forall|i: int| 0 <= i < ls.len() ==> (#[trigger] ls[i]).len() > 0 && no_breaks(ls[i]),
    ensures
        lines(join(ls)) == ls,
    decreases ls.len(),
{
    if ls.len() == 0 {
        assert(lines(join(ls)) =~= ls);
    } else if ls.len() == 1 {
        let l = ls[0];
        assert(forall|k: int| 0 <= k < l.len() ==> l[k] != '\n');
        lemma_lines_after_prefix(l, seq![], seq![]);
        assert(l + seq![] =~= l);
        assert(seq![] + l =~= l);
        assert(lines(join(ls)) =~= ls);
    } else {
        lemma_join_front(ls);
        let l = ls[0];
        let j = join(ls.drop_first());
        assert(forall|k: int| 0 <= k < l.len() ==> l[k] != '\n');
        assert(l + seq!['\n'] + j =~= l + (seq!['\n'] + j));
        lemma_lines_after_prefix(l, seq!['\n'] + j, seq![]);
        assert(seq![] + l =~= l);
        assert((seq!['\n'] + j)[0] == '\n');
        assert((seq!['\n'] + j).drop_first() =~= j);
        assert(strip_cr(l) == l) by {
            assert(l[l.len() - 1] != '\r');
        }
        assert forall|i: int| 0 <= i < ls.drop_first().len() implies (
        #[trigger] ls.drop_first()[i]).len() > 0 && no_breaks(ls.drop_first()[i]) by {
            assert(ls.drop_first()[i] == ls[i + 1]);
        }
        lemma_lines_join(ls.drop_first());
        assert(seq![l] + ls.drop_first() =~= ls);
    }
}

proof fn lemma_without_cr(s: Seq<char>)
    ensures
        forall|k: int| 0 <= k < without_cr(s).len() ==> #[trigger] without_cr(s)[k] != '\r',
    decreases s.len(),
{
    if s.len() > 0 {
        lemma_without_cr(s.drop_last());
        let w = without_cr(s.drop_last());
        if s.last() != '\r' {
            assert forall|k: int| 0 <= k < w.push(s.last()).len() implies #[trigger] w.push(
                s.last(),
            )[k] != '\r' by {
                if k < w.len() {
                    assert(w.push(s.last())[k] == w[k]);
                }
            }
        }
    }
}

proof fn lemma_lines_after_no_breaks(rest: Seq<char>, cur: Seq<char>)
    requires
        forall|k: int| 0 <= k < rest.len() ==> #[trigger] rest[k] != '\r',
        no_breaks(cur),
    ensures
        forall|i: int|
            0 <= i < lines_after(rest, cur).len() ==> no_breaks(#[trigger] lines_after(rest, cur)[i]),
    decreases rest.len(),
{
    if rest.len() == 0 {
        if cur.len() > 0 {
            assert(lines_after(rest, cur) == seq![cur]);
        } else {
            assert(lines_after(rest, cur) == Seq::<Seq<char>>::empty());
        }
    } else {
        assert forall|k: int| 0 <= k < rest.drop_first().len() implies #[trigger] rest.drop_first()[k]
            != '\r' by {
            assert(rest.drop_first()[k] == rest[k + 1]);
        }
        if rest[0] == '\n' {
            lemma_lines_after_no_breaks(rest.drop_first(), seq![]);
            let tail = lines_after(rest.drop_first(), seq![]);
            assert(lines_after(rest, cur) == seq![strip_cr(cur)] + tail);
            assert(no_breaks(strip_cr(cur))) by {
                if cur.len() > 0 && cur.last() == '\r' {
                    assert forall|k: int| 0 <= k < cur.drop_last().len() implies #[trigger] cur.drop_last()[k]
                        != '\n' && cur.drop_last()[k] != '\r' by {
                        assert(cur.drop_last()[k] == cur[k]);
                    }
                }
            }
            assert forall|i: int| 0 <= i < (seq![strip_cr(cur)] + tail).len() implies no_breaks(
                #[trigger] (seq![strip_cr(cur)] + tail)[i],
            ) by {
                if i > 0 {
                    assert((seq![strip_cr(cur)] + tail)[i] == tail[i - 1]);
                }
            }
        } else {
            assert(no_breaks(cur.push(rest[0]))) by {
                assert(rest[0] != '\r');
                assert forall|k: int| 0 <= k < cur.push(rest[0]).len() implies #[trigger] cur.push(
                    rest[0],
                )[k] != '\n' && cur.push(rest[0])[k] != '\r' by {
                    if k < cur.len() {
                        assert(cur.push(rest[0])[k] == cur[k]);
                    }
                }
            }
            lemma_lines_after_no_breaks(rest.drop_first(), cur.push(rest[0]));
            assert(lines_after(rest, cur) == lines_after(rest.drop_first(), cur.push(rest[0])));
        }
    }
}

proof fn lemma_trim_end_no_breaks(l: Seq<char>)
    requires
        no_breaks(l),
    ensures
        no_breaks(trim_end(l)),
{
    lemma_trim_end_take(l);
}

proof fn lemma_trim_no_breaks(l: Seq<char>)
    requires
        no_breaks(l),
    ensures
        no_breaks(trim(l)),
{
    lemma_trim_start_skip(l);
    lemma_trim_end_take(trim_start(l));
}

proof fn lemma_raw_lines(raw: Seq<char>)
    ensures
        forall|i: int|
            0 <= i < raw_lines(raw).len() ==> no_breaks(#[trigger] relabel(raw_lines(raw)[i])),
{
    let c = without_cr(raw);
    lemma_without_cr(raw);
    lemma_lines_after_no_breaks(c, seq![]);
    reveal_strlit("## Parameters");
    reveal_strlit("## Returns");
    reveal_strlit("## Errors");
    reveal_strlit("## Safety");
    reveal_strlit("## Notes");
    reveal_strlit("## Examples");
    assert forall|i: int| 0 <= i < raw_lines(raw).len() implies no_breaks(
        #[trigger] relabel(raw_lines(raw)[i]),
    ) by {
        lemma_trim_end_no_breaks(lines(c)[i]);
    }
}

proof fn lemma_marker_line(t: Seq<char>)
    requires
        no_breaks(t),
    ensures
        block_line(doc_marker() + seq![' '] + unquoted(t)),
        block_line(doc_marker()),
{
    let x = doc_marker() + seq![' '] + unquoted(t);
    assert(x.subrange(0, 3) =~= doc_marker());
    assert(doc_marker().subrange(0, 3) =~= doc_marker());
    assert forall|k: int| 0 <= k < x.len() implies #[trigger] x[k] != '\n' && x[k] != '\r' by {
        if k >= 4 {
            if t.len() >= 2 && t[0] == '"' && t.last() == '"' {
                assert(x[k] == t[k - 3]);
            } else {
                assert(x[k] == t[k - 4]);
            }
        }
    }
}

proof fn lemma_coerce_fold(ls: Seq<Seq<char>>)
    requires
        forall|i: int| 0 <= i < ls.len() ==> no_breaks(#[trigger] ls[i]),
    ensures
        block_lines(coerce_fold(ls).0),
    decreases ls.len(),
{
    if ls.len() > 0 {
        lemma_coerce_fold(ls.drop_last());
        let acc = coerce_fold(ls.drop_last());
        let l = ls.last();
        assert(no_breaks(l));
        lemma_trim_no_breaks(l);
        let t = trim(l);
        lemma_marker_line(t);
        let r = coerce_step(acc, l);
        assert(block_lines(r.0)) by {
            assert forall|i: int| 0 <= i < r.0.len() implies block_line(#[trigger] r.0[i]) by {
                if i < acc.0.len() {
                    assert(r.0[i] == acc.0[i]);
                }
            }
        }
    }
}

proof fn lemma_first_nonblank(ls: Seq<Seq<char>>, i: int)
    requires
        0 <= i,
    ensures
        first_nonblank(ls, i) matches Some(k) ==> 0 <= k < ls.len(),
    decreases ls.len() - i,
{
    if 0 <= i < ls.len() && is_blank(ls[i]) {
        lemma_first_nonblank(ls, i + 1);
    }
}

proof fn lemma_longest_block(ls: Seq<Seq<char>>)
    requires
        block_lines(ls),
    ensures
        block_lines(longest_block(ls)),
{
    lemma_first_nonblank(ls, 0);
    lemma_marker_line(seq![]);
    if !exists|i: int| longest_at(ls, i) {
        match first_nonblank(ls, 0) {
            Some(k) => {
                assert(block_line(ls[k]));
            },
            None => {},
        }
    } else {
        let b = choose|i: int| longest_at(ls, i);
        lemma_run_at(ls, b);
        let r = ls.subrange(b, b + run_at(ls, b));
        assert forall|i: int| 0 <= i < r.len() implies block_line(#[trigger] r[i]) by {
            assert(r[i] == ls[b + i]);
        }
    }
}

proof fn lemma_literal_lines()
    ensures
        block_line("/// ```rust"@),
        block_line("/// ```"@),
        "\n/// ```"@ == seq!['\n'] + "/// ```"@,
        is_fence_line("/// ```"@),
{
    reveal_strlit("/// ```rust");
    reveal_strlit("/// ```");
    reveal_strlit("\n/// ```");
    let f = "/// ```"@;
    assert(f =~= seq!['/', '/', '/', ' ', '`', '`', '`']);
    assert(f.subrange(0, 3) =~= doc_marker());
    assert("/// ```rust"@.subrange(0, 3) =~= doc_marker());
    assert("\n/// ```"@ =~= seq!['\n'] + f);
    assert(trim_start(f) == f);
    let f1 = seq!['/', '/', ' ', '`', '`', '`'];
    let f2 = seq!['/', ' ', '`', '`', '`'];
    let w = seq![' ', '`', '`', '`'];
    assert(f.drop_first() =~= f1);
    assert(f1.drop_first() =~= f2);
    assert(f2.drop_first() =~= w);
    assert(drop_lead(w, '/') == w);
    assert(drop_lead(f2, '/') == drop_lead(w, '/'));
    assert(drop_lead(f1, '/') == drop_lead(f2, '/'));
    assert(drop_lead(f, '/') == drop_lead(f1, '/'));
    assert(drop_lead(f, '/') == w);
    assert(w.drop_first() =~= fence_mark());
    assert(trim_start(fence_mark()) == fence_mark());
    assert(trim_start(w) == fence_mark());
    assert(fence_mark().subrange(0, 3) =~= fence_mark());
}

proof fn lemma_fence_fold(ls: Seq<Seq<char>>)
    requires
        block_lines(ls),
    ensures
        block_lines(fence_fold(ls).0),
        block_lines(closed_fences(ls)),
    decreases ls.len(),
{
    lemma_literal_lines();
    if ls.len() > 0 {
        lemma_fence_fold(ls.drop_last());
        let acc = fence_fold(ls.drop_last());
        let l0 = ls.last();
        assert(block_line(l0));
        let l = drop_backslash(l0);
        assert(block_line(l)) by {
            if l0.len() > 0 && l0.last() == '\\' && !(l0.len() > 1 && l0[l0.len() - 2] == '\\') {
                assert(l0.len() >= 4) by {
                    assert(l0.subrange(0, 3) == doc_marker());
                    if l0.len() <= 3 {
                        assert(l0[l0.len() - 1] == l0.subrange(0, 3)[l0.len() - 1]);
                    }
                }
                assert(l.subrange(0, 3) =~= l0.subrange(0, 3));
            }
        }
        let r = fence_fold(ls).0;
        assert forall|i: int| 0 <= i < r.len() implies block_line(#[trigger] r[i]) by {
            if i < acc.0.len() {
                assert(r[i] == acc.0[i]);
            }
        }
    }
    let f = fence_fold(ls);
    let c = closed_fences(ls);
    assert forall|i: int| 0 <= i < c.len() implies block_line(#[trigger] c[i]) by {
        if i < f.0.len() {
            assert(c[i] == f.0[i]);
        }
    }
}

proof fn lemma_drop_trailing_bare(ls: Seq<Seq<char>>)
    requires
        block_lines(ls),
    ensures
        block_lines(drop_trailing_bare(ls)),
    decreases ls.len(),
{
    if ls.len() > 0 && (trim_end(ls.last()) == doc_marker() || trim_end(ls.last()).len() == 0) {
        let d = ls.drop_last();
        assert forall|i: int| 0 <= i < d.len() implies block_line(#[trigger] d[i]) by {
            assert(d[i] == ls[i]);
        }
        lemma_drop_trailing_bare(d);
    }
}

/// The lines that `coerced` joins are lines of a finished block.
proof fn lemma_coerced_lines(raw: Seq<char>)
    ensures
        block_lines(coerced_lines(raw)),
{
    let rel = raw_lines(raw).map_values(|l: Seq<char>| relabel(l));
    lemma_raw_lines(raw);
    assert forall|i: int| 0 <= i < rel.len() implies no_breaks(#[trigger] rel[i]) by {
        assert(rel[i] == relabel(raw_lines(raw)[i]));
    }
    lemma_coerce_fold(rel);
    lemma_longest_block(coerce_fold(rel).0);
    lemma_fence_fold(longest_block(coerce_fold(rel).0));
    lemma_drop_trailing_bare(closed_fences(longest_block(coerce_fold(rel).0)));
}

proof fn lemma_block_lines_nonempty(ls: Seq<Seq<char>>)
    requires
        block_lines(ls),
    ensures
        forall|i: int| 0 <= i < ls.len() ==> (#[trigger] ls[i]).len() > 0 && no_breaks(ls[i]),
{
    assert forall|i: int| 0 <= i < ls.len() implies (#[trigger] ls[i]).len() > 0 && no_breaks(
        ls[i],
    ) by {
        assert(block_line(ls[i]));
    }
}

proof fn lemma_fence_count_concat(a: Seq<Seq<char>>, b: Seq<Seq<char>>)
    ensures
        fence_line_count(a + b) == fence_line_count(a) + fence_line_count(b),
    decreases b.len(),
{
    if b.len() == 0 {
        assert(a + b =~= a);
    } else {
        lemma_fence_count_concat(a, b.drop_last());
        assert((a + b).drop_last() =~= a + b.drop_last());
        assert((a + b).last() == b.last());
    }
}

proof fn lemma_bare_not_fence(l: Seq<char>)
    requires
        trim_end(l) == doc_marker(),
    ensures
        !is_fence_line(l),
{
    lemma_trim_end_take(l);
    let n = l.len() - trail_ws(l);
    assert(l.take(n).len() == n);
    assert(n == 3);
    let w = l.skip(3);
    assert(l.take(3) =~= doc_marker());
    assert(l =~= doc_marker() + w);
    assert forall|k: int| 0 <= k < w.len() implies is_ws(#[trigger] w[k]) by {
        assert(w[k] == l[k + 3]);
    }
    assert(l[0] == '/');
    assert(trim_start(l) == l);
    let l1 = seq!['/', '/'] + w;
    let l2 = seq!['/'] + w;
    assert(l.drop_first() =~= l1);
    assert(l1.drop_first() =~= l2);
    assert(l2.drop_first() =~= w);
    assert(l1[0] == '/' && l2[0] == '/');
    assert(w.len() > 0 ==> w[0] != '/') by {
        if w.len() > 0 {
            assert(is_ws(w[0]));
        }
    }
    assert(drop_lead(w, '/') == w);
    assert(drop_lead(l2, '/') == drop_lead(w, '/'));
    assert(drop_lead(l1, '/') == drop_lead(l2, '/'));
    assert(drop_lead(l, '/') == drop_lead(l1, '/'));
    assert(drop_lead(l, '/') == w);
    lemma_trim_start_skip(w);
    assert(lead_ws(w) == w.len()) by {
        if lead_ws(w) < w.len() {
            assert(is_ws(w[lead_ws(w) as int]));
        }
    }
    assert(trim_start(w).len() == 0);
}

proof fn lemma_bare_lead(ls: Seq<Seq<char>>)
    ensures
        bare_lead(ls) <= ls.len(),
        fence_line_count(ls.take(bare_lead(ls) as int)) == 0,
    decreases ls.len(),
{
    if ls.len() > 0 && trim_end(ls[0]) == doc_marker() {
        lemma_bare_lead(ls.drop_first());
        let i = bare_lead(ls) as int;
        lemma_bare_not_fence(ls[0]);
        assert(ls.take(i) =~= seq![ls[0]] + ls.drop_first().take(i - 1));
        lemma_fence_count_concat(seq![ls[0]], ls.drop_first().take(i - 1));
        assert(seq![ls[0]].drop_last() =~= Seq::<Seq<char>>::empty());
        assert(fence_line_count(Seq::<Seq<char>>::empty()) == 0);
        assert(seq![ls[0]].last() == ls[0]);
        assert(fence_line_count(seq![ls[0]]) == 0);
        assert(bare_lead(ls) == 1 + bare_lead(ls.drop_first()));
    } else {
        assert(ls.take(0) =~= Seq::<Seq<char>>::empty());
    }
}

/// What `sanitize_llm_doc` returns is the join of the lines of a finished
/// block, with an even number of fence lines.
proof fn lemma_sanitized_shape(raw: Seq<char>) -> (m: Seq<Seq<char>>)
    ensures
        sanitized(raw) == join(m),
        block_lines(m),
        fence_line_count(m) % 2 == 0,
{
    let x = decoded(
        unwrapped(without_wrapper_marker(without_regions(raw, "think"@), wrapper_markers())),
    );
    let m0 = if all_blank(x) {
        Seq::<Seq<char>>::empty()
    } else {
        coerced_lines(x)
    };
    lemma_coerced_lines(x);
    assert(coerced(x) == join(m0));
    lemma_literal_lines();
    let f = "/// ```"@;
    let m1 = if fence_line_count(m0) % 2 == 1 {
        m0.push(f)
    } else {
        m0
    };
    lemma_block_lines_nonempty(m0);
    lemma_lines_join(m0);
    assert(block_lines(m1)) by {
        assert forall|i: int| 0 <= i < m1.len() implies block_line(#[trigger] m1[i]) by {
            if i < m0.len() {
                assert(m1[i] == m0[i]);
            }
        }
    }
    if fence_line_count(m0) % 2 == 1 {
        assert(m0.len() > 0);
        assert(m1.drop_last() =~= m0);
        assert(join(m1) == join(m0) + seq!['\n'] + f);
        assert(balanced(coerced(x)) =~= join(m1));
        assert(fence_line_count(m1) == fence_line_count(m0) + 1);
    } else {
        assert(balanced(coerced(x)) == join(m1));
    }
    lemma_block_lines_nonempty(m1);
    lemma_lines_join(m1);
    let i = bare_lead(m1) as int;
    lemma_bare_lead(m1);
    let m2 = m1.skip(i);
    assert(m1.skip(0) =~= m1);
    assert(sanitized(raw) == join(m2));
    assert(m1 =~= m1.take(i) + m2);
    lemma_fence_count_concat(m1.take(i), m2);
    assert forall|k: int| 0 <= k < m2.len() implies block_line(#[trigger] m2[k]) by {
        assert(m2[k] == m1[k + i]);
    }
    m2
}

/// Every line of what `sanitize_llm_doc` returns begins with the comment
/// marker (so none is empty).
pub proof fn lemma_sanitized_lines_marked(raw: Seq<char>)
    ensures
        forall|i: int|
            0 <= i < lines(sanitized(raw)).len() ==> starts_with(
                #[trigger] lines(sanitized(raw))[i],
                doc_marker(),
            ),
{
    let m = lemma_sanitized_shape(raw);
    lemma_block_lines_nonempty(m);
    lemma_lines_join(m);
    assert forall|i: int| 0 <= i < lines(sanitized(raw)).len() implies starts_with(
        #[trigger] lines(sanitized(raw))[i],
        doc_marker(),
    ) by {
        assert(block_line(m[i]));
    }
}

/// What `sanitize_llm_doc` returns never has an odd number of fence lines.
pub proof fn lemma_sanitized_fences_even(raw: Seq<char>)
    ensures
        fence_line_count(lines(sanitized(raw))) % 2 == 0,
{
    let m = lemma_sanitized_shape(raw);
    lemma_block_lines_nonempty(m);
    lemma_lines_join(m);
}

} // verus!
