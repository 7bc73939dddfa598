//! Text as sequences of characters: whitespace, trimming, prefixes, lines.

use vstd::prelude::*;
use vstd::string::StrSliceExecFns;
use vstd::utf8::{
    encode_utf8, is_char_boundary, is_char_boundary_iff_not_is_continuation_byte,
    is_char_boundary_start_end_of_seq, valid_utf8,
};

verus! {

/// The characters that `char::is_whitespace` accepts (Unicode `White_Space`).
pub open spec fn is_ws(c: char) -> bool {
    let u = c as u32;
    u == 0x20 || (0x09 <= u && u <= 0x0d) || u == 0x85 || u == 0xa0 || u == 0x1680
        || (0x2000 <= u && u <= 0x200a) || u == 0x2028 || u == 0x2029 || u == 0x202f
        || u == 0x205f || u == 0x3000
}

/// `s` without its leading whitespace.
pub open spec fn trim_start(s: Seq<char>) -> Seq<char>
    decreases s.len(),
{
    if s.len() > 0 && is_ws(s[0]) {
        trim_start(s.drop_first())
    } else {
        s
    }
}

/// `s` without its trailing whitespace.
pub open spec fn trim_end(s: Seq<char>) -> Seq<char>
    decreases s.len(),
{
    if s.len() > 0 && is_ws(s.last()) {
        trim_end(s.drop_last())
    } else {
        s
    }
}

/// `s` without leading and trailing whitespace.
pub open spec fn trim(s: Seq<char>) -> Seq<char> {
    trim_end(trim_start(s))
}

/// Whether `s` holds no character other than whitespace.
pub open spec fn is_blank(s: Seq<char>) -> bool {
    forall|i: int| 0 <= i < s.len() ==> is_ws(#[trigger] s[i])
}

/// Whether `s` begins with `p`.
pub open spec fn starts_with(s: Seq<char>, p: Seq<char>) -> bool {
    p.len() <= s.len() && s.subrange(0, p.len() as int) == p
}

/// Whether `s` ends with `p`.
pub open spec fn ends_with(s: Seq<char>, p: Seq<char>) -> bool {
    p.len() <= s.len() && s.subrange(s.len() - p.len(), s.len() as int) == p
}

/// Whether `c` is whitespace, as `char::is_whitespace` has it.
pub fn is_whitespace(c: char) -> (r: bool)
    ensures
        r == is_ws(c),
{
    let u = c as u32;
    u == 0x20 || (0x09 <= u && u <= 0x0d) || u == 0x85 || u == 0xa0 || u == 0x1680 || (0x2000
        <= u && u <= 0x200a) || u == 0x2028 || u == 0x2029 || u == 0x202f || u == 0x205f || u
        == 0x3000
}

/// `l` without one trailing carriage return.
pub open spec fn strip_cr(l: Seq<char>) -> Seq<char> {
    if l.len() > 0 && l.last() == '\r' {
        l.drop_last()
    } else {
        l
    }
}

/// The lines of `rest`, given that `cur` is the unfinished line before it.
pub open spec fn lines_after(rest: Seq<char>, cur: Seq<char>) -> Seq<Seq<char>>
    decreases rest.len(),
{
    if rest.len() == 0 {
        if cur.len() == 0 {
            seq![]
        } else {
            seq![cur]
        }
    } else if rest[0] == '\n' {
        seq![strip_cr(cur)] + lines_after(rest.drop_first(), seq![])
    } else {
        lines_after(rest.drop_first(), cur.push(rest[0]))
    }
}

/// The lines of `s` as `str::lines` gives them: split at each newline, one
/// carriage return before a newline dropped, and no empty line after a final
/// newline.
pub open spec fn lines(s: Seq<char>) -> Seq<Seq<char>> {
    lines_after(s, seq![])
}

/// `ls` joined with a newline between neighbours.
pub open spec fn join(ls: Seq<Seq<char>>) -> Seq<char>
    decreases ls.len(),
{
    if ls.len() == 0 {
        seq![]
    } else if ls.len() == 1 {
        ls[0]
    } else {
        join(ls.drop_last()) + seq!['\n'] + ls.last()
    }
}

/// The views of a sequence of character vectors.
pub open spec fn views(v: Seq<Vec<char>>) -> Seq<Seq<char>> {
    v.map_values(|l: Vec<char>| l@)
}

/// Number of leading whitespace characters of `s`.
pub open spec fn lead_ws(s: Seq<char>) -> nat
    decreases s.len(),
{
    if s.len() > 0 && is_ws(s[0]) {
        1 + lead_ws(s.drop_first())
    } else {
        0
    }
}

/// `trim_start` drops the leading whitespace, and only that.
pub proof fn lemma_trim_start_skip(s: Seq<char>)
    ensures
        lead_ws(s) <= s.len(),
        trim_start(s) == s.skip(lead_ws(s) as int),
        forall|i: int| 0 <= i < lead_ws(s) ==> is_ws(#[trigger] s[i]),
        lead_ws(s) < s.len() ==> !is_ws(s[lead_ws(s) as int]),
    decreases s.len(),
{
    if s.len() > 0 && is_ws(s[0]) {
        lemma_trim_start_skip(s.drop_first());
        assert(s.drop_first().skip(lead_ws(s.drop_first()) as int) =~= s.skip(lead_ws(s) as int));
        assert forall|i: int| 0 <= i < lead_ws(s) implies is_ws(#[trigger] s[i]) by {
            if i > 0 {
                assert(s[i] == s.drop_first()[i - 1]);
            }
        }
    } else {
        assert(s.skip(0) =~= s);
    }
}

/// A line is blank exactly when nothing is left after its leading whitespace.
pub proof fn lemma_blank_trim_start(s: Seq<char>)
    ensures
        is_blank(s) <==> trim_start(s).len() == 0,
{
    lemma_trim_start_skip(s);
    if trim_start(s).len() != 0 {
        assert(!is_ws(s[lead_ws(s) as int]));
    }
}

/// Number of characters of `s` before its first non-whitespace character.
pub fn lead_ws_len(s: &[char]) -> (r: usize)
    ensures
        r == lead_ws(s@),
        r <= s@.len(),
        trim_start(s@) == s@.skip(r as int),
{
    proof {
        lemma_trim_start_skip(s@);
    }
    let mut i: usize = 0;
    while i < s.len() && is_whitespace(s[i])
        invariant
            i <= s.len(),
            lead_ws(s@) <= s.len(),
            forall|j: int| 0 <= j < lead_ws(s@) ==> is_ws(#[trigger] s@[j]),
            lead_ws(s@) < s.len() ==> !is_ws(s@[lead_ws(s@) as int]),
            forall|j: int| 0 <= j < i ==> is_ws(#[trigger] s@[j]),
            i <= lead_ws(s@),
        decreases s.len() - i,
    {
        i = i + 1;
    }
    i
}

/// Whether `s` holds only whitespace.
pub fn blank(s: &[char]) -> (r: bool)
    ensures
        r == is_blank(s@),
        r == (trim_start(s@).len() == 0),
{
    proof {
        lemma_blank_trim_start(s@);
    }
    lead_ws_len(s) == s.len()
}

/// Whether `p` occurs in `s` at position `k`.
pub fn occurs_at(s: &[char], k: usize, p: &[char]) -> (r: bool)
    requires
        k <= s.len(),
    ensures
        r == starts_with(s@.skip(k as int), p@),
{
    if p.len() > s.len() - k {
        return false;
    }
    let mut i: usize = 0;
    while i < p.len()
        invariant
            i <= p.len(),
            k + p.len() <= s.len(),
            forall|j: int| 0 <= j < i ==> s@[k + j] == p@[j],
        decreases p.len() - i,
    {
        if s[k + i] != p[i] {
            assert(s@.skip(k as int).subrange(0, p.len() as int)[i as int] != p@[i as int]);
            return false;
        }
        i = i + 1;
    }
    assert(s@.skip(k as int).subrange(0, p@.len() as int) =~= p@);
    true
}

/// Whether the text of `s` after its leading whitespace begins with `p`.
pub fn trimmed_starts_with(s: &[char], p: &[char]) -> (r: bool)
    ensures
        r == starts_with(trim_start(s@), p@),
{
    let k = lead_ws_len(s);
    occurs_at(s, k, p)
}

/// The characters of `s` from `lo` up to `hi`.
pub fn slice_vec(s: &[char], lo: usize, hi: usize) -> (r: Vec<char>)
    requires
        lo <= hi <= s.len(),
    ensures
        r@ == s@.subrange(lo as int, hi as int),
{
    let mut r: Vec<char> = Vec::new();
    let mut i = lo;
    while i < hi
        invariant
            lo <= i <= hi <= s.len(),
            r@ == s@.subrange(lo as int, i as int),
        decreases hi - i,
    {
        r.push(s[i]);
        i = i + 1;
    }
    r
}

/// Appends the characters of `p` to `out`.
pub fn append(out: &mut Vec<char>, p: &[char])
    ensures
        final(out)@ == old(out)@ + p@,
{
    let mut i: usize = 0;
    while i < p.len()
        invariant
            i <= p.len(),
            out@ == old(out)@ + p@.subrange(0, i as int),
        decreases p.len() - i,
    {
        out.push(p[i]);
        i = i + 1;
    }
}

/// Appends the characters of the string `p` to `out`.
pub fn append_str(out: &mut Vec<char>, p: &str)
    ensures
        final(out)@ == old(out)@ + p@,
{
    let v = chars_of(p);
    append(out, v.as_slice());
}

/// The lines of `s`.
pub fn split_lines(s: &[char]) -> (r: Vec<Vec<char>>)
    ensures
        views(r@) == lines(s@),
{
    let mut out: Vec<Vec<char>> = Vec::new();
    let mut cur: Vec<char> = Vec::new();
    let mut i: usize = 0;
    assert(s@.skip(0) =~= s@);
    assert(views(out@) =~= seq![]);
    assert(views(out@) + lines_after(s@.skip(0), cur@) =~= lines(s@));
    while i < s.len()
        invariant
            i <= s.len(),
            views(out@) + lines_after(s@.skip(i as int), cur@) == lines(s@),
        decreases s.len() - i,
    {
        assert(s@.skip(i as int).drop_first() =~= s@.skip(i + 1));
        if s[i] == '\n' {
            let mut line = cur;
            if line.len() > 0 && line[line.len() - 1] == '\r' {
                line.pop();
            }
            assert(line@ == strip_cr(cur@));
            let ghost before = views(out@);
            out.push(line);
            assert(views(out@) =~= before.push(strip_cr(cur@)));
            cur = Vec::new();
        } else {
            cur.push(s[i]);
        }
        i = i + 1;
    }
    if cur.len() > 0 {
        let ghost before = views(out@);
        out.push(cur);
        assert(views(out@) =~= before.push(cur@));
    }
    assert(views(out@) =~= lines(s@));
    out
}

/// `ls` joined with a newline between neighbours.
pub fn join_lines(ls: &Vec<Vec<char>>) -> (r: Vec<char>)
    ensures
        r@ == join(views(ls@)),
{
    let mut out: Vec<char> = Vec::new();
    let mut i: usize = 0;
    while i < ls.len()
        invariant
            i <= ls.len(),
            out@ == join(views(ls@).take(i as int)),
        decreases ls.len() - i,
    {
        let ghost done = views(ls@).take(i as int);
        assert(views(ls@).take(i + 1).drop_last() =~= done);
        if i > 0 {
            out.push('\n');
        }
        append(&mut out, ls[i].as_slice());
        assert(views(ls@).take(i + 1).last() == ls@[i as int]@);
        if i == 0 {
            assert(out@ =~= join(views(ls@).take(1)));
        } else {
            assert(out@ =~= join(views(ls@).take(i + 1)));
        }
        i = i + 1;
    }
    assert(views(ls@).take(ls.len() as int) =~= views(ls@));
    out
}

/// The line at `i` of `ls`, or the empty line past the end.
pub open spec fn line_or_empty(ls: Seq<Seq<char>>, i: int) -> Seq<char> {
    if 0 <= i < ls.len() {
        ls[i]
    } else {
        seq![]
    }
}

/// Number of trailing whitespace characters of `s`.
pub open spec fn trail_ws(s: Seq<char>) -> nat
    decreases s.len(),
{
    if s.len() > 0 && is_ws(s.last()) {
        1 + trail_ws(s.drop_last())
    } else {
        0
    }
}

/// `trim_end` drops the trailing whitespace, and only that.
pub proof fn lemma_trim_end_take(s: Seq<char>)
    ensures
        trail_ws(s) <= s.len(),
        trim_end(s) == s.take(s.len() - trail_ws(s)),
        forall|k: int| s.len() - trail_ws(s) <= k < s.len() ==> is_ws(#[trigger] s[k]),
    decreases s.len(),
{
    if s.len() > 0 && is_ws(s.last()) {
        lemma_trim_end_take(s.drop_last());
        assert forall|k: int| s.len() - trail_ws(s) <= k < s.len() implies is_ws(#[trigger] s[k]) by {
            if k < s.len() - 1 {
                assert(s[k] == s.drop_last()[k]);
            }
        }
        assert(s.drop_last().take(s.drop_last().len() - trail_ws(s.drop_last())) =~= s.take(
            s.len() - trail_ws(s),
        ));
    } else {
        assert(s.take(s.len() as int) =~= s);
    }
}

/// Length of `s` without its trailing whitespace.
pub fn trim_end_len(s: &[char]) -> (r: usize)
    ensures
        r <= s.len(),
        trim_end(s@) == s@.take(r as int),
{
    proof {
        lemma_trim_end_take(s@);
    }
    let mut k = s.len();
    assert(s@.take(k as int) =~= s@);
    while k > 0 && is_whitespace(s[k - 1])
        invariant
            k <= s.len(),
            trim_end(s@.take(k as int)) == trim_end(s@),
        decreases k,
    {
        assert(s@.take(k as int).drop_last() =~= s@.take(k - 1));
        k = k - 1;
    }
    proof {
        lemma_trim_end_take(s@.take(k as int));
        assert(s@.take(k as int).take(k as int) =~= s@.take(k as int));
    }
    k
}

/// `s` without its trailing whitespace.
pub fn trim_end_chars(s: &[char]) -> (r: Vec<char>)
    ensures
        r@ == trim_end(s@),
{
    let e = trim_end_len(s);
    slice_vec(s, 0, e)
}

/// `s` without its leading whitespace.
pub fn trim_start_chars(s: &[char]) -> (r: Vec<char>)
    ensures
        r@ == trim_start(s@),
{
    let k = lead_ws_len(s);
    slice_vec(s, k, s.len())
}

/// `s` without leading and trailing whitespace.
pub fn trim_chars(s: &[char]) -> (r: Vec<char>)
    ensures
        r@ == trim(s@),
{
    let t = trim_start_chars(s);
    trim_end_chars(t.as_slice())
}

/// Whether `a` and `b` hold the same characters.
pub fn same(a: &[char], b: &[char]) -> (r: bool)
    ensures
        r == (a@ == b@),
{
    if a.len() != b.len() {
        return false;
    }
    let r = occurs_at(a, 0, b);
    assert(a@.skip(0) =~= a@);
    assert(r ==> a@.subrange(0, b@.len() as int) =~= a@);
    r
}

/// `s` without the copies of `c` it begins with.
pub open spec fn drop_lead(s: Seq<char>, c: char) -> Seq<char>
    decreases s.len(),
{
    if s.len() > 0 && s[0] == c {
        drop_lead(s.drop_first(), c)
    } else {
        s
    }
}

/// `s` without the copies of `c` it ends with.
pub open spec fn drop_trail(s: Seq<char>, c: char) -> Seq<char>
    decreases s.len(),
{
    if s.len() > 0 && s.last() == c {
        drop_trail(s.drop_last(), c)
    } else {
        s
    }
}

/// `s` without the copies of `c` it begins with.
pub fn drop_lead_chars(s: &[char], c: char) -> (r: Vec<char>)
    ensures
        r@ == drop_lead(s@, c),
{
    let mut k: usize = 0;
    assert(s@.skip(0) =~= s@);
    while k < s.len() && s[k] == c
        invariant
            k <= s.len(),
            drop_lead(s@.skip(k as int), c) == drop_lead(s@, c),
        decreases s.len() - k,
    {
        assert(s@.skip(k as int).drop_first() =~= s@.skip(k + 1));
        k = k + 1;
    }
    slice_vec(s, k, s.len())
}

/// `s` without the copies of `c` it ends with.
pub fn drop_trail_chars(s: &[char], c: char) -> (r: Vec<char>)
    ensures
        r@ == drop_trail(s@, c),
{
    let mut k = s.len();
    assert(s@.take(k as int) =~= s@);
    while k > 0 && s[k - 1] == c
        invariant
            k <= s.len(),
            drop_trail(s@.take(k as int), c) == drop_trail(s@, c),
        decreases k,
    {
        assert(s@.take(k as int).drop_last() =~= s@.take(k - 1));
        k = k - 1;
    }
    slice_vec(s, 0, k)
}

/// The total length of the lines `ls`.
pub open spec fn total_len(ls: Seq<Seq<char>>) -> nat
    decreases ls.len(),
{
    if ls.len() == 0 {
        0
    } else {
        ls[0].len() + total_len(ls.drop_first())
    }
}

/// The lines of a text are together no longer than the text.
pub proof fn lemma_lines_after_total(rest: Seq<char>, cur: Seq<char>)
    ensures
        total_len(lines_after(rest, cur)) <= rest.len() + cur.len(),
    decreases rest.len(),
{
    if rest.len() == 0 {
        if cur.len() != 0 {
            assert(seq![cur].drop_first() =~= Seq::<Seq<char>>::empty());
            assert(total_len(seq![cur]) == cur.len() + total_len(seq![cur].drop_first()));
        }
    } else if rest[0] == '\n' {
        lemma_lines_after_total(rest.drop_first(), seq![]);
        let tail = lines_after(rest.drop_first(), seq![]);
        let all = seq![strip_cr(cur)] + tail;
        assert(all.drop_first() =~= tail);
        assert(all[0] == strip_cr(cur));
        assert(strip_cr(cur).len() <= cur.len());
        assert(lines_after(rest, cur) == all);
        assert(total_len(all) == strip_cr(cur).len() + total_len(tail));
    } else {
        lemma_lines_after_total(rest.drop_first(), cur.push(rest[0]));
    }
}

/// The total length of lines splits at any point.
pub proof fn lemma_total_split(ls: Seq<Seq<char>>, k: int)
    requires
        0 <= k <= ls.len(),
    ensures
        total_len(ls) == total_len(ls.take(k)) + total_len(ls.skip(k)),
    decreases k,
{
    if k == 0 {
        assert(ls.take(0) =~= Seq::<Seq<char>>::empty());
        assert(ls.skip(0) =~= ls);
    } else {
        lemma_total_split(ls.drop_first(), k - 1);
        assert(ls.take(k).drop_first() =~= ls.drop_first().take(k - 1));
        assert(ls.skip(k) =~= ls.drop_first().skip(k - 1));
    }
}

/// The total length of a run of lines is at most the length of the text.
pub proof fn lemma_lines_run_total(s: Seq<char>, a: int, b: int)
    requires
        0 <= a <= b <= lines(s).len(),
    ensures
        total_len(lines(s).subrange(a, b)) <= s.len(),
{
    let ls = lines(s);
    lemma_lines_after_total(s, seq![]);
    lemma_total_split(ls, a);
    let t = ls.skip(a);
    lemma_total_split(t, b - a);
    assert(t.take(b - a) =~= ls.subrange(a, b));
}

/// The UTF-8 bytes of `s`.
pub fn bytes_of(s: &str) -> (r: Vec<u8>)
    ensures
        r@ == encode_utf8(s@),
{
    s.as_bytes_vec()
}

/// Whether byte `i` of the valid UTF-8 text `b` starts a character (or is
/// its end).
pub fn char_boundary(b: &[u8], i: usize) -> (r: bool)
    requires
        valid_utf8(b@),
    ensures
        r == is_char_boundary(b@, i as int),
{
    if i == 0 {
        true
    } else if i > b.len() {
        false
    } else if i == b.len() {
        proof {
            is_char_boundary_start_end_of_seq(b@);
        }
        true
    } else {
        proof {
            is_char_boundary_iff_not_is_continuation_byte(b@, i as int);
        }
        !(0x80 <= b[i] && b[i] <= 0xbf)
    }
}

/// Relies on `String::from_utf8`: it fails exactly on bytes that are not
/// UTF-8, and the string holds the given bytes.
#[verifier::external_body]
pub(crate) fn string_from_utf8(v: Vec<u8>) -> (r: Option<String>)
    ensures
        r is Some <==> valid_utf8(v@),
        r matches Some(s) ==> encode_utf8(s@) == v@,
{
    String::from_utf8(v).ok()
}

/// The characters of `s`, in order.
pub fn chars_of(s: &str) -> (r: Vec<char>)
    ensures
        r@ == s@,
{
    let mut r: Vec<char> = Vec::new();
    for c in it: s.chars()
        invariant
            r@ == it.seq().subrange(0, it.index() as int),
            it.seq() == s@,
    {
        r.push(c);
    }
    r
}

/// Relies on `String`'s `FromIterator<&char>`: the string holds the given characters in order.
#[verifier::external_body]
pub(crate) fn string_of(v: &[char]) -> (r: String)
    ensures
        r@ == v@,
{
    v.iter().collect()
}

} // verus!
