//! Regular expressions, through the `regex` crate.

use vstd::prelude::*;
use crate::text::{chars_of, lines, split_lines, string_of, views};

verus! {

#[verifier::external_type_specification]
#[verifier::external_body]
pub struct ExRegex(regex::Regex);

/// Whether `regex::Regex::new` accepts `pattern`.
pub uninterp spec fn regex_valid(pattern: Seq<char>) -> bool;

/// Whether the regular expression `pattern` matches somewhere in `text`.
pub uninterp spec fn regex_accepts(pattern: Seq<char>, text: Seq<char>) -> bool;

/// `text` with every match of `pattern` removed.
pub uninterp spec fn regex_erased(pattern: Seq<char>, text: Seq<char>) -> Seq<char>;

/// The first capture group of the first match of `pattern` in `text`, if
/// there is a match and the group took part in it.
pub uninterp spec fn regex_group1(pattern: Seq<char>, text: Seq<char>) -> Option<Seq<char>>;

/// The successive non-overlapping matches of `pattern` in `text`.
pub uninterp spec fn regex_found(pattern: Seq<char>, text: Seq<char>) -> Seq<Seq<char>>;

/// A compiled regular expression together with its pattern.
pub struct Matcher {
    pattern: String,
    re: regex::Regex,
}

impl Matcher {
    /// The pattern the matcher was compiled from.
    pub closed spec fn pattern(&self) -> Seq<char> {
        self.pattern@
    }
}

/// Whether `c` has a meaning of its own in a pattern.
pub open spec fn is_meta(c: char) -> bool {
    c == '\\' || c == '.' || c == '+' || c == '*' || c == '?' || c == '(' || c == ')' || c == '|'
        || c == '[' || c == ']' || c == '{' || c == '}' || c == '^' || c == '$' || c == '#' || c
        == '&' || c == '-' || c == '~'
}

/// `s` with a backslash before each character that has a meaning of its own.
pub open spec fn escaped(s: Seq<char>) -> Seq<char>
    decreases s.len(),
{
    if s.len() == 0 {
        s
    } else if is_meta(s.last()) {
        escaped(s.drop_last()) + seq!['\\', s.last()]
    } else {
        escaped(s.drop_last()).push(s.last())
    }
}

/// Relies on `regex::Regex::new`: it fails exactly on the patterns it
/// refuses, and the matcher keeps the pattern it was compiled from.
#[verifier::external_body]
pub(crate) fn compile(pattern: &str) -> (r: Option<Matcher>)
    ensures
        r is Some <==> regex_valid(pattern@),
        r matches Some(m) ==> m.pattern() == pattern@,
{
    match regex::Regex::new(pattern) {
        Ok(re) => Some(Matcher { pattern: pattern.to_string(), re }),
        Err(_) => None,
    }
}

/// Relies on `regex::Regex::is_match`.
#[verifier::external_body]
pub(crate) fn is_match(m: &Matcher, text: &str) -> (r: bool)
    ensures
        r == regex_accepts(m.pattern(), text@),
{
    m.re.is_match(text)
}

/// Relies on `regex::Regex::replace_all` with an empty replacement.
#[verifier::external_body]
pub(crate) fn erase_all(m: &Matcher, text: &str) -> (r: String)
    ensures
        r@ == regex_erased(m.pattern(), text@),
{
    m.re.replace_all(text, "").into_owned()
}

/// Relies on `regex::Regex::captures`, taking group 1.
#[verifier::external_body]
pub(crate) fn first_group(m: &Matcher, text: &str) -> (r: Option<String>)
    ensures
        r matches Some(g) ==> regex_group1(m.pattern(), text@) == Some(g@),
        r is None ==> regex_group1(m.pattern(), text@) is None,
{
    m.re.captures(text).and_then(|c| c.get(1)).map(|g| g.as_str().to_string())
}

/// Relies on `regex::Regex::find_iter`, taking the text of each match.
#[verifier::external_body]
pub(crate) fn find_all(m: &Matcher, text: &str) -> (r: Vec<String>)
    ensures
        r@.map_values(|w: String| w@) == regex_found(m.pattern(), text@),
{
    m.re.find_iter(text).map(|f| f.as_str().to_string()).collect()
}

fn meta_char(c: char) -> (r: bool)
    ensures
        r == is_meta(c),
{
    c == '\\' || c == '.' || c == '+' || c == '*' || c == '?' || c == '(' || c == ')' || c == '|'
        || c == '[' || c == ']' || c == '{' || c == '}' || c == '^' || c == '$' || c == '#' || c
        == '&' || c == '-' || c == '~'
}

/// `s` with a backslash before each character that has a meaning of its own
/// in a pattern, as `regex::escape` writes it.
pub fn escape(s: &str) -> (r: String)
    ensures
        r@ == escaped(s@),
{
    let cs = chars_of(s);
    let mut out: Vec<char> = Vec::new();
    let mut i: usize = 0;
    assert(cs@.take(0) =~= Seq::<char>::empty());
    while i < cs.len()
        invariant
            i <= cs.len(),
            out@ == escaped(cs@.take(i as int)),
        decreases cs.len() - i,
    {
        assert(cs@.take(i + 1).drop_last() =~= cs@.take(i as int));
        assert(cs@.take(i + 1).last() == cs@[i as int]);
        let ghost before = out@;
        if meta_char(cs[i]) {
            out.push('\\');
            out.push(cs[i]);
            assert(out@ =~= before + seq!['\\', cs@[i as int]]);
        } else {
            out.push(cs[i]);
        }
        i = i + 1;
    }
    assert(cs@.take(i as int) =~= cs@);
    string_of(out.as_slice())
}

/// A matcher for `pattern`, when the pattern compiles.
pub fn matcher(pattern: &str) -> (r: Option<Matcher>)
    ensures
        r is Some <==> regex_valid(pattern@),
        r matches Some(m) ==> m.pattern() == pattern@,
{
    compile(pattern)
}

/// Whether `pattern` compiles and matches `text`.
pub open spec fn accepts(pattern: Seq<char>, text: Seq<char>) -> bool {
    regex_valid(pattern) && regex_accepts(pattern, text)
}

/// Whether `pattern` matches the characters `text`; `false` when the pattern
/// does not compile.
pub fn matches_chars(m: &Matcher, text: &[char]) -> (r: bool)
    ensures
        r == regex_accepts(m.pattern(), text@),
{
    let s = string_of(text);
    is_match(m, s.as_str())
}

/// An identifier-like word.
pub const WORD_PATTERN: &'static str = r"[A-Za-z_][A-Za-z0-9_]*";

/// A type declaration line, after optional visibility.
pub const STRUCT_PATTERN: &'static str = r#"^\s*(?:pub(?:\([^)]*\))?\s+)?struct\b"#;

/// A function declaration line, after optional visibility, `async`,
/// `const`, `unsafe` and linkage qualifiers.
pub const FN_SIG_PATTERN: &'static str = r#"^\s*(?:pub(?:\([^)]*\))?\s+)?(?:async\s+)?(?:const\s+)?(?:unsafe\s+)?(?:extern\s+"[^"]*"\s+)?fn\b"#;

/// A field declaration line, after optional visibility.
pub const FIELD_PATTERN: &'static str = r#"^\s*(?:pub(?:\([^)]*\))?\s+)?(?:r#)?[A-Za-z_][A-Za-z0-9_]*\s*:\s*[^;{}]+,?\s*$"#;

/// An attribute line.
pub const ATTR_PATTERN: &'static str = r#"^\s*#\["#;

/// Lines scanned forward from the hinted line.
pub const FORWARD_WINDOW: usize = 20;

/// Lines scanned backward from the hinted line.
pub const BACKWARD_WINDOW: usize = 5;

/// Compiles `WORD_PATTERN`.
pub fn re_word() -> (r: Option<Matcher>)
    ensures
        r is Some <==> regex_valid(WORD_PATTERN@),
        r matches Some(m) ==> m.pattern() == WORD_PATTERN@,
{
    compile(WORD_PATTERN)
}

/// Compiles `STRUCT_PATTERN`.
pub fn re_struct() -> (r: Option<Matcher>)
    ensures
        r is Some <==> regex_valid(STRUCT_PATTERN@),
        r matches Some(m) ==> m.pattern() == STRUCT_PATTERN@,
{
    compile(STRUCT_PATTERN)
}

/// Compiles `FN_SIG_PATTERN`.
pub fn re_fn_sig() -> (r: Option<Matcher>)
    ensures
        r is Some <==> regex_valid(FN_SIG_PATTERN@),
        r matches Some(m) ==> m.pattern() == FN_SIG_PATTERN@,
{
    compile(FN_SIG_PATTERN)
}

/// Compiles `FIELD_PATTERN`.
pub fn re_field() -> (r: Option<Matcher>)
    ensures
        r is Some <==> regex_valid(FIELD_PATTERN@),
        r matches Some(m) ==> m.pattern() == FIELD_PATTERN@,
{
    compile(FIELD_PATTERN)
}

/// Compiles `ATTR_PATTERN`.
pub fn re_attr() -> (r: Option<Matcher>)
    ensures
        r is Some <==> regex_valid(ATTR_PATTERN@),
        r matches Some(m) ==> m.pattern() == ATTR_PATTERN@,
{
    compile(ATTR_PATTERN)
}

/// The first line from `i` up to `hi` that `pattern` matches.
pub open spec fn forward_hit(ls: Seq<Seq<char>>, pattern: Seq<char>, i: int, hi: int) -> Option<int>
    decreases hi - i,
{
    if i >= hi {
        None
    } else if regex_accepts(pattern, ls[i]) {
        Some(i)
    } else {
        forward_hit(ls, pattern, i + 1, hi)
    }
}

/// The last line before `j`, down to `lo`, that `pattern` matches.
pub open spec fn backward_hit(ls: Seq<Seq<char>>, pattern: Seq<char>, lo: int, j: int) -> Option<int>
    decreases j - lo,
{
    if j <= lo {
        None
    } else if regex_accepts(pattern, ls[j - 1]) {
        Some(j - 1)
    } else {
        backward_hit(ls, pattern, lo, j - 1)
    }
}

pub open spec fn min(a: int, b: int) -> int {
    if a < b {
        a
    } else {
        b
    }
}

/// The line that `pattern` matches nearest `start`: the first one in the
/// forward window from `start`, else the nearest one in the backward window
/// above it.
pub open spec fn sig_line_near(ls: Seq<Seq<char>>, start: int, pattern: Seq<char>) -> Option<int> {
    let total = ls.len() as int;
    let from = min(start, total);
    match forward_hit(ls, pattern, from, min(start + FORWARD_WINDOW, total)) {
        Some(i) => Some(i),
        None => backward_hit(
            ls,
            pattern,
            if start > BACKWARD_WINDOW {
                start - BACKWARD_WINDOW
            } else {
                0
            },
            from,
        ),
    }
}

/// The line of `src` that `re` matches nearest the 0-based line
/// `start_line0`: the first in the forward window, else the nearest in the
/// backward window.
pub fn find_sig_line_near(src: &str, start_line0: usize, re: &Matcher) -> (r: Option<usize>)
    ensures
        r matches Some(i) ==> sig_line_near(lines(src@), start_line0 as int, re.pattern()) == Some(
            i as int,
        ),
        r is None ==> sig_line_near(lines(src@), start_line0 as int, re.pattern()) is None,
{
    let cs = chars_of(src);
    let ls = split_lines(cs.as_slice());
    sig_line_in(&ls, start_line0, re)
}

/// `sig_line_near` over lines already split.
pub fn sig_line_in(ls: &Vec<Vec<char>>, start: usize, re: &Matcher) -> (r: Option<usize>)
    ensures
        r matches Some(i) ==> sig_line_near(views(ls@), start as int, re.pattern()) == Some(
            i as int,
        ) && i < ls.len(),
        r is None ==> sig_line_near(views(ls@), start as int, re.pattern()) is None,
{
    let ghost v = views(ls@);
    let total = ls.len();
    let from = if start < total {
        start
    } else {
        total
    };
    let hi = if start < total && total - start > FORWARD_WINDOW {
        start + FORWARD_WINDOW
    } else {
        total
    };
    assert(hi as int == min(start + FORWARD_WINDOW, total as int));
    let mut i = from;
    while i < hi
        invariant
            from <= i <= hi <= total,
            total == ls.len(),
            from as int == min(start as int, total as int),
            hi as int == min(start + FORWARD_WINDOW, total as int),
            v == views(ls@),
            forward_hit(v, re.pattern(), from as int, hi as int) == forward_hit(
                v,
                re.pattern(),
                i as int,
                hi as int,
            ),
        decreases hi - i,
    {
        if matches_chars(re, ls[i].as_slice()) {
            assert(v[i as int] == ls@[i as int]@);
            assert(forward_hit(v, re.pattern(), i as int, hi as int) == Some(i as int));
            assert(from as int == min(start as int, total as int));
            return Some(i);
        }
        i = i + 1;
    }
    let lo = if start > BACKWARD_WINDOW {
        start - BACKWARD_WINDOW
    } else {
        0
    };
    let mut j = from;
    while j > lo
        invariant
            j <= from <= total,
            total == ls.len(),
            from as int == min(start as int, total as int),
            hi as int == min(start + FORWARD_WINDOW, total as int),
            lo as int == (if start > BACKWARD_WINDOW {
                start - BACKWARD_WINDOW
            } else {
                0
            }),
            v == views(ls@),
            forward_hit(v, re.pattern(), from as int, hi as int) is None,
            backward_hit(v, re.pattern(), lo as int, from as int) == backward_hit(
                v,
                re.pattern(),
                lo as int,
                j as int,
            ),
        decreases j,
    {
        if matches_chars(re, ls[j - 1].as_slice()) {
            assert(v[j - 1] == ls@[j - 1]@);
            assert(backward_hit(v, re.pattern(), lo as int, j as int) == Some(j - 1));
            assert(from as int == min(start as int, total as int));
            return Some(j - 1);
        }
        j = j - 1;
    }
    None
}

} // verus!
