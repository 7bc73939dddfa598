//! Line ranges, type bodies and field declarations of a source file.

use vstd::prelude::*;
use vstd::string::StrSliceExecFns;
use crate::regexes::{
    accepts, compile, first_group, matches_chars, re_attr, re_field, regex_accepts, regex_group1,
    regex_valid, Matcher, ATTR_PATTERN, FIELD_PATTERN,
};
use crate::text::{
    chars_of, join, join_lines, lemma_lines_run_total, lemma_total_split, lines, split_lines,
    string_of, total_len, trim_start, trim_start_chars, views,
};

verus! {

/// A field declared in a type's body.
#[derive(Debug)]
pub struct FieldSpec {
    /// The field's name, without a raw-identifier prefix.
    pub name: String,
    /// 0-based line of the declaration.
    pub field_line0: usize,
    /// 0-based line where its documentation goes: the top of the attribute
    /// block over it, or the declaration.
    pub insert_line0: usize,
    /// Fully qualified path of the type.
    pub parent_fqpath: String,
    /// The declaration line.
    pub field_line_text: String,
}

impl View for FieldSpec {
    type V = (Seq<char>, int, int, Seq<char>, Seq<char>);

    open spec fn view(&self) -> (Seq<char>, int, int, Seq<char>, Seq<char>) {
        (
            self.name@,
            self.field_line0 as int,
            self.insert_line0 as int,
            self.parent_fqpath@,
            self.field_line_text@,
        )
    }
}

/// The lines from `lo` through `hi` of `ls`, as far as there are any.
pub open spec fn line_span(ls: Seq<Seq<char>>, lo: int, hi: int) -> Seq<char> {
    if lo <= hi && lo < ls.len() {
        join(ls.subrange(lo, if hi + 1 < ls.len() {
            hi + 1
        } else {
            ls.len() as int
        }))
    } else {
        seq![]
    }
}

/// The lines of `src` from 0-based `lo_line0` through `hi_line0`, joined
/// with newlines; empty when the range is reversed or starts past the end.
pub fn extract_lines(src: &str, lo_line0: usize, hi_line0: usize) -> (r: String)
    ensures
        r@ == line_span(lines(src@), lo_line0 as int, hi_line0 as int),
{
    let cs = chars_of(src);
    let ls = split_lines(cs.as_slice());
    let ghost v = views(ls@);
    if lo_line0 <= hi_line0 && lo_line0 < ls.len() {
        let end = if hi_line0 < ls.len() - 1 {
            hi_line0 + 1
        } else {
            ls.len()
        };
        let mut part: Vec<Vec<char>> = Vec::new();
        let mut k = lo_line0;
        while k < end
            invariant
                lo_line0 <= k <= end <= ls.len(),
                v == views(ls@),
                views(part@) == v.subrange(lo_line0 as int, k as int),
            decreases end - k,
        {
            let ghost before = views(part@);
            part.push(ls[k].clone());
            assert(views(part@) =~= before.push(v[k as int]));
            assert(v.subrange(lo_line0 as int, k + 1) =~= v.subrange(lo_line0 as int, k as int).push(
                v[k as int],
            ));
            k = k + 1;
        }
        let j = join_lines(&part);
        string_of(j.as_slice())
    } else {
        string_of(Vec::<char>::new().as_slice())
    }
}

/// Opening braces less closing braces in `l`.
pub open spec fn brace_delta(l: Seq<char>) -> int
    decreases l.len(),
{
    if l.len() == 0 {
        0
    } else {
        brace_delta(l.drop_last()) + if l.last() == '{' {
            1int
        } else if l.last() == '}' {
            -1int
        } else {
            0int
        }
    }
}

/// The first line from `i` on that holds an opening brace.
pub open spec fn first_brace_line(ls: Seq<Seq<char>>, i: int) -> Option<int>
    decreases ls.len() - i,
{
    if i < 0 || i >= ls.len() {
        None
    } else if ls[i].contains('{') {
        Some(i)
    } else {
        first_brace_line(ls, i + 1)
    }
}

/// The first line from `j` on after which the brace depth, `depth` before
/// line `j`, is back to 0.
pub open spec fn closing_line(ls: Seq<Seq<char>>, j: int, depth: int) -> Option<int>
    decreases ls.len() - j,
{
    if j < 0 || j >= ls.len() {
        None
    } else if depth + brace_delta(ls[j]) == 0 {
        Some(j)
    } else {
        closing_line(ls, j + 1, depth + brace_delta(ls[j]))
    }
}

/// The body of the type declared at line `sig`: from the first line at or
/// after `sig` that holds an opening brace (depth 1 after it, whatever else
/// it holds) to the line after which the depth is back to 0.
pub open spec fn struct_body(ls: Seq<Seq<char>>, sig: int) -> Option<(int, int)> {
    match first_brace_line(ls, sig) {
        None => None,
        Some(b) => match closing_line(ls, b + 1, 1) {
            None => None,
            Some(e) => Some((b, e)),
        },
    }
}

proof fn lemma_brace_delta_bound(l: Seq<char>)
    ensures
        -(l.len() as int) <= brace_delta(l) <= l.len(),
    decreases l.len(),
{
    if l.len() > 0 {
        lemma_brace_delta_bound(l.drop_last());
    }
}

fn brace_delta_of(l: &[char]) -> (r: i128)
    ensures
        r as int == brace_delta(l@),
        -(l@.len() as int) <= r <= l@.len(),
{
    proof {
        lemma_brace_delta_bound(l@);
    }
    let mut d: i128 = 0;
    let mut i: usize = 0;
    assert(l@.take(0) =~= seq![]);
    while i < l.len()
        invariant
            i <= l.len(),
            d as int == brace_delta(l@.take(i as int)),
            -(i as int) <= d <= i,
        decreases l.len() - i,
    {
        assert(l@.take(i + 1).drop_last() =~= l@.take(i as int));
        if l[i] == '{' {
            d = d + 1;
        } else if l[i] == '}' {
            d = d - 1;
        }
        i = i + 1;
    }
    assert(l@.take(i as int) =~= l@);
    d
}

fn has_char(l: &[char], c: char) -> (r: bool)
    ensures
        r == l@.contains(c),
{
    let mut i: usize = 0;
    while i < l.len()
        invariant
            i <= l.len(),
            forall|k: int| 0 <= k < i ==> l@[k] != c,
        decreases l.len() - i,
    {
        if l[i] == c {
            assert(l@[i as int] == c);
            return true;
        }
        i = i + 1;
    }
    false
}

/// The lines `(open, close)` of the body of the type declared at 0-based
/// line `struct_sig_line0` (see `struct_body`).
pub fn find_struct_body_block(src: &str, struct_sig_line0: usize) -> (r: Option<(usize, usize)>)
    ensures
        r matches Some(p) ==> struct_body(lines(src@), struct_sig_line0 as int) == Some(
            (p.0 as int, p.1 as int),
        ),
        r is None ==> struct_body(lines(src@), struct_sig_line0 as int) is None,
{
    let cs = chars_of(src);
    let ls = split_lines(cs.as_slice());
    let ghost v = views(ls@);
    let mut b = struct_sig_line0;
    while b < ls.len() && !has_char(ls[b].as_slice(), '{')
        invariant
            struct_sig_line0 <= b,
            v == views(ls@),
            first_brace_line(v, struct_sig_line0 as int) == first_brace_line(v, b as int),
        decreases ls.len() - b,
    {
        b = b + 1;
    }
    if b >= ls.len() {
        return None;
    }
    let mut open: i128 = 1;
    let mut j = b + 1;
    assert(v.subrange(b + 1, b + 1) =~= Seq::<Seq<char>>::empty());
    while j < ls.len()
        invariant
            b < j <= ls.len(),
            v == views(ls@),
            v == lines(cs@),
            cs@ == src@,
            first_brace_line(v, struct_sig_line0 as int) == Some(b as int),
            closing_line(v, b + 1, 1) == closing_line(v, j as int, open as int),
            -(total_len(v.subrange(b + 1, j as int)) as int) <= open - 1 <= total_len(
                v.subrange(b + 1, j as int),
            ),
        decreases ls.len() - j,
    {
        let d = brace_delta_of(ls[j].as_slice());
        proof {
            let x = v.subrange(b + 1, j + 1);
            lemma_total_split(x, j - b - 1);
            assert(x.take(j - b - 1) =~= v.subrange(b + 1, j as int));
            assert(x.skip(j - b - 1) =~= seq![v[j as int]]);
            assert(seq![v[j as int]].drop_first() =~= Seq::<Seq<char>>::empty());
            lemma_lines_run_total(cs@, b + 1, j + 1);
            assert(total_len(seq![v[j as int]]) == v[j as int].len() + total_len(
                seq![v[j as int]].drop_first(),
            ));
            assert(cs@.len() == cs.len());
            assert(v[j as int] == ls@[j as int]@);
        }
        let ghost old_open = open;
        open = open + d;
        if open == 0 {
            assert(closing_line(v, j as int, old_open as int) == Some(j as int));
            assert(closing_line(v, b + 1, 1) == Some(j as int));
            assert(struct_body(v, struct_sig_line0 as int) == Some((b as int, j as int)));
            assert(v == lines(src@));
            return Some((b, j));
        }
        assert(closing_line(v, j as int, old_open as int) == closing_line(v, j + 1, open as int));
        j = j + 1;
    }
    None
}

/// The pattern that captures a field's name.
pub const FIELD_NAME_PATTERN: &'static str = r#"^\s*(?:pub(?:\([^)]*\))?\s+)?(?:r#)?([A-Za-z_][A-Za-z0-9_]*)\s*:"#;

/// Number of attribute lines from `j` on, up to line `end`.
pub open spec fn attr_run(ls: Seq<Seq<char>>, j: int, end: int) -> nat
    decreases ls.len() - j,
{
    if 0 <= j <= end && j < ls.len() && accepts(ATTR_PATTERN@, trim_start(ls[j])) {
        1 + attr_run(ls, j + 1, end)
    } else {
        0
    }
}

/// The name that a field declaration line declares, empty when none is found.
pub open spec fn field_name(l: Seq<char>) -> Seq<char> {
    if regex_valid(FIELD_NAME_PATTERN@) {
        match regex_group1(FIELD_NAME_PATTERN@, l) {
            Some(g) => g,
            None => seq![],
        }
    } else {
        seq![]
    }
}

/// The fields declared from line `i` on, up to the line before `end`: each
/// after an optional block of attribute lines, with the line where its
/// documentation goes.
pub open spec fn fields_from(ls: Seq<Seq<char>>, i: int, end: int, parent: Seq<char>) -> Seq<
    (Seq<char>, int, int, Seq<char>, Seq<char>),
>
    decreases ls.len() - i,
{
    let upper = if end > 0 {
        end - 1
    } else {
        0
    };
    if i < 0 || i >= ls.len() || i > upper {
        seq![]
    } else {
        let j = i + attr_run(ls, i, end);
        if j <= end && j < ls.len() && accepts(FIELD_PATTERN@, ls[j]) {
            let name = field_name(ls[j]);
            let rest = fields_from(ls, j + 1, end, parent);
            if name.len() > 0 {
                seq![(name, j, i, parent, ls[j])] + rest
            } else {
                rest
            }
        } else {
            fields_from(ls, i + 1, end, parent)
        }
    }
}

fn accepts_in(m: &Option<Matcher>, text: &[char]) -> (r: bool)
    ensures
        r == (m matches Some(x) && regex_accepts(x.pattern(), text@)),
{
    match m {
        Some(x) => matches_chars(x, text),
        None => false,
    }
}

/// The fields declared in the body of a type, whose braces stand on the
/// 0-based lines `body_start_line0` and `body_end_line0` of `file_src`.
pub fn extract_struct_fields_in_file(
    file_src: &str,
    body_start_line0: usize,
    body_end_line0: usize,
    parent_fqpath: &str,
) -> (r: Vec<FieldSpec>)
    ensures
        r@.map_values(|f: FieldSpec| f@) == fields_from(
            lines(file_src@),
            body_start_line0 + 1,
            body_end_line0 as int,
            parent_fqpath@,
        ),
{
    let cs = chars_of(file_src);
    let ls = split_lines(cs.as_slice());
    let ghost v = views(ls@);
    let attr_m = re_attr();
    let field_m = re_field();
    let name_m = compile(FIELD_NAME_PATTERN);
    let mut out: Vec<FieldSpec> = Vec::new();
    if body_start_line0 >= ls.len() {
        return out;
    }
    let end = body_end_line0;
    let upper = if end > 0 {
        end - 1
    } else {
        0
    };
    let mut i = body_start_line0 + 1;
    while i < ls.len() && i <= upper
        invariant
            body_start_line0 < i,
            v == views(ls@),
            attr_m is Some <==> regex_valid(ATTR_PATTERN@),
            attr_m matches Some(m) ==> m.pattern() == ATTR_PATTERN@,
            field_m is Some <==> regex_valid(FIELD_PATTERN@),
            field_m matches Some(m) ==> m.pattern() == FIELD_PATTERN@,
            name_m is Some <==> regex_valid(FIELD_NAME_PATTERN@),
            name_m matches Some(m) ==> m.pattern() == FIELD_NAME_PATTERN@,
            upper as int == (if end > 0 {
                end - 1
            } else {
                0
            }),
            fields_from(v, body_start_line0 + 1, end as int, parent_fqpath@) == out@.map_values(
                |f: FieldSpec| f@,
            ) + fields_from(v, i as int, end as int, parent_fqpath@),
        decreases ls.len() - i,
    {
        let mut j = i;
        while j <= end && j < ls.len() && accepts_in(
            &attr_m,
            trim_start_chars(ls[j].as_slice()).as_slice(),
        )
            invariant
                i <= j,
                v == views(ls@),
                attr_m is Some <==> regex_valid(ATTR_PATTERN@),
                attr_m matches Some(m) ==> m.pattern() == ATTR_PATTERN@,
                i + attr_run(v, i as int, end as int) == j + attr_run(v, j as int, end as int),
            decreases ls.len() - j,
        {
            j = j + 1;
        }
        let ghost before = out@.map_values(|f: FieldSpec| f@);
        if j <= end && j < ls.len() && accepts_in(&field_m, ls[j].as_slice()) {
            let text = string_of(ls[j].as_slice());
            let name = match &name_m {
                Some(m) => match first_group(m, text.as_str()) {
                    Some(g) => g,
                    None => string_of(Vec::<char>::new().as_slice()),
                },
                None => string_of(Vec::<char>::new().as_slice()),
            };
            assert(name@ == field_name(v[j as int]));
            if name.as_str().unicode_len() > 0 {
                let f = FieldSpec {
                    name,
                    field_line0: j,
                    insert_line0: i,
                    parent_fqpath: string_of(chars_of(parent_fqpath).as_slice()),
                    field_line_text: text,
                };
                let ghost fv = f@;
                out.push(f);
                assert(out@.map_values(|f: FieldSpec| f@) =~= before.push(fv));
                assert(before + fields_from(v, i as int, end as int, parent_fqpath@) =~= before.push(
                    fv,
                ) + fields_from(v, j + 1, end as int, parent_fqpath@));
            } else {
                proof {
                    assert(name@.len() == 0);
                }
            }
            i = j + 1;
        } else {
            i = i + 1;
        }
    }
    out
}

} // verus!
