//! The requests that ask for documentation of a function or a type.

use vstd::prelude::*;
use crate::grep::CallSite;
use crate::model::Row;
use crate::order::string_views;
use vstd::utf8::{char_is_scalar, encode_scalar, encode_utf8};
use crate::text::{
    bytes_of, append, append_str, blank, chars_of, is_blank, join, join_lines, lines, slice_vec, split_lines,
    string_of, trim, trim_chars, views,
};

verus! {

/// What the function request asks for in return.
pub const FN_OUTPUT_REQUIREMENTS: &'static str = "\n---\n## Output Requirements\n\
        Return **ONLY** a Rustdoc block composed of lines starting with `///`.\n\
        - No JSON, no backticks, no XML, no surrounding prose.\n\
        - Include a clear 1–2 sentence summary.\n\
        - If relevant, add sections titled exactly: `Parameters:`, `Returns:`, `Errors:`, `Notes:`, `Examples:`.\n\
        - Only include a `Safety:` section if the function is unsafe.
        - Use concise bullet points; examples should be doc-test friendly (no fenced code).\n\
        - Every line MUST start with `///` (or be a blank `///`).";

/// The shape of the answer the type request asks for.
pub const STRUCT_ANSWER_SHAPE: &'static str = r#"{
  "struct_doc": "/// short summary...\n/// ...",
  "fields": [
    { "name": "field_name", "doc": "/// one-line or short doc...\n/// ..." }
  ]
}"#;

/// Most calls listed in a function request.
pub const MAX_CALLS: usize = 50;

/// Most referencing functions listed in a type request.
pub const MAX_REFS: usize = 100;

/// Most characters of a function body in a request.
pub const BODY_MAX_CHARS: usize = 8000;

/// Most lines of a function body in a request.
pub const BODY_MAX_LINES: usize = 400;

/// Number of leading characters of `s` whose UTF-8 bytes fit in `budget`.
pub open spec fn fitting(s: Seq<char>, budget: int) -> nat
    decreases s.len(),
{
    if s.len() == 0 {
        0
    } else if encode_scalar(s[0] as u32).len() <= budget {
        1 + fitting(s.drop_first(), budget - encode_scalar(s[0] as u32).len())
    } else {
        0
    }
}

/// The first `max_lines` lines of `s`, joined; when that runs past
/// `max_chars` bytes, it is cut there (or, when the cut would split a
/// character, at that character's start) and a marker follows.
pub open spec fn truncated(s: Seq<char>, max_chars: int, max_lines: int) -> Seq<char> {
    let ls = lines(s);
    let t = join(ls.take(if max_lines < ls.len() {
        max_lines
    } else {
        ls.len() as int
    }));
    if encode_utf8(t).len() > max_chars {
        t.take(fitting(t, max_chars) as int) + "\n// …truncated…"@
    } else {
        t
    }
}

/// Keeps the first `max_lines` lines of `s`; when they run past `max_chars`
/// bytes, cuts them there (at the start of a character the cut would split)
/// and appends a truncation marker.
pub fn truncate_for_context(s: &str, max_chars: usize, max_lines: usize) -> (r: String)
    ensures
        r@ == truncated(s@, max_chars as int, max_lines as int),
{
    let v = truncate_chars(s, max_chars, max_lines);
    string_of(v.as_slice())
}

/// Number of UTF-8 bytes of `c`.
fn char_width(c: char) -> (w: usize)
    ensures
        w == encode_scalar(c as u32).len(),
{
    proof {
        char_is_scalar(c);
    }
    let u = c as u32;
    if u <= 0x7f {
        1
    } else if u <= 0x7ff {
        2
    } else if u <= 0xffff {
        3
    } else {
        4
    }
}

fn truncate_chars(s: &str, max_chars: usize, max_lines: usize) -> (r: Vec<char>)
    ensures
        r@ == truncated(s@, max_chars as int, max_lines as int),
{
    let cs = chars_of(s);
    let ls = split_lines(cs.as_slice());
    let n = if max_lines < ls.len() {
        max_lines
    } else {
        ls.len()
    };
    let mut kept: Vec<Vec<char>> = Vec::new();
    let mut i: usize = 0;
    while i < n
        invariant
            i <= n <= ls.len(),
            views(kept@) == views(ls@).take(i as int),
        decreases n - i,
    {
        let ghost before = views(kept@);
        kept.push(ls[i].clone());
        assert(views(kept@) =~= before.push(views(ls@)[i as int]));
        assert(views(ls@).take(i + 1) =~= views(ls@).take(i as int).push(views(ls@)[i as int]));
        i = i + 1;
    }
    let t = join_lines(&kept);
    let byte_len = bytes_of(string_of(t.as_slice()).as_str()).len();
    if byte_len > max_chars {
        let mut k: usize = 0;
        let mut budget = max_chars;
        assert(t@.skip(0) =~= t@);
        while k < t.len() && char_width(t[k]) <= budget
            invariant
                k <= t.len(),
                budget <= max_chars,
                fitting(t@, max_chars as int) == k + fitting(t@.skip(k as int), budget as int),
            decreases t.len() - k,
        {
            assert(t@.skip(k as int).drop_first() =~= t@.skip(k + 1));
            assert(t@.skip(k as int)[0] == t@[k as int]);
            budget = budget - char_width(t[k]);
            k = k + 1;
        }
        assert(k < t.len() ==> t@.skip(k as int)[0] == t@[k as int]);
        let mut out = slice_vec(t.as_slice(), 0, k);
        append_str(&mut out, "\n// …truncated…");
        out
    } else {
        t
    }
}

/// The section on present documentation: the documentation, trimmed, in a
/// code block after `already`, or a note that there is none.
pub open spec fn doc_section(doc: Option<String>, already: Seq<char>) -> Seq<char> {
    match doc {
        Some(d) => if !is_blank(d@) {
            already + "```rust\n"@ + trim(d@) + "\n```\n"@
        } else {
            "_No existing rustdoc found._\n"@
        },
        None => "_No existing rustdoc found._\n"@,
    }
}

/// One bullet per item, each in backticks.
pub open spec fn bullets(items: Seq<Seq<char>>) -> Seq<char>
    decreases items.len(),
{
    if items.len() == 0 {
        seq![]
    } else {
        bullets(items.drop_last()) + "- `"@ + items.last() + "`\n"@
    }
}

/// The line that lists one call.
pub open spec fn call_line(c: (Seq<char>, Option<Seq<char>>, Seq<char>)) -> Seq<char> {
    match c.1 {
        Some(q) => "- **"@ + c.0 + "** call → `"@ + c.2 + "` on `"@ + q + "`\n"@,
        None => "- **"@ + c.0 + "** call → `"@ + c.2 + "`\n"@,
    }
}

/// One line per call.
pub open spec fn call_lines(cs: Seq<(Seq<char>, Option<Seq<char>>, Seq<char>)>) -> Seq<char>
    decreases cs.len(),
{
    if cs.len() == 0 {
        seq![]
    } else {
        call_lines(cs.drop_last()) + call_line(cs.last())
    }
}

/// The views of a list of calls.
pub open spec fn call_views(cs: Seq<CallSite>) -> Seq<(Seq<char>, Option<Seq<char>>, Seq<char>)> {
    cs.map_values(|c: CallSite| c@)
}

/// The request for documentation of the function `f`.
pub open spec fn fn_question(f: Row, syms: Seq<Seq<char>>, calls: Seq<
    (Seq<char>, Option<Seq<char>>, Seq<char>),
>) -> Seq<char> {
    "# Rust Function Documentation Task\n"@ + "You are given context about a single Rust function.\n"@
        + "\n"@ + "## Function Identity\n"@ + "- **Fully-qualified path**: `"@ + f.fqpath@ + "`\n"@
        + "- **Signature**: `"@ + f.signature@ + "`\n"@ + "- **Visibility**: `"@ + f.visibility@
        + "`\n"@ + "\n## Existing Documentation\n"@ + doc_section(
        f.doc,
        "The function already has Rustdoc. Improve and rewrite it if necessary:\n"@,
    ) + "\n## Referenced Symbols (body-level)\n"@ + (if syms.len() == 0 {
        "_No symbol references detected._\n"@
    } else {
        bullets(syms)
    }) + (if calls.len() == 0 {
        seq![]
    } else {
        "\n## Function Calls Inside This Function\n"@ + call_lines(
            calls.take(if calls.len() < MAX_CALLS {
                calls.len() as int
            } else {
                MAX_CALLS as int
            }),
        )
    }) + (match f.body_text {
        Some(b) => "\n## Function Body (Truncated)\n"@ + "```rust\n"@ + truncated(
            b@,
            BODY_MAX_CHARS as int,
            BODY_MAX_LINES as int,
        ) + "\n```\n"@,
        None => seq![],
    }) + FN_OUTPUT_REQUIREMENTS@ + "\n"@
}

/// The request for documentation of the type `srow`.
pub open spec fn struct_question(srow: Row, body: Seq<char>, refs: Seq<Seq<char>>) -> Seq<char> {
    "# Rust Struct Documentation Task\n"@
        + "You are given the source of a single Rust struct and a list of functions that reference it.\n"@
        + "\n## Struct Identity\n"@ + "- **Fully-qualified path**: `"@ + srow.fqpath@ + "`\n"@
        + "- **Signature**: `"@ + srow.signature@ + "`\n"@ + "- **Visibility**: `"@
        + srow.visibility@ + "`\n"@ + "\n## Existing Documentation\n"@ + doc_section(
        srow.doc,
        "The struct already has Rustdoc. If needed, rewrite it to be concise:\n"@,
    ) + "\n## Struct Body (verbatim)\n"@ + "```rust\n"@ + body + "\n```\n"@
        + "\n## Referencing Functions (FQ paths)\n"@ + (if refs.len() == 0 {
        "_No referencing functions detected in the crate._\n"@
    } else {
        bullets(
            refs.take(if refs.len() < MAX_REFS {
                refs.len() as int
            } else {
                MAX_REFS as int
            }),
        )
    }) + "\n---\n## Output Requirements\n"@
        + "Respond in **structured JSON** (no prose) with this shape:\n"@ + STRUCT_ANSWER_SHAPE@
        + "\n"@
        + "- `struct_doc`: A short 1–2 sentence rustdoc for the struct (above attributes).\n"@
        + "- `fields`: One entry **per named field** appearing in the struct body; the `doc` value must be a ready-to-insert `///` block for that field (keep it short, include units/invariants if relevant).\n"@
}

fn doc_part(doc: &Option<String>, already: &str) -> (r: Vec<char>)
    ensures
        r@ == doc_section(*doc, already@),
{
    match doc {
        Some(d) => {
            let dc = chars_of(d.as_str());
            if !blank(dc.as_slice()) {
                let mut out = chars_of(already);
                append_str(&mut out, "```rust\n");
                let t = trim_chars(dc.as_slice());
                append(&mut out, t.as_slice());
                append_str(&mut out, "\n```\n");
                out
            } else {
                chars_of("_No existing rustdoc found._\n")
            }
        },
        None => chars_of("_No existing rustdoc found._\n"),
    }
}

fn bullets_part(items: &[String], n: usize) -> (r: Vec<char>)
    requires
        n <= items.len(),
    ensures
        r@ == bullets(string_views(items@).take(n as int)),
{
    let mut out: Vec<char> = Vec::new();
    let mut i: usize = 0;
    assert(string_views(items@).take(0) =~= seq![]);
    while i < n
        invariant
            i <= n <= items.len(),
            out@ == bullets(string_views(items@).take(i as int)),
        decreases n - i,
    {
        assert(string_views(items@).take(i + 1).drop_last() =~= string_views(items@).take(i as int));
        assert(string_views(items@).take(i + 1).last() == items@[i as int]@);
        append_str(&mut out, "- `");
        append_str(&mut out, items[i].as_str());
        append_str(&mut out, "`\n");
        i = i + 1;
    }
    out
}

fn calls_part(calls: &[CallSite], n: usize) -> (r: Vec<char>)
    requires
        n <= calls.len(),
    ensures
        r@ == call_lines(call_views(calls@).take(n as int)),
{
    let mut out: Vec<char> = Vec::new();
    let mut i: usize = 0;
    assert(call_views(calls@).take(0) =~= seq![]);
    while i < n
        invariant
            i <= n <= calls.len(),
            out@ == call_lines(call_views(calls@).take(i as int)),
        decreases n - i,
    {
        assert(call_views(calls@).take(i + 1).drop_last() =~= call_views(calls@).take(i as int));
        assert(call_views(calls@).take(i + 1).last() == calls@[i as int]@);
        let c = &calls[i];
        let ghost o = out@;
        append_str(&mut out, "- **");
        append_str(&mut out, c.kind.as_str());
        append_str(&mut out, "** call → `");
        append_str(&mut out, c.callee.as_str());
        match &c.qual {
            Some(q) => {
                append_str(&mut out, "` on `");
                append_str(&mut out, q.as_str());
                append_str(&mut out, "`\n");
            },
            None => {
                append_str(&mut out, "`\n");
            },
        }
        assert(out@ =~= o + call_line(c@));
        i = i + 1;
    }
    out
}

/// The request for documentation of the function `f`: its identity, its
/// present documentation, the symbols it refers to, the first
/// `MAX_CALLS` calls it makes, its body cut to size, and what to return.
pub fn build_markdown_question(f: &Row, referenced_symbols: &[String], calls_in_span: &[CallSite]) -> (r:
    String)
    ensures
        r@ == fn_question(*f, string_views(referenced_symbols@), call_views(calls_in_span@)),
{
    let mut s: Vec<char> = chars_of("# Rust Function Documentation Task\n");
    append_str(&mut s, "You are given context about a single Rust function.\n");
    append_str(&mut s, "\n");
    append_str(&mut s, "## Function Identity\n");
    append_str(&mut s, "- **Fully-qualified path**: `");
    append_str(&mut s, f.fqpath.as_str());
    append_str(&mut s, "`\n");
    append_str(&mut s, "- **Signature**: `");
    append_str(&mut s, f.signature.as_str());
    append_str(&mut s, "`\n");
    append_str(&mut s, "- **Visibility**: `");
    append_str(&mut s, f.visibility.as_str());
    append_str(&mut s, "`\n");
    append_str(&mut s, "\n## Existing Documentation\n");
    let d = doc_part(&f.doc, "The function already has Rustdoc. Improve and rewrite it if necessary:\n");
    append(&mut s, d.as_slice());
    append_str(&mut s, "\n## Referenced Symbols (body-level)\n");
    if referenced_symbols.len() == 0 {
        append_str(&mut s, "_No symbol references detected._\n");
    } else {
        let b = bullets_part(referenced_symbols, referenced_symbols.len());
        assert(string_views(referenced_symbols@).take(referenced_symbols.len() as int) =~= string_views(
            referenced_symbols@,
        ));
        append(&mut s, b.as_slice());
    }
    if calls_in_span.len() == 0 {
        append(&mut s, Vec::<char>::new().as_slice());
    } else {
        let n = if calls_in_span.len() < MAX_CALLS {
            calls_in_span.len()
        } else {
            MAX_CALLS
        };
        let mut c = chars_of("\n## Function Calls Inside This Function\n");
        let lines_part = calls_part(calls_in_span, n);
        append(&mut c, lines_part.as_slice());
        append(&mut s, c.as_slice());
    }
    match &f.body_text {
        Some(b) => {
            let mut part = chars_of("\n## Function Body (Truncated)\n");
            append_str(&mut part, "```rust\n");
            let t = truncate_chars(b.as_str(), BODY_MAX_CHARS, BODY_MAX_LINES);
            append(&mut part, t.as_slice());
            append_str(&mut part, "\n```\n");
            append(&mut s, part.as_slice());
        },
        None => {
            append(&mut s, Vec::<char>::new().as_slice());
        },
    }
    append_str(&mut s, FN_OUTPUT_REQUIREMENTS);
    append_str(&mut s, "\n");
    assert(s@ =~= fn_question(*f, string_views(referenced_symbols@), call_views(calls_in_span@)));
    string_of(s.as_slice())
}

/// The request for documentation of the type `srow` and its fields: its
/// identity, its present documentation, its body, the first `MAX_REFS`
/// functions that refer to it, and the shape of the answer.
pub fn build_struct_request_with_refs(srow: &Row, body_text: &str, referencing_fns: &[String]) -> (r:
    String)
    ensures
        r@ == struct_question(*srow, body_text@, string_views(referencing_fns@)),
{
    let mut s: Vec<char> = chars_of("# Rust Struct Documentation Task\n");
    append_str(
        &mut s,
        "You are given the source of a single Rust struct and a list of functions that reference it.\n",
    );
    append_str(&mut s, "\n## Struct Identity\n");
    append_str(&mut s, "- **Fully-qualified path**: `");
    append_str(&mut s, srow.fqpath.as_str());
    append_str(&mut s, "`\n");
    append_str(&mut s, "- **Signature**: `");
    append_str(&mut s, srow.signature.as_str());
    append_str(&mut s, "`\n");
    append_str(&mut s, "- **Visibility**: `");
    append_str(&mut s, srow.visibility.as_str());
    append_str(&mut s, "`\n");
    append_str(&mut s, "\n## Existing Documentation\n");
    let d = doc_part(&srow.doc, "The struct already has Rustdoc. If needed, rewrite it to be concise:\n");
    append(&mut s, d.as_slice());
    append_str(&mut s, "\n## Struct Body (verbatim)\n");
    append_str(&mut s, "```rust\n");
    append_str(&mut s, body_text);
    append_str(&mut s, "\n```\n");
    append_str(&mut s, "\n## Referencing Functions (FQ paths)\n");
    if referencing_fns.len() == 0 {
        append_str(&mut s, "_No referencing functions detected in the crate._\n");
    } else {
        let n = if referencing_fns.len() < MAX_REFS {
            referencing_fns.len()
        } else {
            MAX_REFS
        };
        let b = bullets_part(referencing_fns, n);
        append(&mut s, b.as_slice());
    }
    append_str(&mut s, "\n---\n## Output Requirements\n");
    append_str(&mut s, "Respond in **structured JSON** (no prose) with this shape:\n");
    append_str(&mut s, STRUCT_ANSWER_SHAPE);
    append_str(&mut s, "\n");
    append_str(&mut s, "- `struct_doc`: A short 1–2 sentence rustdoc for the struct (above attributes).\n");
    append_str(
        &mut s,
        "- `fields`: One entry **per named field** appearing in the struct body; the `doc` value must be a ready-to-insert `///` block for that field (keep it short, include units/invariants if relevant).\n",
    );
    assert(s@ =~= struct_question(*srow, body_text@, string_views(referencing_fns@)));
    string_of(s.as_slice())
}

} // verus!
