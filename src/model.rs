//! The records that flow through the library: harvested items and the
//! documentation produced for them.

use vstd::prelude::*;
use crate::order::{insert_sorted, lemma_sorted_distinct, string_views, strictly_sorted};
use crate::regexes::{accepts, compile, escape, escaped, find_all, is_match, regex_found, Matcher};
use crate::text::{append_str, blank, chars_of, is_blank, same, string_of};

verus! {

/// Where an item lies in its file.
#[derive(Debug, Clone)]
pub struct Span {
    /// First line, 1-based.
    pub start_line: Option<u32>,
    /// Last line, 1-based.
    pub end_line: Option<u32>,
    /// Offset of the first byte.
    pub start_byte: Option<u64>,
    /// Offset just past the last byte.
    pub end_byte: Option<u64>,
}

/// One item of the code base (a function, a type) with what is known of it.
#[derive(Debug, Clone)]
pub struct Row {
    /// What the item is (`fn`, `struct`, ...).
    pub kind: String,
    /// Its name.
    pub name: String,
    /// The crate it belongs to.
    pub crate_name: Option<String>,
    /// The modules it sits in.
    pub module_segments: Option<Vec<String>>,
    /// Its fully qualified path.
    pub fqpath: String,
    /// Its visibility.
    pub visibility: String,
    /// The file that holds it.
    pub file: String,
    /// Where it lies in that file.
    pub span: Span,
    /// Its signature.
    pub signature: String,
    /// Whether it has a body.
    pub has_body: bool,
    /// Its present documentation.
    pub doc: Option<String>,
    /// The text of its body.
    pub body_text: Option<String>,
    /// The functions that call it.
    pub callers: Option<Vec<String>>,
}

/// Whether `doc` is documentation with some content.
pub open spec fn has_content(doc: Option<String>) -> bool {
    match doc {
        Some(d) => !is_blank(d@),
        None => false,
    }
}

impl Row {
    /// Whether the item has documentation that is not only whitespace.
    pub fn had_doc(&self) -> (r: bool)
        ensures
            r == has_content(self.doc),
    {
        match &self.doc {
            Some(d) => {
                let c = chars_of(d.as_str());
                !blank(c.as_slice())
            },
            None => false,
        }
    }

    /// The byte range of the item, from 0 and up to `u64::MAX` where the
    /// span leaves an end open.
    pub fn span_bytes(&self) -> (r: (u64, u64))
        ensures
            r.0 == (match self.span.start_byte {
                Some(b) => b,
                None => 0,
            }),
            r.1 == (match self.span.end_byte {
                Some(b) => b,
                None => u64::MAX,
            }),
    {
        let s = match self.span.start_byte {
            Some(b) => b,
            None => 0,
        };
        let e = match self.span.end_byte {
            Some(b) => b,
            None => u64::MAX,
        };
        (s, e)
    }
}

/// Documentation produced for one item, ready to be placed in its file.
#[derive(Debug, Clone)]
pub struct LlmDocResult {
    /// `fn`, `struct` or `field`.
    pub kind: String,
    /// Fully qualified path of the item.
    pub fqpath: String,
    /// The file that holds the item.
    pub file: String,
    /// First line of the item, 1-based; without it the item is left alone.
    pub start_line: Option<u32>,
    /// Last line of the item, 1-based.
    pub end_line: Option<u32>,
    /// The item's signature.
    pub signature: String,
    /// The functions that call the item.
    pub callers: Vec<String>,
    /// The symbols the item refers to.
    pub referenced_symbols: Vec<String>,
    /// The documentation block, every line carrying the comment marker.
    pub llm_doc: String,
    /// Whether the item was documented before.
    pub had_existing_doc: bool,
}

/// Documentation proposed for one field.
#[derive(Debug, Clone)]
pub struct FieldDocOut {
    /// The field's name.
    pub name: String,
    /// Its documentation.
    pub doc: String,
}

/// Documentation proposed for a type and its fields.
#[derive(Debug, Clone)]
pub struct StructDocResponse {
    /// Documentation of the type.
    pub struct_doc: String,
    /// Documentation of each field.
    pub fields: Vec<FieldDocOut>,
}

/// The pattern that finds `name` as a whole word.
pub open spec fn word_pattern(name: Seq<char>) -> Seq<char> {
    "\\b"@ + escaped(name) + "\\b"@
}

/// The body text of `r`, empty without one.
pub open spec fn body_of(r: Row) -> Seq<char> {
    match r.body_text {
        Some(b) => b@,
        None => seq![],
    }
}

/// Whether the body of `r` mentions the type `name` as a word, or its path `fq`.
pub open spec fn refers_to(r: Row, name: Seq<char>, fq: Seq<char>) -> bool {
    accepts(word_pattern(name), body_of(r)) || accepts(escaped(fq), body_of(r))
}

/// The paths of the functions among `fns` whose bodies mention the type.
pub open spec fn referencing(fns: Seq<&Row>, name: Seq<char>, fq: Seq<char>) -> Set<Seq<char>>
    decreases fns.len(),
{
    if fns.len() == 0 {
        Set::empty()
    } else {
        let rest = referencing(fns.drop_last(), name, fq);
        if refers_to(*fns.last(), name, fq) {
            rest.insert(fns.last().fqpath@)
        } else {
            rest
        }
    }
}

fn accepts_text(m: &Option<Matcher>, text: &str) -> (r: bool)
    ensures
        r == (m matches Some(x) && crate::regexes::regex_accepts(x.pattern(), text@)),
{
    match m {
        Some(x) => is_match(x, text),
        None => false,
    }
}

/// The paths of the functions whose bodies mention the type `struct_name`
/// as a whole word, or its path `struct_fq`, sorted and without repeats.
pub fn referencing_functions(struct_name: &str, struct_fq: &str, fns: &[&Row]) -> (r: Vec<String>)
    ensures
        strictly_sorted(string_views(r@)),
        string_views(r@).to_set() == referencing(fns@, struct_name@, struct_fq@),
{
    let mut p: Vec<char> = chars_of("\\b");
    append_str(&mut p, escape(struct_name).as_str());
    append_str(&mut p, "\\b");
    assert(p@ =~= word_pattern(struct_name@));
    let word = compile(string_of(p.as_slice()).as_str());
    let fq = compile(escape(struct_fq).as_str());
    let mut out: Vec<String> = Vec::new();
    let mut i: usize = 0;
    assert(fns@.take(0) =~= Seq::<&Row>::empty());
    assert(string_views(out@).to_set() =~= Set::<Seq<char>>::empty());
    while i < fns.len()
        invariant
            i <= fns.len(),
            word is Some <==> crate::regexes::regex_valid(word_pattern(struct_name@)),
            word matches Some(m) ==> m.pattern() == word_pattern(struct_name@),
            fq is Some <==> crate::regexes::regex_valid(escaped(struct_fq@)),
            fq matches Some(m) ==> m.pattern() == escaped(struct_fq@),
            strictly_sorted(string_views(out@)),
            string_views(out@).to_set() == referencing(
                fns@.take(i as int),
                struct_name@,
                struct_fq@,
            ),
        decreases fns.len() - i,
    {
        let f = fns[i];
        assert(fns@.take(i + 1).drop_last() =~= fns@.take(i as int));
        assert(fns@.take(i + 1).last() == f);
        let empty = string_of(Vec::<char>::new().as_slice());
        let body = match &f.body_text {
            Some(b) => b,
            None => &empty,
        };
        assert(body@ == body_of(*f));
        if accepts_text(&word, body.as_str()) || accepts_text(&fq, body.as_str()) {
            insert_sorted(&mut out, string_of(chars_of(f.fqpath.as_str()).as_slice()));
        }
        i = i + 1;
    }
    assert(fns@.take(i as int) =~= fns@);
    out
}

/// Most symbols gathered from one body.
pub const MAX_SYMBOL_REFS: usize = 64;

/// The known symbols among the words `ws`, gathered in order until there
/// are `MAX_SYMBOL_REFS` of them.
pub open spec fn symbol_refs(ws: Seq<Seq<char>>, syms: Set<Seq<char>>) -> Set<Seq<char>>
    decreases ws.len(),
{
    if ws.len() == 0 {
        Set::empty()
    } else {
        let f = symbol_refs(ws.drop_last(), syms);
        if f.len() < MAX_SYMBOL_REFS && syms.contains(ws.last()) {
            f.insert(ws.last())
        } else {
            f
        }
    }
}

/// The known symbols that the words of `body` name.
pub open spec fn body_symbols(body: Seq<char>, pattern: Seq<char>, syms: Set<Seq<char>>) -> Set<
    Seq<char>,
> {
    if body.len() == 0 {
        Set::empty()
    } else {
        symbol_refs(regex_found(pattern, body), syms)
    }
}

fn is_member(w: &[char], syms: &[String]) -> (r: bool)
    ensures
        r == string_views(syms@).to_set().contains(w@),
{
    let mut k: usize = 0;
    while k < syms.len()
        invariant
            k <= syms.len(),
            forall|j: int| 0 <= j < k ==> syms@[j]@ != w@,
        decreases syms.len() - k,
    {
        if same(chars_of(syms[k].as_str()).as_slice(), w) {
            assert(string_views(syms@)[k as int] == w@);
            return true;
        }
        k = k + 1;
    }
    assert(!string_views(syms@).to_set().contains(w@)) by {
        if string_views(syms@).to_set().contains(w@) {
            let j = choose|j: int| 0 <= j < syms@.len() && string_views(syms@)[j] == w@;
            assert(syms@[j]@ == w@);
        }
    }
    false
}

/// The known symbols (among `all_symbols`) that the words of `body`, as
/// `word_re` finds them, name: sorted, without repeats, and no more than
/// `MAX_SYMBOL_REFS`, gathered in the order the words come.
pub fn collect_symbol_refs(body: &str, all_symbols: &[String], word_re: &Matcher) -> (r: Vec<String>)
    ensures
        strictly_sorted(string_views(r@)),
        string_views(r@).to_set() == body_symbols(
            body@,
            word_re.pattern(),
            string_views(all_symbols@).to_set(),
        ),
        r.len() <= MAX_SYMBOL_REFS,
{
    let bc = chars_of(body);
    if bc.len() == 0 {
        let r: Vec<String> = Vec::new();
        assert(string_views(r@).to_set() =~= Set::<Seq<char>>::empty());
        return r;
    }
    let ws = find_all(word_re, body);
    let ghost wv = ws@.map_values(|w: String| w@);
    let ghost syms = string_views(all_symbols@).to_set();
    let mut found: Vec<String> = Vec::new();
    let mut i: usize = 0;
    assert(wv.take(0) =~= Seq::<Seq<char>>::empty());
    assert(string_views(found@).to_set() =~= Set::<Seq<char>>::empty());
    while i < ws.len()
        invariant
            i <= ws.len(),
            wv == ws@.map_values(|w: String| w@),
            wv == regex_found(word_re.pattern(), body@),
            syms == string_views(all_symbols@).to_set(),
            strictly_sorted(string_views(found@)),
            string_views(found@).to_set() == symbol_refs(wv.take(i as int), syms),
            found.len() <= MAX_SYMBOL_REFS,
        decreases ws.len() - i,
    {
        assert(wv.take(i + 1).drop_last() =~= wv.take(i as int));
        assert(wv.take(i + 1).last() == ws@[i as int]@);
        proof {
            lemma_sorted_distinct(string_views(found@));
        }
        let w = chars_of(ws[i].as_str());
        if found.len() < MAX_SYMBOL_REFS && is_member(w.as_slice(), all_symbols) {
            let ghost before = string_views(found@).to_set();
            insert_sorted(&mut found, string_of(w.as_slice()));
            proof {
                lemma_sorted_distinct(string_views(found@));
                assert(before.len() < MAX_SYMBOL_REFS);
                assert(string_views(found@).to_set().len() <= before.len() + 1) by {
                    if before.contains(w@) {
                        assert(before.insert(w@) =~= before);
                    }
                }
            }
        }
        i = i + 1;
    }
    assert(wv.take(i as int) =~= wv);
    found
}

} // verus!
