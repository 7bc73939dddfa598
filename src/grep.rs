//! Call sites and qualified paths among the matches of a structural search.

use vstd::prelude::*;
use crate::order::{insert_sorted, string_views, strictly_sorted};
use crate::text::{chars_of, same, string_of, trim, trim_chars};

verus! {

/// Pattern of a plain call.
pub const PLAIN_CALL_PATTERN: &'static str = "$N($$$A)";

/// Pattern of a call through a path.
pub const QUALIFIED_CALL_PATTERN: &'static str = "$Q::$N($$$A)";

/// Pattern of a method call.
pub const METHOD_CALL_PATTERN: &'static str = "$RECV.$N($$$A)";

/// Pattern of a path.
pub const PATH_PATTERN: &'static str = "$Q::$N";

/// Pattern of a path with turbofish arguments.
pub const GENERIC_PATH_PATTERN: &'static str = "$Q::<$$$A>::$N";

/// Pattern of a grouped import path.
pub const GROUP_PATH_PATTERN: &'static str = "$Q::{$$$A}";

/// A byte range, from `start` up to `end`.
#[derive(Debug, Clone, Copy, PartialEq, Eq, Structural)]
pub struct SgByteRange {
    /// First byte.
    pub start: u64,
    /// Byte just past the range.
    pub end: u64,
}

/// Where a match lies.
#[derive(Debug, Clone, Copy, PartialEq, Eq, Structural)]
pub struct SgRange {
    /// Its byte range.
    pub byte: SgByteRange,
}

/// What the library reads of one match of a structural search.
#[derive(Debug, Clone)]
pub struct SgMatch {
    /// Where the match lies.
    pub range: SgRange,
    /// The matched text.
    pub text: Option<String>,
    /// The text bound to the callee name.
    pub name: Option<String>,
    /// The text bound to the path before the callee.
    pub qualifier: Option<String>,
    /// The text bound to the receiver of a method call.
    pub receiver: Option<String>,
}

/// A call found in a function's body.
#[derive(Debug, Clone)]
pub struct CallSite {
    /// `plain`, `qualified` or `method`.
    pub kind: String,
    /// The path or receiver the call goes through.
    pub qual: Option<String>,
    /// The name called.
    pub callee: String,
}

impl View for CallSite {
    type V = (Seq<char>, Option<Seq<char>>, Seq<char>);

    open spec fn view(&self) -> (Seq<char>, Option<Seq<char>>, Seq<char>) {
        (self.kind@, opt_view(self.qual), self.callee@)
    }
}

/// The view of an optional string.
pub open spec fn opt_view(o: Option<String>) -> Option<Seq<char>> {
    match o {
        Some(s) => Some(s@),
        None => None,
    }
}

/// Whether `r` lies within the bytes from `start` up to `end`.
pub open spec fn in_span(r: SgRange, start: u64, end: u64) -> bool {
    r.byte.start >= start && r.byte.end <= end
}

/// The call that a match of the pattern for `kind` stands for, when it
/// names a callee.
pub open spec fn call_of(kind: Seq<char>, m: SgMatch) -> Option<(Seq<char>, Option<Seq<char>>, Seq<char>)> {
    let name = match m.name {
        Some(n) => n@,
        None => seq![],
    };
    if name.len() == 0 {
        None
    } else {
        let qual = if kind == "qualified"@ {
            opt_view(m.qualifier)
        } else if kind == "method"@ {
            opt_view(m.receiver)
        } else {
            None
        };
        Some((kind, qual, name))
    }
}

/// The calls among `ms` that lie within the span, in order.
pub open spec fn calls_of(kind: Seq<char>, ms: Seq<SgMatch>, start: u64, end: u64) -> Seq<
    (Seq<char>, Option<Seq<char>>, Seq<char>),
>
    decreases ms.len(),
{
    if ms.len() == 0 {
        seq![]
    } else {
        let rest = calls_of(kind, ms.drop_last(), start, end);
        if in_span(ms.last().range, start, end) && call_of(kind, ms.last()) is Some {
            rest.push(call_of(kind, ms.last())->0)
        } else {
            rest
        }
    }
}

fn opt_copy(o: &Option<String>) -> (r: Option<String>)
    ensures
        opt_view(r) == opt_view(*o),
{
    match o {
        Some(s) => Some(string_of(chars_of(s.as_str()).as_slice())),
        None => None,
    }
}

/// The calls of `kind` among the matches that lie within the bytes from
/// `start_byte` up to `end_byte`, skipping matches without a callee name.
pub fn call_sites(kind: &str, matches: &[SgMatch], start_byte: u64, end_byte: u64) -> (r: Vec<
    CallSite,
>)
    ensures
        r@.map_values(|c: CallSite| c@) == calls_of(kind@, matches@, start_byte, end_byte),
{
    let kc = chars_of(kind);
    let is_qualified = same(kc.as_slice(), chars_of("qualified").as_slice());
    let is_method = same(kc.as_slice(), chars_of("method").as_slice());
    let mut out: Vec<CallSite> = Vec::new();
    let mut i: usize = 0;
    assert(matches@.take(0) =~= seq![]);
    while i < matches.len()
        invariant
            i <= matches.len(),
            kc@ == kind@,
            is_qualified == (kind@ == "qualified"@),
            is_method == (kind@ == "method"@),
            out@.map_values(|c: CallSite| c@) == calls_of(
                kind@,
                matches@.take(i as int),
                start_byte,
                end_byte,
            ),
        decreases matches.len() - i,
    {
        let m = &matches[i];
        assert(matches@.take(i + 1).drop_last() =~= matches@.take(i as int));
        assert(matches@.take(i + 1).last() == *m);
        if m.range.byte.start >= start_byte && m.range.byte.end <= end_byte {
            let name = match &m.name {
                Some(n) => chars_of(n.as_str()),
                None => Vec::new(),
            };
            if name.len() > 0 {
                let qual = if is_qualified {
                    opt_copy(&m.qualifier)
                } else if is_method {
                    opt_copy(&m.receiver)
                } else {
                    None
                };
                let c = CallSite {
                    kind: string_of(kc.as_slice()),
                    qual,
                    callee: string_of(name.as_slice()),
                };
                let ghost before = out@.map_values(|c: CallSite| c@);
                let ghost cv = c@;
                out.push(c);
                assert(out@.map_values(|c: CallSite| c@) =~= before.push(cv));
            }
        }
        i = i + 1;
    }
    assert(matches@.take(i as int) =~= matches@);
    out
}

/// Whether `t` holds a path separator.
pub open spec fn has_separator(t: Seq<char>) -> bool {
    exists|i: int| 0 <= i < t.len() - 1 && t[i] == ':' && #[trigger] t[i + 1] == ':'
}

/// The qualified path a match stands for: its trimmed text, when that
/// holds a path separator.
pub open spec fn path_of(m: SgMatch) -> Option<Seq<char>> {
    match m.text {
        Some(t) => if has_separator(trim(t@)) {
            Some(trim(t@))
        } else {
            None
        },
        None => None,
    }
}

/// The qualified paths among `ms` that lie within the span.
pub open spec fn paths_of(ms: Seq<SgMatch>, start: u64, end: u64) -> Set<Seq<char>>
    decreases ms.len(),
{
    if ms.len() == 0 {
        Set::empty()
    } else {
        let rest = paths_of(ms.drop_last(), start, end);
        if in_span(ms.last().range, start, end) && path_of(ms.last()) is Some {
            rest.insert(path_of(ms.last())->0)
        } else {
            rest
        }
    }
}

fn separator_in(t: &[char]) -> (r: bool)
    ensures
        r == has_separator(t@),
{
    let mut i: usize = 0;
    while i < t.len() && i + 1 < t.len()
        invariant
            i <= t.len(),
            forall|k: int| 0 <= k < i && k < t.len() - 1 ==> !(t@[k] == ':' && #[trigger] t@[k + 1] == ':'),
        decreases t.len() - i,
    {
        if t[i] == ':' && t[i + 1] == ':' {
            assert(t@[i + 1] == ':');
            return true;
        }
        i = i + 1;
    }
    false
}

/// Adds to the sorted `paths` the qualified paths among the matches that lie
/// within the bytes from `start_byte` up to `end_byte`.
pub fn collect_qualified_paths(
    matches: &[SgMatch],
    start_byte: u64,
    end_byte: u64,
    paths: &mut Vec<String>,
)
    requires
        strictly_sorted(string_views(old(paths)@)),
    ensures
        strictly_sorted(string_views(final(paths)@)),
        string_views(final(paths)@).to_set() == string_views(old(paths)@).to_set().union(
            paths_of(matches@, start_byte, end_byte),
        ),
{
    let ghost start_set = string_views(paths@).to_set();
    let mut i: usize = 0;
    assert(matches@.take(0) =~= seq![]);
    assert(start_set.union(Set::empty()) =~= start_set);
    while i < matches.len()
        invariant
            i <= matches.len(),
            strictly_sorted(string_views(paths@)),
            string_views(paths@).to_set() == start_set.union(
                paths_of(matches@.take(i as int), start_byte, end_byte),
            ),
        decreases matches.len() - i,
    {
        let m = &matches[i];
        assert(matches@.take(i + 1).drop_last() =~= matches@.take(i as int));
        assert(matches@.take(i + 1).last() == *m);
        if m.range.byte.start >= start_byte && m.range.byte.end <= end_byte {
            match &m.text {
                Some(txt) => {
                    let t = trim_chars(chars_of(txt.as_str()).as_slice());
                    if separator_in(t.as_slice()) {
                        let ghost tv = t@;
                        let ghost prev = paths_of(matches@.take(i as int), start_byte, end_byte);
                        insert_sorted(paths, string_of(t.as_slice()));
                        assert(start_set.union(prev).insert(tv) =~= start_set.union(prev.insert(tv)));
                    }
                },
                None => {},
            }
        }
        i = i + 1;
    }
    assert(matches@.take(i as int) =~= matches@);
}

} // verus!
