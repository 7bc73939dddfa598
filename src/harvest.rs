//! Quoting arguments for a POSIX shell.

use vstd::prelude::*;
use crate::sanitize::{replace_all, replaced};
use crate::text::{append, append_str, chars_of, string_of};
use crate::order::string_views;

verus! {

#[verifier::external_type_specification]
#[verifier::external_body]
pub struct ExPath(std::path::Path);

/// A character that needs no quoting: an ASCII letter or digit, or one of
/// `/ . _ -`.
pub open spec fn shell_safe(c: char) -> bool {
    ('a' <= c && c <= 'z') || ('A' <= c && c <= 'Z') || ('0' <= c && c <= '9') || c == '/' || c
        == '.' || c == '_' || c == '-'
}

/// `s` as one shell word: unchanged when every character is safe, else in
/// single quotes with each single quote written `'\''`.
pub open spec fn shell_quoted(s: Seq<char>) -> Seq<char> {
    if forall|i: int| 0 <= i < s.len() ==> shell_safe(#[trigger] s[i]) {
        s
    } else {
        seq!['\''] + replaced(s, seq!['\''], seq!['\'', '\\', '\'', '\'']) + seq!['\'']
    }
}

fn safe_char(c: char) -> (r: bool)
    ensures
        r == shell_safe(c),
{
    ('a' <= c && c <= 'z') || ('A' <= c && c <= 'Z') || ('0' <= c && c <= '9') || c == '/' || c
        == '.' || c == '_' || c == '-'
}

/// Quotes `s` for a POSIX shell when it holds anything but ASCII letters,
/// digits and `/ . _ -`.
pub fn shell_escape(s: &str) -> (r: String)
    ensures
        r@ == shell_quoted(s@),
{
    let cs = chars_of(s);
    let mut i: usize = 0;
    while i < cs.len() && safe_char(cs[i])
        invariant
            i <= cs.len(),
            forall|k: int| 0 <= k < i ==> shell_safe(#[trigger] cs@[k]),
        decreases cs.len() - i,
    {
        i = i + 1;
    }
    if i == cs.len() {
        return string_of(cs.as_slice());
    }
    assert(!shell_safe(cs@[i as int]));
    let from = vec!['\''];
    let to = vec!['\'', '\\', '\'', '\''];
    assert(from@ =~= seq!['\'']);
    assert(to@ =~= seq!['\'', '\\', '\'', '\'']);
    let inner = replace_all(cs.as_slice(), from.as_slice(), to.as_slice());
    let mut out: Vec<char> = Vec::new();
    out.push('\'');
    append(&mut out, inner.as_slice());
    out.push('\'');
    assert(out@ =~= seq!['\''] + inner@ + seq!['\'']);
    string_of(out.as_slice())
}

/// Relies on `Path::to_string_lossy`: the path's text, with any invalid
/// sequence replaced.
#[verifier::external_body]
fn path_text(p: &std::path::Path) -> (r: String) {
    p.to_string_lossy().into_owned()
}

/// The text of the path `p` (invalid sequences replaced) quoted for a POSIX
/// shell.
pub fn shell_escape_lossy_path(p: &std::path::Path) -> (r: String)
    ensures
        exists|t: Seq<char>| r@ == shell_quoted(t),
{
    let t = path_text(p);
    shell_escape(t.as_str())
}

/// The words after the harvester's name: each target quoted, or `.` when
/// there is none.
pub open spec fn target_words(targets: Seq<Seq<char>>) -> Seq<char>
    decreases targets.len(),
{
    if targets.len() == 0 {
        seq![]
    } else {
        target_words(targets.drop_last()) + seq![' '] + shell_quoted(targets.last())
    }
}

/// The Nushell command that sources the script `script` and prints, as
/// JSON, the items the harvester finds in `targets` (`.` when there is none).
pub open spec fn nushell_command(script: Seq<char>, targets: Seq<Seq<char>>) -> Seq<char> {
    "source "@ + shell_quoted(script) + "; let rows = (rust-ast"@ + (if targets.len() == 0 {
        " ."@
    } else {
        target_words(targets)
    }) + "); $rows | to json"@
}

/// The Nushell command that runs the harvester script `script` over
/// `targets` (given as text) and prints what it finds as JSON.
pub fn nushell_call(script: &str, targets: &[String]) -> (r: String)
    ensures
        r@ == nushell_command(script@, string_views(targets@)),
{
    let mut call: Vec<char> = chars_of("source ");
    append_str(&mut call, shell_escape(script).as_str());
    append_str(&mut call, "; let rows = (rust-ast");
    if targets.len() == 0 {
        append_str(&mut call, " .");
    } else {
        let mut words: Vec<char> = Vec::new();
        let mut i: usize = 0;
        assert(string_views(targets@).take(0) =~= Seq::<Seq<char>>::empty());
        while i < targets.len()
            invariant
                i <= targets.len(),
                words@ == target_words(string_views(targets@).take(i as int)),
            decreases targets.len() - i,
        {
            assert(string_views(targets@).take(i + 1).drop_last() =~= string_views(targets@).take(
                i as int,
            ));
            assert(string_views(targets@).take(i + 1).last() == targets@[i as int]@);
            words.push(' ');
            append_str(&mut words, shell_escape(targets[i].as_str()).as_str());
            i = i + 1;
        }
        assert(string_views(targets@).take(i as int) =~= string_views(targets@));
        append(&mut call, words.as_slice());
    }
    append_str(&mut call, "); $rows | to json");
    assert(call@ =~= nushell_command(script@, string_views(targets@)));
    string_of(call.as_slice())
}

} // verus!
