//! Decisions of the generation pass: which items are wanted, which names are
//! known symbols, and which files a batch of results touches.

use vstd::prelude::*;
use crate::model::{has_content, FieldDocOut, LlmDocResult, Row};
use crate::order::{insert_sorted, less, string_views, strictly_sorted, text_lt, lemma_text_lt_total};
use crate::sanitize::{sanitize_llm_doc, sanitized};
use crate::text::{append_str, chars_of, same, string_of};
use crate::util::FieldSpec;

verus! {

/// Whether the item `r` is documented in this pass: a function or a type,
/// named by `only` (by name or path) unless `only` is empty.
pub open spec fn wanted(r: Row, only: Seq<Seq<char>>) -> bool {
    (r.kind@ == "fn"@ || r.kind@ == "struct"@) && (only.len() == 0 || exists|i: int|
        0 <= i < only.len() && (#[trigger] only[i] == r.name@ || only[i] == r.fqpath@))
}

/// Whether the item `row` is documented in this pass (see `wanted`).
pub fn is_wanted(row: &Row, only: &[String]) -> (r: bool)
    ensures
        r == wanted(*row, string_views(only@)),
{
    let kind = chars_of(row.kind.as_str());
    if !same(kind.as_slice(), chars_of("fn").as_slice()) && !same(
        kind.as_slice(),
        chars_of("struct").as_slice(),
    ) {
        return false;
    }
    if only.len() == 0 {
        return true;
    }
    let name = chars_of(row.name.as_str());
    let fq = chars_of(row.fqpath.as_str());
    let mut i: usize = 0;
    while i < only.len()
        invariant
            i <= only.len(),
            name@ == row.name@,
            fq@ == row.fqpath@,
            row.kind@ == "fn"@ || row.kind@ == "struct"@,
            forall|j: int|
                0 <= j < i ==> !(#[trigger] string_views(only@)[j] == row.name@ || string_views(
                    only@,
                )[j] == row.fqpath@),
        decreases only.len() - i,
    {
        let s = chars_of(only[i].as_str());
        if same(s.as_slice(), name.as_slice()) || same(s.as_slice(), fq.as_slice()) {
            assert(string_views(only@)[i as int] == only@[i as int]@);
            return true;
        }
        i = i + 1;
    }
    false
}

/// The non-empty names among `rows`.
pub open spec fn names_of(rows: Seq<Row>) -> Set<Seq<char>>
    decreases rows.len(),
{
    if rows.len() == 0 {
        Set::empty()
    } else if rows.last().name@.len() > 0 {
        names_of(rows.drop_last()).insert(rows.last().name@)
    } else {
        names_of(rows.drop_last())
    }
}

/// The non-empty names of the items, sorted and without repeats: the
/// symbols that bodies are searched for.
pub fn symbol_names(rows: &[Row]) -> (r: Vec<String>)
    ensures
        strictly_sorted(string_views(r@)),
        string_views(r@).to_set() == names_of(rows@),
{
    let mut out: Vec<String> = Vec::new();
    let mut i: usize = 0;
    assert(rows@.take(0) =~= Seq::<Row>::empty());
    assert(string_views(out@).to_set() =~= Set::<Seq<char>>::empty());
    while i < rows.len()
        invariant
            i <= rows.len(),
            strictly_sorted(string_views(out@)),
            string_views(out@).to_set() == names_of(rows@.take(i as int)),
        decreases rows.len() - i,
    {
        assert(rows@.take(i + 1).drop_last() =~= rows@.take(i as int));
        assert(rows@.take(i + 1).last() == rows@[i as int]);
        let n = chars_of(rows[i].name.as_str());
        if n.len() > 0 {
            insert_sorted(&mut out, string_of(n.as_slice()));
        }
        i = i + 1;
    }
    assert(rows@.take(i as int) =~= rows@);
    out
}

/// The files named by `results`.
pub open spec fn files_of(results: Seq<LlmDocResult>) -> Set<Seq<char>>
    decreases results.len(),
{
    if results.len() == 0 {
        Set::empty()
    } else {
        files_of(results.drop_last()).insert(results.last().file@)
    }
}

/// The files that the results touch, sorted and without repeats.
pub fn distinct_files(results: &[LlmDocResult]) -> (r: Vec<String>)
    ensures
        strictly_sorted(string_views(r@)),
        string_views(r@).to_set() == files_of(results@),
{
    let mut out: Vec<String> = Vec::new();
    let mut i: usize = 0;
    assert(results@.take(0) =~= Seq::<LlmDocResult>::empty());
    assert(string_views(out@).to_set() =~= Set::<Seq<char>>::empty());
    while i < results.len()
        invariant
            i <= results.len(),
            strictly_sorted(string_views(out@)),
            string_views(out@).to_set() == files_of(results@.take(i as int)),
        decreases results.len() - i,
    {
        assert(results@.take(i + 1).drop_last() =~= results@.take(i as int));
        assert(results@.take(i + 1).last() == results@[i as int]);
        insert_sorted(&mut out, string_of(chars_of(results[i].file.as_str()).as_slice()));
        i = i + 1;
    }
    assert(results@.take(i as int) =~= results@);
    out
}

/// What the generation pass does with the next item.
#[derive(Debug, Clone, Copy, PartialEq, Eq, Structural)]
pub enum ItemAction {
    /// The limit is reached: stop the pass.
    Stop,
    /// Leave this item alone.
    Skip,
    /// Ask for documentation of a function.
    Function,
    /// Ask for documentation of a type and its fields.
    Struct,
}

/// The action for an item of `kind` after `processed` items, given the
/// limit, whether the item is documented, and the overwrite flag.
pub open spec fn action_for(
    kind: Seq<char>,
    had_doc: bool,
    overwrite: bool,
    processed: usize,
    limit: Option<usize>,
) -> ItemAction {
    if limit matches Some(l) && processed >= l {
        ItemAction::Stop
    } else if had_doc && !overwrite && kind != "struct"@ {
        ItemAction::Skip
    } else if kind == "fn"@ {
        ItemAction::Function
    } else if kind == "struct"@ {
        ItemAction::Struct
    } else {
        ItemAction::Skip
    }
}

/// What the generation pass does with `item` after `processed` items: stop
/// at the limit; skip a documented item unless overwriting (a type still
/// goes on, for its fields); otherwise document functions and types.
pub fn next_action(item: &Row, overwrite: bool, processed: usize, limit: Option<usize>) -> (r:
    ItemAction)
    ensures
        r == action_for(item.kind@, has_content(item.doc), overwrite, processed, limit),
{
    if let Some(l) = limit {
        if processed >= l {
            return ItemAction::Stop;
        }
    }
    let kind = chars_of(item.kind.as_str());
    let is_struct = same(kind.as_slice(), chars_of("struct").as_slice());
    let is_fn = same(kind.as_slice(), chars_of("fn").as_slice());
    if item.had_doc() && !overwrite && !is_struct {
        ItemAction::Skip
    } else if is_fn {
        ItemAction::Function
    } else if is_struct {
        ItemAction::Struct
    } else {
        ItemAction::Skip
    }
}

/// Whether item `a` comes after item `b` in the order of the pass: by file,
/// then by line hint, then by path.
pub open spec fn row_after(a: Row, b: Row) -> bool {
    let la = match a.span.start_line {
        Some(l) => l as int,
        None => 0,
    };
    let lb = match b.span.start_line {
        Some(l) => l as int,
        None => 0,
    };
    text_lt(b.file@, a.file@) || (a.file@ == b.file@ && (lb < la || (la == lb && text_lt(
        b.fqpath@,
        a.fqpath@,
    ))))
}

fn after(a: &Row, b: &Row) -> (r: bool)
    ensures
        r == row_after(*a, *b),
{
    let af = chars_of(a.file.as_str());
    let bf = chars_of(b.file.as_str());
    if less(bf.as_slice(), af.as_slice()) {
        return true;
    }
    if !same(af.as_slice(), bf.as_slice()) {
        return false;
    }
    let la: u32 = match a.span.start_line {
        Some(l) => l,
        None => 0,
    };
    let lb: u32 = match b.span.start_line {
        Some(l) => l,
        None => 0,
    };
    if lb < la {
        return true;
    }
    if la != lb {
        return false;
    }
    less(chars_of(b.fqpath.as_str()).as_slice(), chars_of(a.fqpath.as_str()).as_slice())
}

/// The indices of the wanted items, in the order of the pass: by file, then
/// by line hint, then by path, items equal in all three in their order.
pub fn generation_order(rows: &[Row], only: &[String]) -> (r: Vec<usize>)
    ensures
        forall|k: int| 0 <= k < r@.len() ==> #[trigger] r@[k] < rows@.len() && wanted(
            rows@[r@[k] as int],
            string_views(only@),
        ),
        forall|i: int|
            0 <= i < rows@.len() && wanted(rows@[i], string_views(only@)) ==> r@.contains(
                i as usize,
            ),
        r@.no_duplicates(),
        forall|k: int|
            0 <= k < r@.len() - 1 ==> !row_after(rows@[#[trigger] r@[k] as int], rows@[r@[k + 1] as int]),
{
    let mut out: Vec<usize> = Vec::new();
    let mut i: usize = 0;
    while i < rows.len()
        invariant
            i <= rows.len(),
            forall|k: int| 0 <= k < out@.len() ==> #[trigger] out@[k] < i && wanted(
                rows@[out@[k] as int],
                string_views(only@),
            ),
            forall|j: int|
                0 <= j < i && wanted(rows@[j], string_views(only@)) ==> out@.contains(j as usize),
            out@.no_duplicates(),
            forall|k: int|
                0 <= k < out@.len() - 1 ==> !row_after(
                    rows@[#[trigger] out@[k] as int],
                    rows@[out@[k + 1] as int],
                ),
        decreases rows.len() - i,
    {
        if is_wanted(&rows[i], only) {
            let mut p = out.len();
            while p > 0 && after(&rows[out[p - 1]], &rows[i])
                invariant
                    i < rows.len(),
                    p <= out.len(),
                    forall|k: int| 0 <= k < out@.len() ==> #[trigger] out@[k] < i,
                    forall|k: int|
                        p <= k < out@.len() ==> row_after(rows@[#[trigger] out@[k] as int], rows@[i as int]),
                decreases p,
            {
                p = p - 1;
            }
            let ghost old_out = out@;
            proof {
                lemma_insert_in_order(rows@, string_views(only@), old_out, p as int, i as int);
            }
            out.insert(p, i);
            assert(out@ =~= old_out.take(p as int) + seq![i] + old_out.skip(p as int));
        }
        i = i + 1;
    }
    out
}

proof fn lemma_insert_in_order(rows: Seq<Row>, only: Seq<Seq<char>>, old_out: Seq<usize>, p: int, i: int)
    requires
        0 <= p <= old_out.len(),
        0 <= i < rows.len(),
        i <= usize::MAX,
        wanted(rows[i], only),
        forall|k: int| 0 <= k < old_out.len() ==> #[trigger] old_out[k] < i && wanted(
            rows[old_out[k] as int],
            only,
        ),
        forall|j: int| 0 <= j < i && wanted(rows[j], only) ==> old_out.contains(j as usize),
        old_out.no_duplicates(),
        forall|k: int|
            0 <= k < old_out.len() - 1 ==> !row_after(
                rows[#[trigger] old_out[k] as int],
                rows[old_out[k + 1] as int],
            ),
        forall|k: int| p <= k < old_out.len() ==> row_after(rows[#[trigger] old_out[k] as int], rows[i]),
        p > 0 ==> !row_after(rows[old_out[p - 1] as int], rows[i]),
    ensures
        ({
            let out = old_out.take(p) + seq![i as usize] + old_out.skip(p);
            &&& forall|k: int| 0 <= k < out.len() ==> #[trigger] out[k] < i + 1 && wanted(
                rows[out[k] as int],
                only,
            )
            &&& forall|j: int| 0 <= j < i + 1 && wanted(rows[j], only) ==> out.contains(j as usize)
            &&& out.no_duplicates()
            &&& forall|k: int|
                0 <= k < out.len() - 1 ==> !row_after(
                    rows[#[trigger] out[k] as int],
                    rows[out[k + 1] as int],
                )
        }),
{
    lemma_insert_sorted_part(rows, old_out, p, i);
    lemma_insert_members_part(rows, only, old_out, p, i);
    lemma_insert_complete_part(rows, only, old_out, p, i);
    lemma_insert_distinct_part(old_out, p, i);
}

proof fn lemma_insert_sorted_part(rows: Seq<Row>, old_out: Seq<usize>, p: int, i: int)
    requires
        0 <= p <= old_out.len(),
        0 <= i < rows.len(),
        i <= usize::MAX,
        forall|k: int|
            0 <= k < old_out.len() - 1 ==> !row_after(
                rows[#[trigger] old_out[k] as int],
                rows[old_out[k + 1] as int],
            ),
        forall|k: int| p <= k < old_out.len() ==> row_after(rows[#[trigger] old_out[k] as int], rows[i]),
        p > 0 ==> !row_after(rows[old_out[p - 1] as int], rows[i]),
    ensures
        ({
            let out = old_out.take(p) + seq![i as usize] + old_out.skip(p);
            forall|k: int|
                0 <= k < out.len() - 1 ==> !row_after(
                    rows[#[trigger] out[k] as int],
                    rows[out[k + 1] as int],
                )
        }),
{
    let out = old_out.take(p) + seq![i as usize] + old_out.skip(p);
    assert((i as usize) as int == i);
    assert forall|k: int| 0 <= k < out.len() - 1 implies !row_after(
        rows[#[trigger] out[k] as int],
        rows[out[k + 1] as int],
    ) by {
        if k < p - 1 {
            assert(out[k] == old_out[k] && out[k + 1] == old_out[k + 1]);
        } else if k == p - 1 {
            assert(out[k] == old_out[k] && out[k + 1] == i as usize);
        } else if k == p {
            assert(out[k] == i as usize && out[k + 1] == old_out[k]);
            lemma_row_after_total(rows[i], rows[old_out[k] as int]);
        } else {
            assert(out[k] == old_out[k - 1] && out[k + 1] == old_out[k]);
        }
    }
}

proof fn lemma_insert_members_part(rows: Seq<Row>, only: Seq<Seq<char>>, old_out: Seq<usize>, p: int, i: int)
    requires
        0 <= p <= old_out.len(),
        0 <= i < rows.len(),
        i <= usize::MAX,
        wanted(rows[i], only),
        forall|k: int| 0 <= k < old_out.len() ==> #[trigger] old_out[k] < i && wanted(
            rows[old_out[k] as int],
            only,
        ),
    ensures
        ({
            let out = old_out.take(p) + seq![i as usize] + old_out.skip(p);
            forall|k: int| 0 <= k < out.len() ==> #[trigger] out[k] < i + 1 && wanted(
                rows[out[k] as int],
                only,
            )
        }),
{
    let out = old_out.take(p) + seq![i as usize] + old_out.skip(p);
    assert((i as usize) as int == i);
    assert forall|k: int| 0 <= k < out.len() implies #[trigger] out[k] < i + 1 && wanted(
        rows[out[k] as int],
        only,
    ) by {
        if k < p {
            assert(out[k] == old_out[k]);
        } else if k > p {
            assert(out[k] == old_out[k - 1]);
        } else {
            assert(out[k] == i as usize);
        }
    }
}

proof fn lemma_insert_complete_part(rows: Seq<Row>, only: Seq<Seq<char>>, old_out: Seq<usize>, p: int, i: int)
    requires
        0 <= p <= old_out.len(),
        0 <= i < rows.len(),
        i <= usize::MAX,
        forall|j: int| 0 <= j < i && wanted(rows[j], only) ==> old_out.contains(j as usize),
    ensures
        ({
            let out = old_out.take(p) + seq![i as usize] + old_out.skip(p);
            forall|j: int| 0 <= j < i + 1 && wanted(rows[j], only) ==> out.contains(j as usize)
        }),
{
    let out = old_out.take(p) + seq![i as usize] + old_out.skip(p);
    assert forall|j: int| 0 <= j < i + 1 && wanted(rows[j], only) implies out.contains(j as usize) by {
        if j < i {
            let k = choose|k: int| 0 <= k < old_out.len() && old_out[k] == j as usize;
            if k < p {
                assert(out[k] == j as usize);
            } else {
                assert(out[k + 1] == j as usize);
            }
        } else {
            assert(out[p] == i as usize);
        }
    }
}

proof fn lemma_insert_distinct_part(old_out: Seq<usize>, p: int, i: int)
    requires
        0 <= p <= old_out.len(),
        0 <= i <= usize::MAX,
        forall|k: int| 0 <= k < old_out.len() ==> #[trigger] old_out[k] < i,
        old_out.no_duplicates(),
    ensures
        (old_out.take(p) + seq![i as usize] + old_out.skip(p)).no_duplicates(),
{
    let out = old_out.take(p) + seq![i as usize] + old_out.skip(p);
    assert forall|a: int, b: int| 0 <= a < out.len() && 0 <= b < out.len() && a != b implies out[a]
        != out[b] by {
        if a != p && b != p {
            let oa = if a < p {
                a
            } else {
                a - 1
            };
            let ob = if b < p {
                b
            } else {
                b - 1
            };
            assert(out[a] == old_out[oa] && out[b] == old_out[ob]);
        } else if a == p {
            let ob = if b < p {
                b
            } else {
                b - 1
            };
            assert(out[b] == old_out[ob]);
        } else {
            let oa = if a < p {
                a
            } else {
                a - 1
            };
            assert(out[a] == old_out[oa]);
        }
    }
}

proof fn lemma_row_after_total(a: Row, b: Row)
    requires
        row_after(b, a),
    ensures
        !row_after(a, b),
{
    lemma_text_lt_total(a.file@, b.file@);
    lemma_text_lt_total(a.fqpath@, b.fqpath@);
}

/// The result for one field of the type `item`, when a field of that name
/// is among `fields`: the last such field gives the line and the
/// declaration.
pub open spec fn field_result_for(item: Row, fields: Seq<FieldSpec>, name: Seq<char>) -> Option<int>
    decreases fields.len(),
{
    if fields.len() == 0 {
        None
    } else if fields.last().name@ == name {
        Some(fields.len() - 1)
    } else {
        field_result_for(item, fields.drop_last(), name)
    }
}

/// Whether `r` is the result for the field documentation `fd` of `item`,
/// placed at the field `f`.
pub open spec fn is_field_result(r: LlmDocResult, item: Row, f: FieldSpec, fd: FieldDocOut) -> bool {
    &&& r.kind@ == "field"@
    &&& r.fqpath@ == item.fqpath@ + "::"@ + fd.name@
    &&& r.file@ == item.file@
    &&& r.start_line == (if f.insert_line0 < u32::MAX {
        Some((f.insert_line0 + 1) as u32)
    } else {
        None
    })
    &&& r.end_line is None
    &&& r.signature@ == f.field_line_text@
    &&& r.callers@.len() == 0
    &&& r.referenced_symbols@.len() == 0
    &&& r.llm_doc@ == sanitized(fd.doc@)
    &&& !r.had_existing_doc
}

/// The proposed field documentations among `docs` that name a field of
/// `fields`, in order: each as the index of the documentation and the index
/// of the field.
pub open spec fn matched(item: Row, fields: Seq<FieldSpec>, docs: Seq<FieldDocOut>) -> Seq<(int, int)>
    decreases docs.len(),
{
    if docs.len() == 0 {
        seq![]
    } else {
        let rest = matched(item, fields, docs.drop_last());
        match field_result_for(item, fields, docs.last().name@) {
            Some(m) => rest.push((docs.len() - 1, m)),
            None => rest,
        }
    }
}

/// The results for the proposed field documentation `docs` of the type
/// `item`, in the order of `docs`, skipping names that are not fields of it.
pub fn field_results(item: &Row, fields: &[FieldSpec], docs: &[FieldDocOut]) -> (r: Vec<LlmDocResult>)
    ensures
        r@.len() == matched(*item, fields@, docs@).len(),
        forall|k: int|
            0 <= k < r@.len() ==> is_field_result(
                #[trigger] r@[k],
                *item,
                fields@[matched(*item, fields@, docs@)[k].1],
                docs@[matched(*item, fields@, docs@)[k].0],
            ),
{
    let mut out: Vec<LlmDocResult> = Vec::new();
    let mut j: usize = 0;
    assert(docs@.take(0) =~= Seq::<FieldDocOut>::empty());
    while j < docs.len()
        invariant
            j <= docs.len(),
            out@.len() == matched(*item, fields@, docs@.take(j as int)).len(),
            forall|k: int|
                0 <= k < out@.len() ==> is_field_result(
                    #[trigger] out@[k],
                    *item,
                    fields@[matched(*item, fields@, docs@.take(j as int))[k].1],
                    docs@[matched(*item, fields@, docs@.take(j as int))[k].0],
                ),
            forall|k: int|
                0 <= k < matched(*item, fields@, docs@.take(j as int)).len() ==> 0
                    <= #[trigger] matched(*item, fields@, docs@.take(j as int))[k].1 < fields@.len(),
        decreases docs.len() - j,
    {
        let fd = &docs[j];
        let ghost prev = matched(*item, fields@, docs@.take(j as int));
        assert(docs@.take(j + 1).drop_last() =~= docs@.take(j as int));
        assert(docs@.take(j + 1).last() == docs@[j as int]);
        let name = chars_of(fd.name.as_str());
        let mut m = fields.len();
        let mut found: Option<usize> = None;
        assert(fields@.take(m as int) =~= fields@);
        while m > 0 && found.is_none()
            invariant
                m <= fields.len(),
                name@ == fd.name@,
                found is None ==> field_result_for(*item, fields@, fd.name@) == field_result_for(
                    *item,
                    fields@.take(m as int),
                    fd.name@,
                ),
                found matches Some(x) ==> field_result_for(*item, fields@, fd.name@) == Some(
                    x as int,
                ) && x < fields.len(),
            decreases m,
        {
            assert(fields@.take(m as int).drop_last() =~= fields@.take(m - 1));
            assert(fields@.take(m as int).last() == fields@[m - 1]);
            if same(chars_of(fields[m - 1].name.as_str()).as_slice(), name.as_slice()) {
                found = Some(m - 1);
            }
            m = m - 1;
        }
        if found.is_none() {
            assert(fields@.take(0) =~= Seq::<FieldSpec>::empty());
        }
        match found {
            Some(x) => {
                let f = &fields[x];
                let mut fq = chars_of(item.fqpath.as_str());
                append_str(&mut fq, "::");
                append_str(&mut fq, fd.name.as_str());
                let start_line = if f.insert_line0 < u32::MAX as usize {
                    Some((f.insert_line0 + 1) as u32)
                } else {
                    None
                };
                let r = LlmDocResult {
                    kind: string_of(chars_of("field").as_slice()),
                    fqpath: string_of(fq.as_slice()),
                    file: string_of(chars_of(item.file.as_str()).as_slice()),
                    start_line,
                    end_line: None,
                    signature: string_of(chars_of(f.field_line_text.as_str()).as_slice()),
                    callers: Vec::new(),
                    referenced_symbols: Vec::new(),
                    llm_doc: sanitize_llm_doc(fd.doc.as_str()),
                    had_existing_doc: false,
                };
                assert(is_field_result(r, *item, fields@[x as int], docs@[j as int]));
                let ghost before = out@;
                out.push(r);
                let ghost now = matched(*item, fields@, docs@.take(j + 1));
                assert(now == prev.push((j as int, x as int)));
                assert forall|k: int| 0 <= k < out@.len() implies is_field_result(
                    #[trigger] out@[k],
                    *item,
                    fields@[now[k].1],
                    docs@[now[k].0],
                ) by {
                    if k < before.len() {
                        assert(out@[k] == before[k]);
                        assert(now[k] == prev[k]);
                    }
                }
            },
            None => {},
        }
        j = j + 1;
    }
    assert(docs@.take(j as int) =~= docs@);
    out
}

/// The functions among `rows`, in order.
pub open spec fn functions_of(rows: Seq<Row>) -> Seq<Row>
    decreases rows.len(),
{
    if rows.len() == 0 {
        seq![]
    } else if rows.last().kind@ == "fn"@ {
        functions_of(rows.drop_last()).push(rows.last())
    } else {
        functions_of(rows.drop_last())
    }
}

/// The items that are functions, in order: those whose bodies may refer to
/// a type.
pub fn function_rows(rows: &[Row]) -> (r: Vec<&Row>)
    ensures
        r@.map_values(|x: &Row| *x) == functions_of(rows@),
{
    let mut out: Vec<&Row> = Vec::new();
    let mut i: usize = 0;
    assert(rows@.take(0) =~= Seq::<Row>::empty());
    while i < rows.len()
        invariant
            i <= rows.len(),
            out@.map_values(|x: &Row| *x) == functions_of(rows@.take(i as int)),
        decreases rows.len() - i,
    {
        assert(rows@.take(i + 1).drop_last() =~= rows@.take(i as int));
        assert(rows@.take(i + 1).last() == rows@[i as int]);
        let r = &rows[i];
        if same(chars_of(r.kind.as_str()).as_slice(), chars_of("fn").as_slice()) {
            let ghost before = out@.map_values(|x: &Row| *x);
            out.push(r);
            assert(out@.map_values(|x: &Row| *x) =~= before.push(*r));
        }
        i = i + 1;
    }
    assert(rows@.take(i as int) =~= rows@);
    out
}

} // verus!
