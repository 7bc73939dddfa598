use awful_rustdocs::model::LlmDocResult;
use awful_rustdocs::patch::{
    add_leading_blank_if_needed, apply_edits, doc_slot_above_attrs, field_doc_slot,
    find_doc_insertion_range, indent_like, needs_leading_blank_line, patch_source, Edit,
    InsertWhere,
};

fn numbered(src: &str) -> String {
    src.lines()
        .enumerate()
        .map(|(i, l)| format!("{:>3}: {}", i, l))
        .collect::<Vec<_>>()
        .join("\n")
}

#[test]
fn test_apply_edits_basic_replacements_and_ordering() {
    let text = "Hello_world".to_string();
    let edits = vec![
        Edit { start: 6, end: 11, text: "there".to_string() },
        Edit { start: 0, end: 5, text: "Hi".to_string() },
    ];
    let got = apply_edits(text, edits);
    let want = "Hi_there".to_string();
    assert_eq!(
        got, want,
        "Expected simple, ordered replacements to produce:\n{}\nGot:\n{}",
        want, got
    );
}

#[test]
fn test_apply_edits_ignores_out_of_bounds_and_invalid_ranges() {
    let text = "ABCDE".to_string();
    let edits = vec![
        Edit { start: 3, end: 2, text: "X".into() },
        Edit { start: 4, end: 999, text: "Z".into() },
        Edit { start: 1, end: 3, text: "bb".into() },
    ];
    let got = apply_edits(text, edits);
    let want = "AbbDE".to_string();
    assert_eq!(
        got, want,
        "apply_edits should ignore invalid/out-of-bounds edits; want:\n{}\ngot:\n{}",
        want, got
    );
}

#[test]
fn test_doc_slot_above_attrs_before_when_no_existing_doc() {
    let src = "\n#[inline]\npub struct Foo {\n    a: i32,\n}\n";
    let res = doc_slot_above_attrs(src, 2, false);
    match res {
        Some(InsertWhere::Before(i)) => {
            assert_eq!(i, 1, "Expected insertion at first attribute line.\nSRC:\n{}", numbered(src));
        }
        _ => panic!("Unexpected result; SRC:\n{}", numbered(src)),
    }
}

#[test]
fn test_doc_slot_above_attrs_replace_when_doc_present_and_overwrite() {
    let src = "\n#[inline]\n/// Doc A\n/// Doc B\npub struct Foo {\n    a: i32,\n}\n";
    let res = doc_slot_above_attrs(src, 4, true);
    match res {
        Some(InsertWhere::Replace(lo, hi)) => {
            assert_eq!(
                (lo, hi),
                (2, 4),
                "Expected (doc_lo, sig_line). Got ({lo},{hi}).\nSRC:\n{}",
                numbered(src)
            );
        }
        _ => panic!("Expected Replace.\nSRC:\n{}", numbered(src)),
    }
}

#[test]
fn test_doc_slot_above_attrs_none_when_doc_present_and_no_overwrite() {
    let src = "\n#[inline]\n/// Already here\npub struct Foo { a: i32 }\n";
    let got = doc_slot_above_attrs(src, 3, false);
    assert!(
        got.is_none(),
        "When a doc block exists and overwrite=false, expected None.\nSRC:\n{}",
        numbered(src)
    );
}

#[test]
fn test_field_doc_slot_before_when_no_doc() {
    let src = "\npub struct Foo {\n    name: String,\n}\n";
    let res = field_doc_slot(src, 2, false);
    match res {
        Some(InsertWhere::Before(i)) => assert_eq!(
            i,
            2,
            "Expected to insert before the field line.\nSRC:\n{}",
            numbered(src)
        ),
        _ => panic!("Expected InsertWhere::Before.\nSRC:\n{}", numbered(src)),
    }
}

#[test]
fn test_field_doc_slot_replace_when_doc_exists_and_overwrite() {
    let src = "\npub struct Foo {\n    /// field doc\n    name: String,\n}\n";
    let res = field_doc_slot(src, 3, true);
    match res {
        Some(InsertWhere::Replace(lo, hi)) => {
            assert_eq!((lo, hi), (2, 3), "Expected Replace at the doc block range.\nSRC:\n{}", numbered(src));
        }
        _ => panic!("Expected Replace.\nSRC:\n{}", numbered(src)),
    }
}

#[test]
fn test_field_doc_slot_none_when_doc_exists_and_no_overwrite() {
    let src = "\npub struct Foo {\n    /// doc present\n    name: String,\n}\n";
    let field_line0 = 3usize;
    let res = field_doc_slot(src, field_line0, false);
    assert!(
        res.is_none(),
        "Expected None when doc exists and overwrite=false.\nGot: some variant.\nSRC:\n{}",
        numbered(src)
    );
}

#[test]
fn test_find_doc_insertion_range_with_attrs_and_doc() {
    let src = "\n#[inline]\n/// Doc A\n/// Doc B\npub fn foo() {}\n";
    let (lo, hi) = find_doc_insertion_range(src, 4 + 1);
    assert_eq!(
        (lo, hi),
        (2, 4),
        "Expected lo to be the first doc line, hi to be the signature line.\nSRC:\n{}\n(lo,hi)=({lo},{hi})",
        numbered(src)
    );
}

#[test]
fn test_find_doc_insertion_range_no_attrs_moves_to_blank_before_sig() {
    let src = "\n/// Doc\n\npub fn foo() {}\n";
    let (lo, hi) = find_doc_insertion_range(src, 3 + 1);
    assert_eq!(
        (lo, hi),
        (2, 3),
        "Expected doc block to end at sig and start at the doc line.\nSRC:\n{}\n(lo, hi)=({lo},{hi})",
        numbered(src)
    );
}

#[test]
fn test_indent_like_preserves_doc_markers_and_blank_lines() {
    let target_line = "    pub fn foo() {}";
    let doc = "/// First\n\n/// Second\nLine without marker";
    let got = indent_like(target_line, doc);
    let want = "    /// First\n    ///\n    /// Second\n    /// Line without marker\n";
    assert_eq!(got, want, "Indentation or doc markers not preserved correctly.");
}

#[test]
fn test_indent_like_ensures_single_trailing_newline() {
    let target_line = "fn x() {}";
    let doc = "Line 1\nLine 2\n";
    let got = indent_like(target_line, doc);
    let want = "/// Line 1\n/// Line 2\n";
    assert_eq!(got, want, "Expected exactly one trailing newline.\nGot:\n{:?}", got);
}

#[test]
fn test_needs_leading_blank_line_true_when_prev_line_non_blank() {
    let src = "line A\nline B\n";
    assert!(
        needs_leading_blank_line(src, 1),
        "Expected true when previous line is non-blank.\nSRC:\n{}",
        numbered(src)
    );
}

#[test]
fn test_needs_leading_blank_line_false_when_prev_blank_or_top() {
    let src = "\nline B\n";
    assert!(!needs_leading_blank_line(src, 1), "Expected false when previous line is blank.\nSRC:\n{}", numbered(src));
    assert!(!needs_leading_blank_line(src, 0), "Expected false at top-of-file insertion.\nSRC:\n{}", numbered(src));
}

#[test]
fn test_add_leading_blank_if_needed_adds_blank() {
    let src = "fn a() {}\nfn b() {}\n";
    let doc = "/// new doc\n";
    let got = add_leading_blank_if_needed(src, 1, doc);
    let want = format!("\n{}", doc);
    assert_eq!(got, want, "Expected a leading blank line to be added.\nGot:\n{:?}", got);
}

#[test]
fn test_add_leading_blank_if_needed_noop_when_prev_blank() {
    let src = "fn a() {}\n\nfn b() {}\n";
    let doc = "/// new doc\n";
    let got = add_leading_blank_if_needed(src, 2, doc);
    assert_eq!(got, doc, "Expected no leading blank when the previous line is already blank.\nGot:\n{:?}", got);
}

// ---------- further cases ----------

fn result(kind: &str, file: &str, line: Option<u32>, doc: &str) -> LlmDocResult {
    LlmDocResult {
        kind: kind.to_string(),
        fqpath: "crate::x".to_string(),
        file: file.to_string(),
        start_line: line,
        end_line: None,
        signature: String::new(),
        callers: vec![],
        referenced_symbols: vec![],
        llm_doc: doc.to_string(),
        had_existing_doc: false,
    }
}

#[test]
fn apply_edits_equal_starts_keep_given_order() {
    let edits = vec![
        Edit { start: 1, end: 1, text: "a".into() },
        Edit { start: 1, end: 1, text: "b".into() },
    ];
    assert_eq!(apply_edits("XY".to_string(), edits), "XbaY");
}

#[test]
fn apply_edits_empty_list_keeps_text() {
    assert_eq!(apply_edits("same".to_string(), vec![]), "same");
}

#[test]
fn apply_edits_preserves_bytes_outside_range() {
    let got = apply_edits("abcdefgh".to_string(), vec![Edit { start: 2, end: 5, text: "XYZW".into() }]);
    assert_eq!(got, "abXYZWfgh");
}

#[test]
fn doc_slot_above_attrs_passes_one_blank_between_attributes() {
    let src = "/// old\n#[a]\n\n#[b]\nstruct S;\n";
    assert_eq!(doc_slot_above_attrs(src, 4, true), Some(InsertWhere::Replace(0, 1)));
    let two = "#[a]\n\n\n#[b]\nstruct S;\n";
    assert_eq!(doc_slot_above_attrs(two, 4, false), Some(InsertWhere::Before(3)));
}

#[test]
fn doc_slot_above_attrs_past_end_inserts_at_hint() {
    assert_eq!(doc_slot_above_attrs("a\nb\n", 7, false), Some(InsertWhere::Before(7)));
}

#[test]
fn field_doc_slot_at_top_inserts_before_zero() {
    assert_eq!(field_doc_slot("/// x\nf: u8,\n", 0, true), Some(InsertWhere::Before(0)));
}

#[test]
fn find_doc_insertion_range_takes_doc_above_attributes() {
    let src = "/// old\n#[inline]\nfn f() {}\n";
    assert_eq!(find_doc_insertion_range(src, 3), (0, 1));
}

#[test]
fn indent_like_empty_doc_is_one_newline() {
    assert_eq!(indent_like("  x", ""), "\n");
    assert_eq!(indent_like("\tfn f()", "a\r\nb"), "\t/// a\n\t/// b\n");
}

#[test]
fn patch_source_inserts_before_function_with_blank_line() {
    let src = "use x;\nfn alpha() {}\n";
    let results = vec![result("fn", "a.rs", Some(2), "/// Alpha.")];
    let out = patch_source(src, "a.rs", &results, false);
    assert_eq!(out.text, "use x;\n\n/// Alpha.\nfn alpha() {}\n");
    assert_eq!((out.edits, out.skipped_no_sig, out.skipped_existing_doc), (1, 0, 0));
}

#[test]
fn patch_source_second_pass_changes_nothing() {
    let src = "use x;\nfn alpha() {}\n\npub struct S {\n    a: u8,\n}\n";
    let results = vec![
        result("fn", "a.rs", Some(2), "/// Alpha."),
        result("struct", "a.rs", Some(4), "/// The S."),
    ];
    let first = patch_source(src, "a.rs", &results, false);
    assert_eq!(first.edits, 2);
    let second = patch_source(&first.text, "a.rs", &results, false);
    assert_eq!(second.text, first.text);
    assert_eq!((second.edits, second.skipped_existing_doc), (0, 2));
}

#[test]
fn patch_source_counts_skips_and_ignores_other_files() {
    let src = "/// has doc\nfn a() {}\nlet x = 1;\n";
    let results = vec![
        result("fn", "a.rs", Some(2), "/// New."),
        result("struct", "a.rs", Some(3), "/// None here."),
        result("fn", "b.rs", Some(1), "/// Elsewhere."),
        result("fn", "a.rs", None, "/// No line."),
    ];
    let out = patch_source(src, "a.rs", &results, false);
    assert_eq!(out.text, src);
    assert_eq!((out.edits, out.skipped_no_sig, out.skipped_existing_doc), (0, 1, 1));
}

#[test]
fn patch_source_overwrite_replaces_field_doc() {
    let src = "struct S {\n    /// old\n    a: u8,\n}\n";
    let results = vec![result("field", "s.rs", Some(3), "/// new")];
    let out = patch_source(src, "s.rs", &results, true);
    assert_eq!(out.text, "struct S {\n    /// new\n    a: u8,\n}\n");
}

#[test]
fn apply_edits_offsets_are_bytes() {
    let e = vec![Edit { start: 0, end: 2, text: "x".into() }];
    assert_eq!(apply_edits("é".to_string(), e), "x");
    let inside = vec![Edit { start: 1, end: 2, text: "x".into() }];
    assert_eq!(apply_edits("é".to_string(), inside), "é");
    let after = vec![Edit { start: 2, end: 3, text: "Z".into() }];
    assert_eq!(apply_edits("éab".to_string(), after), "éZb");
}

#[test]
fn patch_source_after_non_ascii_lines() {
    let src = "// é ü\nfn alpha() {}\n";
    let results = vec![result("fn", "a.rs", Some(2), "/// Alpha.")];
    let out = patch_source(src, "a.rs", &results, false);
    assert_eq!(out.text, "// é ü\n\n/// Alpha.\nfn alpha() {}\n");
}

#[test]
fn apply_edits_skipped_edits_leave_valid_result() {
    let good = vec![Edit { start: 1, end: 2, text: "b".into() }, Edit { start: 3, end: 3, text: "+".into() }];
    let mixed = vec![
        Edit { start: 3, end: 3, text: "+".into() },
        Edit { start: 5, end: 2, text: "?".into() },
        Edit { start: 4, end: 50, text: "!".into() },
        Edit { start: 1, end: 2, text: "b".into() },
    ];
    assert_eq!(apply_edits("aXcd".to_string(), mixed), apply_edits("aXcd".to_string(), good));
    assert_eq!(apply_edits("aXcd".to_string(), vec![Edit { start: 3, end: 3, text: "+".into() }, Edit { start: 1, end: 2, text: "b".into() }]), "abc+d");
}
