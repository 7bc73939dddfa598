use awful_rustdocs::grep::CallSite;
use awful_rustdocs::model::{Row, Span};
use awful_rustdocs::prompt::{build_markdown_question, build_struct_request_with_refs, truncate_for_context};

fn mk_span() -> Span {
    Span {
        start_line: Some(10),
        end_line: Some(20),
        start_byte: Some(100),
        end_byte: Some(200),
    }
}

fn mk_row_fn(doc: Option<&str>, body: Option<&str>) -> Row {
    Row {
        kind: "fn".into(),
        name: "hello".into(),
        crate_name: Some("crate_name".into()),
        module_segments: Some(vec!["moda".into(), "modb".into()]),
        fqpath: "crate::moda::modb::hello".into(),
        visibility: "pub".into(),
        file: "src/lib.rs".into(),
        span: mk_span(),
        signature: "pub fn hello(x: i32) -> i32".into(),
        has_body: true,
        doc: doc.map(|s| s.to_string()),
        body_text: body.map(|s| s.to_string()),
        callers: Some(vec!["crate::main::run".into()]),
    }
}

fn mk_row_struct(doc: Option<&str>) -> Row {
    Row {
        kind: "struct".into(),
        name: "Widget".into(),
        crate_name: Some("crate_name".into()),
        module_segments: Some(vec!["moda".into()]),
        fqpath: "crate::moda::Widget".into(),
        visibility: "pub".into(),
        file: "src/lib.rs".into(),
        span: mk_span(),
        signature: "pub struct Widget { pub w: usize }".into(),
        has_body: true,
        doc: doc.map(|s| s.to_string()),
        body_text: None,
        callers: None,
    }
}

// ---------- truncate_for_context ----------

#[test]
fn test_truncate_for_context_respects_line_limit() {
    let s = "a\nb\nc\nd\ne";
    let out = truncate_for_context(s, 10_000, 3);
    assert_eq!(out, "a\nb\nc", "FULL OUTPUT:\n{out}");
}

#[test]
fn test_truncate_for_context_respects_char_limit_and_appends_marker() {
    let s = "0123456789abcdefghij"; // 20 chars
    let out = truncate_for_context(s, 12, 10);
    // Should truncate to 12 chars, then append newline + marker
    let expected = "0123456789ab\n// …truncated…";
    assert_eq!(out, expected, "FULL OUTPUT:\n{out}");
}

#[test]
fn test_truncate_for_context_no_truncation_when_within_limits() {
    let s = "line1\nline2";
    let out = truncate_for_context(s, 100, 10);
    assert_eq!(out, s, "FULL OUTPUT:\n{out}");
}

// ---------- build_markdown_question (no existing doc) ----------

#[test]
fn test_build_markdown_question_no_existing_doc_includes_core_sections() {
    let row = mk_row_fn(None, Some("fn hello(){ let _x = 1; }"));
    let refs = vec!["Foo".to_string(), "Bar".to_string()];
    let calls = vec![
        CallSite {
            kind: "plain".into(),
            qual: None,
            callee: "zap".into(),
        },
        CallSite {
            kind: "qualified".into(),
            qual: Some("pkg::util".into()),
            callee: "fmt".into(),
        },
    ];

    let out = build_markdown_question(&row, &refs, &calls);

    // identity
    assert!(out.contains("## Function Identity"), "FULL OUTPUT:\n{out}");
    assert!(
        out.contains("`crate::moda::modb::hello`"),
        "FULL OUTPUT:\n{out}"
    );
    assert!(
        out.contains("`pub fn hello(x: i32) -> i32`"),
        "FULL OUTPUT:\n{out}"
    );
    assert!(
        out.contains("- **Visibility**: `pub`"),
        "FULL OUTPUT:\n{out}"
    );

    // existing doc section should say none
    assert!(
        out.contains("_No existing rustdoc found._"),
        "FULL OUTPUT:\n{out}"
    );

    // referenced symbols list
    assert!(
        out.contains("## Referenced Symbols (body-level)"),
        "FULL OUTPUT:\n{out}"
    );
    assert!(out.contains("- `Foo`"), "FULL OUTPUT:\n{out}");
    assert!(out.contains("- `Bar`"), "FULL OUTPUT:\n{out}");

    // calls
    assert!(
        out.contains("## Function Calls Inside This Function"),
        "FULL OUTPUT:\n{out}"
    );
    assert!(
        out.contains("- **plain** call → `zap`"),
        "FULL OUTPUT:\n{out}"
    );
    assert!(
        out.contains("- **qualified** call → `fmt` on `pkg::util`"),
        "FULL OUTPUT:\n{out}"
    );

    // body block
    assert!(
        out.contains("## Function Body (Truncated)"),
        "FULL OUTPUT:\n{out}"
    );
    assert!(out.contains("```rust"), "FULL OUTPUT:\n{out}");
    assert!(out.contains("let _x = 1;"), "FULL OUTPUT:\n{out}");

    // output requirements
    assert!(
        out.contains("## Output Requirements"),
        "FULL OUTPUT:\n{out}"
    );
    assert!(
        out.contains("Return **ONLY** a Rustdoc block"),
        "FULL OUTPUT:\n{out}"
    );
}

#[test]
fn test_build_markdown_question_includes_only_first_50_calls() {
    let row = mk_row_fn(None, None);
    let refs: Vec<String> = vec![];
    // 60 calls -> should only list 50
    let calls: Vec<CallSite> = (0..60)
        .map(|i| CallSite {
            kind: "plain".into(),
            qual: None,
            callee: format!("f{i}"),
        })
        .collect();

    let out = build_markdown_question(&row, &refs, &calls);
    let count = out.matches("- **plain** call → `").count();
    assert_eq!(
        count, 50,
        "Expected exactly 50 calls to be rendered.\nFULL OUTPUT:\n{out}"
    );
    // sanity: first and last of the expected slice appear
    assert!(out.contains("`f0`"), "FULL OUTPUT:\n{out}");
    assert!(out.contains("`f49`"), "FULL OUTPUT:\n{out}");
    // and one beyond 49 should not appear
    assert!(!out.contains("`f50`"), "FULL OUTPUT:\n{out}");
}

#[test]
fn test_build_markdown_question_with_existing_doc_embeds_code_block() {
    let row = mk_row_fn(Some("Existing doc\nMore lines"), Some("fn body() {}"));
    let out = build_markdown_question(&row, &[], &[]);
    // Should embed the trimmed doc in a rust code block
    assert!(
        out.contains("The function already has Rustdoc."),
        "FULL OUTPUT:\n{out}"
    );
    assert!(
        out.contains("```rust\nExisting doc\nMore lines\n```"),
        "FULL OUTPUT:\n{out}"
    );
}

// ---------- build_struct_request_with_refs ----------

#[test]
fn test_build_struct_request_with_refs_no_existing_doc_and_no_refs() {
    let srow = mk_row_struct(None);
    let body = "pub struct Widget { pub w: usize }";
    let out = build_struct_request_with_refs(&srow, body, &[]);

    assert!(
        out.contains("# Rust Struct Documentation Task"),
        "FULL OUTPUT:\n{out}"
    );
    assert!(out.contains("## Struct Identity"), "FULL OUTPUT:\n{out}");
    assert!(out.contains("`crate::moda::Widget`"), "FULL OUTPUT:\n{out}");
    assert!(
        out.contains("`pub struct Widget { pub w: usize }`"),
        "FULL OUTPUT:\n{out}"
    );
    assert!(
        out.contains("_No existing rustdoc found._"),
        "FULL OUTPUT:\n{out}"
    );

    // body verbatim
    assert!(
        out.contains("## Struct Body (verbatim)"),
        "FULL OUTPUT:\n{out}"
    );
    assert!(
        out.contains("```rust\npub struct Widget { pub w: usize }\n```"),
        "FULL OUTPUT:\n{out}"
    );

    // refs
    assert!(
        out.contains("_No referencing functions detected in the crate._"),
        "FULL OUTPUT:\n{out}"
    );

    // output JSON shape guidance
    assert!(
        out.contains(r#""struct_doc": "/// short summary..."#),
        "FULL OUTPUT:\n{out}"
    );
    assert!(out.contains(r#""fields": ["#), "FULL OUTPUT:\n{out}");
}

#[test]
fn test_build_struct_request_with_refs_limits_to_100_refs() {
    let srow = mk_row_struct(None);
    let body = "pub struct Widget { pub w: usize }";

    let all_refs: Vec<String> = (0..150).map(|i| format!("crate::f::{i}")).collect();

    let out = build_struct_request_with_refs(&srow, body, &all_refs);

    // Count how many "- `...`" lines for refs appear; expect 100
    let rendered = out
        .lines()
        .filter(|l| l.trim_start().starts_with("- `crate::f::"))
        .count();
    assert_eq!(
        rendered, 100,
        "Expected 100 refs to be listed.\nFULL OUTPUT:\n{out}"
    );

    // Sanity: first and boundary values
    assert!(out.contains("- `crate::f::0`"), "FULL OUTPUT:\n{out}");
    assert!(out.contains("- `crate::f::99`"), "FULL OUTPUT:\n{out}");
    assert!(!out.contains("- `crate::f::100`"), "FULL OUTPUT:\n{out}");
}

#[test]
fn test_build_struct_request_with_refs_shows_existing_doc_when_present() {
    let srow = mk_row_struct(Some("Existing struct doc.\nMore."));
    let body = "pub struct Widget { pub w: usize }";
    let out = build_struct_request_with_refs(&srow, body, &[]);
    assert!(
        out.contains("The struct already has Rustdoc."),
        "FULL OUTPUT:\n{out}"
    );
    assert!(
        out.contains("```rust\nExisting struct doc.\nMore.\n```"),
        "FULL OUTPUT:\n{out}"
    );
}

// ---------- further cases ----------

#[test]
fn truncate_for_context_zero_lines_is_empty() {
    assert_eq!(truncate_for_context("a\nb", 5, 0), "");
    assert_eq!(truncate_for_context("abc", 0, 3), "\n// …truncated…");
}

#[test]
fn build_markdown_question_exact_minimal_request() {
    let mut row = mk_row_fn(None, None);
    row.doc = Some("   ".into());
    let out = build_markdown_question(&row, &[], &[]);
    let head = "# Rust Function Documentation Task\nYou are given context about a single Rust function.\n\n## Function Identity\n- **Fully-qualified path**: `crate::moda::modb::hello`\n- **Signature**: `pub fn hello(x: i32) -> i32`\n- **Visibility**: `pub`\n\n## Existing Documentation\n_No existing rustdoc found._\n\n## Referenced Symbols (body-level)\n_No symbol references detected._\n\n---\n## Output Requirements\n";
    assert!(out.starts_with(head), "FULL OUTPUT:\n{out}");
    assert!(out.ends_with("(or be a blank `///`).\n"), "FULL OUTPUT:\n{out}");
    assert!(!out.contains("## Function Calls"), "FULL OUTPUT:\n{out}");
}

#[test]
fn truncate_for_context_counts_bytes() {
    assert_eq!(truncate_for_context("éa", 2, 5), "é\n// …truncated…");
    assert_eq!(truncate_for_context("éa", 1, 5), "\n// …truncated…");
    assert_eq!(truncate_for_context("éa", 3, 5), "éa");
}
