use awful_rustdocs::model::{collect_symbol_refs, referencing_functions, Row, Span};
use awful_rustdocs::regexes::matcher;

fn mk_span(start_line: Option<u32>, end_line: Option<u32>, start_byte: Option<u64>, end_byte: Option<u64>) -> Span {
    Span { start_line, end_line, start_byte, end_byte }
}

fn mk_row_with(kind: &str, name: &str, fqpath: &str, body_text: Option<&str>) -> Row {
    Row {
        kind: kind.to_string(),
        name: name.to_string(),
        crate_name: None,
        module_segments: None,
        fqpath: fqpath.to_string(),
        visibility: "pub".to_string(),
        file: "src/lib.rs".to_string(),
        span: mk_span(Some(1), Some(1), Some(0), Some(0)),
        signature: format!("{kind} {name}()"),
        has_body: true,
        doc: None,
        body_text: body_text.map(str::to_string),
        callers: None,
    }
}

#[test]
fn test_row_had_doc_true_when_non_empty_after_trim() {
    let row = Row {
        kind: "fn".into(),
        name: "foo".into(),
        crate_name: None,
        module_segments: None,
        fqpath: "crate::foo".into(),
        visibility: "pub".into(),
        file: "src/lib.rs".into(),
        span: mk_span(None, None, None, None),
        signature: "fn foo()".into(),
        has_body: true,
        doc: Some("  hello  ".into()),
        body_text: None,
        callers: None,
    };
    assert!(row.had_doc(), "Expected had_doc() to be true for doc = {:?}", row.doc);
}

#[test]
fn test_row_had_doc_false_on_whitespace_or_none() {
    let mut row = mk_row_with("fn", "foo", "crate::foo", None);
    row.doc = Some("   \n\t".into());
    assert!(!row.had_doc(), "Expected had_doc() to be false for whitespace-only doc: {:?}", row.doc);
    row.doc = None;
    assert!(!row.had_doc(), "Expected had_doc() to be false when doc is None");
}

#[test]
fn test_row_span_bytes_defaults_when_missing() {
    let row = Row { span: mk_span(None, None, None, None), ..mk_row_with("fn", "foo", "crate::foo", None) };
    let (start, end) = row.span_bytes();
    assert_eq!((start, end), (0, u64::MAX), "Expected span_bytes() to default to (0, u64::MAX); got ({start}, {end})");
}

#[test]
fn test_row_span_bytes_uses_present_values() {
    let row = Row { span: mk_span(None, None, Some(10), Some(99)), ..mk_row_with("fn", "foo", "crate::foo", None) };
    let (start, end) = row.span_bytes();
    assert_eq!((start, end), (10, 99), "Expected span_bytes() to return provided values; got ({start}, {end})");
}

#[test]
fn test_referencing_functions_matches_name_and_fqpath() {
    let f1 = mk_row_with("fn", "f1", "mod1::f1", Some("let _ = MyStruct::new();"));
    let f2 = mk_row_with("fn", "f2", "mod2::f2", Some("uses mod1::MyStruct in text"));
    let f3 = mk_row_with("fn", "f3", "mod3::f3", Some("no reference here"));
    let all = vec![f1, f2, f3];
    let refs: Vec<&Row> = all.iter().collect();
    let out = referencing_functions("MyStruct", "mod1::MyStruct", &refs);
    assert_eq!(out, vec!["mod1::f1", "mod2::f2"], "Expected functions referencing either name or fqpath.\nFOUND:\n{:#?}", out);
}

#[test]
fn test_referencing_functions_uses_word_boundaries() {
    let f1 = mk_row_with("fn", "f1", "m::f1", Some("MyStructX should not match"));
    let f2 = mk_row_with("fn", "f2", "m::f2", Some("wrap MyStruct here"));
    let refs: Vec<&Row> = vec![&f1, &f2];
    let out = referencing_functions("MyStruct", "m::MyStruct", &refs);
    assert_eq!(out, vec!["m::f2"], "Expected only exact word-boundary matches.\nFOUND:\n{:#?}", out);
}

#[test]
fn test_collect_symbol_refs_empty_body() {
    let re = matcher(r"[A-Za-z_][A-Za-z0-9_]*").unwrap();
    let set: Vec<String> = ["Foo", "Bar"].iter().map(|s| s.to_string()).collect();
    let out = collect_symbol_refs("", &set, &re);
    assert!(out.is_empty(), "Expected no symbols for empty body; got: {out:#?}");
}

#[test]
fn test_collect_symbol_refs_finds_known_symbols() {
    let re = matcher(r"[A-Za-z_][A-Za-z0-9_]*").unwrap();
    let all: Vec<String> = ["Foo", "Bar", "baz"].iter().map(|s| s.to_string()).collect();
    let body = "fn go() { let x = Foo::new(); Bar::zap(x); }";
    let out = collect_symbol_refs(body, &all, &re);
    assert_eq!(out, vec!["Bar".to_string(), "Foo".to_string()], "Expected only known symbols in lexical order.\nBODY:\n{}\nOUTPUT:\n{:#?}", body, out);
}

#[test]
fn test_collect_symbol_refs_limits_to_64() {
    let re = matcher(r"[A-Za-z_][A-Za-z0-9_]*").unwrap();
    let mut all = Vec::new();
    for i in 0..100 {
        all.push(format!("S{i}"));
    }
    let mut body = String::new();
    for i in 0..100 {
        body.push_str(&format!(" S{i}()"));
    }
    let out = collect_symbol_refs(&body, &all, &re);
    assert!(out.len() <= 64, "Expected collection to cap at 64 symbols; got {}\nOUTPUT(first 10): {:#?}", out.len(), &out[..out.len().min(10)]);
}

// ---------- further cases ----------

#[test]
fn collect_symbol_refs_keeps_first_sixty_four_in_order_of_appearance() {
    let re = matcher(r"[A-Za-z_][A-Za-z0-9_]*").unwrap();
    let all: Vec<String> = (0..100).map(|i| format!("S{i:03}")).collect();
    let body: String = (0..100).rev().map(|i| format!(" S{i:03}")).collect();
    let out = collect_symbol_refs(&body, &all, &re);
    assert_eq!(out.len(), 64);
    assert_eq!(out[0], "S036");
    assert_eq!(out[63], "S099");
}

#[test]
fn referencing_functions_escapes_the_name_and_dedups() {
    let f1 = mk_row_with("fn", "b", "z::b", Some("a.b here"));
    let f2 = mk_row_with("fn", "a", "z::b", Some("a.b again"));
    let f3 = mk_row_with("fn", "c", "y::c", Some("axb"));
    let refs: Vec<&Row> = vec![&f1, &f2, &f3];
    assert_eq!(referencing_functions("a.b", "q::a.b", &refs), vec!["z::b"]);
}
