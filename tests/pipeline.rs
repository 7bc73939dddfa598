use awful_rustdocs::model::{FieldDocOut, LlmDocResult, Row, Span};
use awful_rustdocs::pipeline::{
    distinct_files, field_results, function_rows, generation_order, is_wanted, next_action, symbol_names, ItemAction,
};
use awful_rustdocs::util::FieldSpec;

fn row(kind: &str, name: &str, file: &str, line: Option<u32>, doc: Option<&str>) -> Row {
    Row {
        kind: kind.to_string(),
        name: name.to_string(),
        crate_name: None,
        module_segments: None,
        fqpath: format!("crate::{name}"),
        visibility: "pub".to_string(),
        file: file.to_string(),
        span: Span { start_line: line, end_line: None, start_byte: None, end_byte: None },
        signature: String::new(),
        has_body: true,
        doc: doc.map(str::to_string),
        body_text: None,
        callers: None,
    }
}

#[test]
fn is_wanted_filters_kind_and_only_list() {
    let f = row("fn", "go", "a.rs", Some(1), None);
    let e = row("enum", "E", "a.rs", Some(1), None);
    assert!(is_wanted(&f, &[]));
    assert!(!is_wanted(&e, &[]));
    assert!(is_wanted(&f, &["crate::go".to_string()]));
    assert!(!is_wanted(&f, &["other".to_string()]));
}

#[test]
fn symbol_names_sorted_unique_nonempty() {
    let rows = vec![row("fn", "b", "x", None, None), row("fn", "", "x", None, None), row("struct", "a", "x", None, None), row("fn", "b", "y", None, None)];
    assert_eq!(symbol_names(&rows), vec!["a".to_string(), "b".to_string()]);
}

#[test]
fn distinct_files_sorted_unique() {
    let mk = |f: &str| LlmDocResult {
        kind: "fn".into(),
        fqpath: String::new(),
        file: f.into(),
        start_line: None,
        end_line: None,
        signature: String::new(),
        callers: vec![],
        referenced_symbols: vec![],
        llm_doc: String::new(),
        had_existing_doc: false,
    };
    let rs = vec![mk("src/b.rs"), mk("src/a.rs"), mk("src/b.rs")];
    assert_eq!(distinct_files(&rs), vec!["src/a.rs".to_string(), "src/b.rs".to_string()]);
}

#[test]
fn next_action_limit_skip_and_kinds() {
    let f = row("fn", "go", "a.rs", Some(1), Some("/// has"));
    let s = row("struct", "S", "a.rs", Some(1), Some("/// has"));
    let o = row("mod", "m", "a.rs", Some(1), None);
    assert_eq!(next_action(&f, false, 3, Some(3)), ItemAction::Stop);
    assert_eq!(next_action(&f, false, 0, None), ItemAction::Skip);
    assert_eq!(next_action(&f, true, 0, None), ItemAction::Function);
    assert_eq!(next_action(&s, false, 0, Some(9)), ItemAction::Struct);
    assert_eq!(next_action(&o, true, 0, None), ItemAction::Skip);
}

#[test]
fn generation_order_by_file_line_then_path() {
    let rows = vec![
        row("fn", "z", "b.rs", Some(1), None),
        row("fn", "y", "a.rs", Some(9), None),
        row("enum", "E", "a.rs", Some(1), None),
        row("struct", "x", "a.rs", Some(9), None),
        row("fn", "w", "a.rs", None, None),
    ];
    assert_eq!(generation_order(&rows, &[]), vec![4, 3, 1, 0]);
}

#[test]
fn field_results_follow_docs_and_skip_unknown_names() {
    let item = row("struct", "S", "s.rs", Some(3), None);
    let fields = vec![FieldSpec {
        name: "a".into(),
        field_line0: 5,
        insert_line0: 4,
        parent_fqpath: "crate::S".into(),
        field_line_text: "    a: u8,".into(),
    }];
    let docs = vec![
        FieldDocOut { name: "zz".into(), doc: "/// none".into() },
        FieldDocOut { name: "a".into(), doc: "ANSWER: the a".into() },
    ];
    let out = field_results(&item, &fields, &docs);
    assert_eq!(out.len(), 1);
    assert_eq!(out[0].fqpath, "crate::S::a");
    assert_eq!(out[0].start_line, Some(5));
    assert_eq!(out[0].signature, "    a: u8,");
    assert_eq!(out[0].llm_doc, "/// the a");
    assert_eq!(out[0].kind, "field");
}

#[test]
fn function_rows_keeps_functions_in_order() {
    let rows = vec![row("fn", "a", "x", None, None), row("struct", "S", "x", None, None), row("fn", "b", "x", None, None)];
    let names: Vec<&str> = function_rows(&rows).iter().map(|r| r.name.as_str()).collect();
    assert_eq!(names, vec!["a", "b"]);
}
