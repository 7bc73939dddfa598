use awful_rustdocs::sanitize::{
    balance_code_fences, coerce_to_rustdoc, decode_common_escapes, extract_longest_doc_block,
    sanitize_llm_doc, strip_leading_empty_doc_lines, strip_wrapper_markers, strip_xml_like,
    unwrap_code_fence_if_wrapped,
};

fn numbered(s: &str) -> String {
    s.lines()
        .enumerate()
        .map(|(i, l)| format!("{:>3}: {}", i, l))
        .collect::<Vec<_>>()
        .join("\n")
}

#[test]
fn test_strip_xml_like_no_match_returns_original_trimmed() {
    let src = "no tags here";
    let got = strip_xml_like(src, "div");
    assert_eq!(got, src);
}

#[test]
fn test_strip_wrapper_markers_strips_first_marker_outside_fences() {
    let src = "ANSWER: This should remain\nand so should this\n";
    let got = strip_wrapper_markers(src, &["ANSWER:", "RESPONSE:"]);
    let want = "This should remain\nand so should this";
    assert_eq!(got, want, "FULL:\n{}", numbered(&got));
}

#[test]
fn test_strip_wrapper_markers_ignores_markers_inside_code_fence() {
    let src = "```txt\nANSWER: keep this\n```\nOutside stays intact\n";
    let got = strip_wrapper_markers(src, &["ANSWER:"]);
    let want = "```txt\nANSWER: keep this\n```\nOutside stays intact";
    assert_eq!(got, want, "FULL:\n{}", numbered(&got));
}

#[test]
fn test_unwrap_code_fence_if_wrapped_happy_path() {
    let src = "```\nline1\nline2\n```";
    assert_eq!(unwrap_code_fence_if_wrapped(src), "line1\nline2");
}

#[test]
fn test_unwrap_code_fence_if_wrapped_malformed_returns_trimmed() {
    let src = "```missing close";
    assert_eq!(unwrap_code_fence_if_wrapped(src), "missing close");
}

#[test]
fn test_unwrap_code_fence_if_wrapped_no_fence_returns_trimmed() {
    assert_eq!(unwrap_code_fence_if_wrapped(" no fence "), "no fence");
}

#[test]
fn test_extract_longest_doc_block_picks_longest_contiguous_triple_slash_block() {
    let lines = vec!["/// A".into(), "/// B".into(), "not doc".into(), "/// C".into()];
    let got = extract_longest_doc_block(&lines);
    let want: Vec<String> = vec!["/// A".into(), "/// B".into()];
    assert_eq!(got, want);
}

#[test]
fn test_extract_longest_doc_block_minimal_when_no_doc_lines() {
    let lines = vec!["first".into(), "second".into()];
    let got = extract_longest_doc_block(&lines);
    let want: Vec<String> = vec!["/// first".into()];
    assert_eq!(got, want);
}

#[test]
fn test_coerce_to_rustdoc_balances_simple_code_fence() {
    let raw = "Before\n```\ncode\n```\nAfter";
    let got = coerce_to_rustdoc(raw);
    assert!(!got.contains("```"), "coerce_to_rustdoc should not keep raw (non-///) code fences.\nFULL:\n{}", got);
    assert!(got.contains("/// Before"), "Should keep preceding text as rustdoc.\nFULL:\n{}", got);
    assert!(got.contains("/// code"), "Should keep fenced content as rustdoc text.\nFULL:\n{}", got);
    assert!(got.contains("/// After"), "Should keep trailing text as rustdoc.\nFULL:\n{}", got);
}

#[test]
fn test_strip_xml_like_basic_and_repeated() {
    let s = "<p>hello</p><think>ignore me</think>\n<think>again</think>\n<p>world</p>";
    let got = strip_xml_like(s, "think");
    let expected = "<p>hello</p>\n\n<p>world</p>";
    assert_eq!(
        got,
        expected,
        "FULL:\n  0: {}\n  1: {}\n  2: {}",
        got.lines().nth(0).unwrap_or(""),
        got.lines().nth(1).unwrap_or(""),
        got.lines().nth(2).unwrap_or("")
    );
}

#[test]
fn test_coerce_to_rustdoc_maps_section_headers_and_strips_noise() {
    let raw = "Parameters:\nThis function frobs.\nReturns:\n\"Unit value\"\n{\n}\n```ignored```";
    let got = coerce_to_rustdoc(raw);
    assert!(got.contains("/// ## Parameters"));
    assert!(got.contains("/// ## Returns"));
    assert!(got.contains("/// This function frobs."));
    assert!(got.contains("/// Unit value"));
    assert!(!got.contains("{"));
}

#[test]
fn test_decode_common_escapes_handles_newlines_tabs_and_quotes() {
    let raw = r#"line1\nline2\\nline3\t\"q\""#;
    let got = decode_common_escapes(raw);
    let expected = "line1\nline2\\\nline3\t\"q\"";
    assert_eq!(
        got,
        expected,
        "FULL:\n  0: {}\n  1: {}\n  2: {}",
        got.lines().nth(0).unwrap_or(""),
        got.lines().nth(1).unwrap_or(""),
        got.lines().nth(2).unwrap_or("")
    );
}

#[test]
fn test_balance_code_fences_appends_closing_when_odd() {
    let src = "/// ```\n/// code\n";
    assert!(balance_code_fences(src).ends_with("/// ```"));
}

#[test]
fn test_balance_code_fences_unchanged_when_balanced() {
    let src = "/// ```\n/// code\n/// ```";
    assert_eq!(balance_code_fences(src), src);
}

#[test]
fn test_strip_leading_empty_doc_lines_removes_only_leading_blanks() {
    let src = "///\n///\n/// Title\n/// Body";
    let got = strip_leading_empty_doc_lines(src);
    assert_eq!(got, "/// Title\n/// Body");
}

#[test]
fn test_strip_leading_empty_doc_lines_no_change_when_first_line_not_blank_doc() {
    let src = "/// Title\n/// Body";
    assert_eq!(strip_leading_empty_doc_lines(src), src);
}

#[test]
fn test_sanitize_llm_doc_end_to_end_common_flow() {
    // The text already holds three documentation lines, so the answer label
    // is kept rather than cut.
    let raw = "<think>inner</think>\nANSWER: ```rust\n///\n/// Example title\n/// ```\n/// let x=1;\n/// ```\n```";
    let got = sanitize_llm_doc(raw);
    assert!(got.starts_with("/// ANSWER: ```rust\n///\n/// Example title"));
    assert!(got.contains("/// ```rust"));
    assert!(got.trim_end().ends_with("/// ```"));
}

#[test]
fn test_sanitize_llm_doc_handles_escapes_and_no_doc_block() {
    let raw = r#"ANSWER: Line 1\nLine 2\t\"Q\""#;
    let got = sanitize_llm_doc(raw);
    assert!(
        got.lines().next().unwrap_or("").trim_start().starts_with("///"),
        "Sanitized output should start with a rustdoc line.\nFULL:\n{}",
        got
    );
    assert!(got.contains("Line 1"), "Expected content 'Line 1' to appear.\nFULL:\n{}", got);
    assert!(got.contains("Line 2"), "Expected content 'Line 2' to appear.\nFULL:\n{}", got);
    assert!(got.contains("\"Q\""), "Expected decoded quotes around Q.\nFULL:\n{}", got);
}

// ---------- further cases ----------

#[test]
fn sanitize_cuts_at_first_answer_label() {
    let got = sanitize_llm_doc("Thinking...\nANSWER: first\nOUTPUT: second");
    assert_eq!(got, "/// first\n/// OUTPUT: second");
}

#[test]
fn sanitize_blank_input_gives_nothing() {
    assert_eq!(sanitize_llm_doc("   \n\t\n"), "");
    assert_eq!(sanitize_llm_doc(""), "");
}

#[test]
fn sanitize_closes_open_fence_and_names_language() {
    let got = sanitize_llm_doc("Summary.\n/// ```\n/// let a = 1;");
    assert_eq!(got, "/// Summary.\n/// ```rust\n/// let a = 1;\n/// ```");
}

#[test]
fn sanitize_every_line_carries_marker() {
    let got = sanitize_llm_doc("{\n\"key\":\nfirst line\n\n\nsecond \"x\" line\n}");
    for l in got.lines() {
        assert!(l.is_empty() || l.starts_with("///"), "line {:?} in {:?}", l, got);
    }
    assert_eq!(got, "/// first line\n///\n/// second \"x\" line");
}

#[test]
fn strip_xml_like_escapes_the_tag_and_ignores_case() {
    assert_eq!(strip_xml_like("a<A.B>x</a.b>b", "a.b"), "ab");
    assert_eq!(strip_xml_like("a<aXb>x</aXb>b", "a.b"), "a<aXb>x</aXb>b");
    assert_eq!(strip_xml_like(" keep <THINK x=1>\nno\n</think> ", "think"), "keep");
}

#[test]
fn unwrap_code_fence_keeps_inner_text_only_for_one_region() {
    assert_eq!(unwrap_code_fence_if_wrapped("\n```rust\n a  \n```\n"), " a");
    assert_eq!(unwrap_code_fence_if_wrapped("```\na\n```\nb\n```"), "a\n```\nb");
}

#[test]
fn decode_common_escapes_crlf_and_doubled_forms() {
    assert_eq!(decode_common_escapes(r"a\r\nb"), "a\nb");
    assert_eq!(decode_common_escapes("plain"), "plain");
}

#[test]
fn extract_longest_doc_block_first_of_equal_runs_and_empty_input() {
    let lines: Vec<String> = vec!["/// a".into(), "x".into(), "/// b".into()];
    assert_eq!(extract_longest_doc_block(&lines), vec!["/// a".to_string()]);
    let none: Vec<String> = vec!["  ".into()];
    assert_eq!(extract_longest_doc_block(&none), vec!["///".to_string()]);
}

#[test]
fn coerce_drops_trailing_bare_markers_and_backslash() {
    assert_eq!(coerce_to_rustdoc("one \\\n\n\n"), "/// one ");
}

#[test]
fn sanitize_fence_lines_come_in_pairs() {
    for raw in ["/// ```\n/// a", "x\n/// ```rust\n/// ```\n/// ```", "```\n```\n```", "/// `` ```"] {
        let got = sanitize_llm_doc(raw);
        let fences = got
            .lines()
            .filter(|l| l.trim_start().trim_start_matches('/').trim_start().starts_with("```"))
            .count();
        assert_eq!(fences % 2, 0, "odd fences in {:?}", got);
    }
}
