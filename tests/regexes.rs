use awful_rustdocs::regexes::{find_sig_line_near, matcher, re_fn_sig, re_struct, Matcher};

fn with_line_numbers(src: &str) -> String {
    src.lines()
        .enumerate()
        .map(|(i, l)| format!("{:>3}: {}", i, l))
        .collect::<Vec<_>>()
        .join("\n")
}

fn sample_src() -> String {
    r#"use std::fmt::Debug;

#[allow(dead_code)]
#[inline]
pub fn alpha() {}

mod something {
}
fn beta() {}

pub struct S {}"#
        .to_string()
}

fn re(p: &str) -> Matcher {
    matcher(p).expect("pattern compiles")
}

#[test]
fn test_find_sig_line_near_finds_forward_within_20() {
    let src = sample_src();
    let re = re(r"^\s*(?:pub\s+)?fn\b");
    let got = find_sig_line_near(&src, 1, &re);
    assert_eq!(got, Some(4), "Expected to find the first fn going forward to line 4.\nFULL SOURCE:\n{}", with_line_numbers(&src));
}

#[test]
fn test_find_sig_line_near_scans_backward_within_5_when_not_found_forward() {
    let src = sample_src();
    let re_mod = re(r"^\s*mod\b");
    let got = find_sig_line_near(&src, 7, &re_mod);
    assert_eq!(got, Some(6), "Expected to find `mod` by scanning backward to line 6.\nFULL SOURCE:\n{}", with_line_numbers(&src));
}

#[test]
fn test_find_sig_line_near_returns_none_when_no_match_in_window() {
    let src = sample_src();
    let re = re(r"^\s*enum\b");
    let got = find_sig_line_near(&src, 0, &re);
    assert_eq!(got, None, "Expected None when no matching line exists.\nFULL SOURCE:\n{}", with_line_numbers(&src));
}

#[test]
fn test_find_sig_line_near_handles_start_past_end_gracefully() {
    let src = sample_src();
    let re = re(r"^\s*(?:pub\s+)?fn\b");
    let got = find_sig_line_near(&src, 100, &re);
    assert_eq!(got, None, "Expected None when start_line0 is beyond the end of the source.\nFULL SOURCE:\n{}", with_line_numbers(&src));
}

#[test]
fn test_find_sig_line_near_matches_exact_start_line() {
    let src = sample_src();
    let re = re(r"^\s*(?:pub\s+)?fn\b");
    let got = find_sig_line_near(&src, 8, &re);
    assert_eq!(got, Some(8), "Expected to match exactly at the start line (8).\nFULL SOURCE:\n{}", with_line_numbers(&src));
}

// ---------- further cases ----------

#[test]
fn compile_refuses_a_broken_pattern() {
    assert!(matcher("(unclosed").is_none());
}

#[test]
fn fn_pattern_skips_qualifiers() {
    let re = re_fn_sig().expect("compiles");
    let src = "x\npub(crate) async unsafe extern \"C\" fn f() {}\n";
    assert_eq!(find_sig_line_near(src, 0, &re), Some(1));
    assert_eq!(find_sig_line_near("pubfn x", 0, &re), None);
}

#[test]
fn forward_window_is_twenty_lines_and_backward_five() {
    let re = re_struct().expect("compiles");
    let mut src = String::new();
    for _ in 0..20 {
        src.push_str("x\n");
    }
    src.push_str("struct A;\n");
    assert_eq!(find_sig_line_near(&src, 0, &re), None);
    assert_eq!(find_sig_line_near(&src, 1, &re), Some(20));
    let above = "struct A;\nx\nx\nx\nx\nx\nx\n";
    assert_eq!(find_sig_line_near(above, 5, &re), Some(0));
    assert_eq!(find_sig_line_near(above, 6, &re), None);
}
