use awful_rustdocs::harvest::{nushell_call, shell_escape, shell_escape_lossy_path};
use std::path::Path;

#[test]
fn test_shell_escape_keeps_safe_ascii_alnum_and_allowed_punct() {
    let input = "abcXYZ012/_-.";
    let out = shell_escape(input);
    assert_eq!(out, input, "Expected safe string to be unchanged.\nINPUT:\n{}\nOUTPUT:\n{}\n", input, out);
}

#[test]
fn test_shell_escape_quotes_and_spaces() {
    let input = "hello world's file.txt";
    let out = shell_escape(input);
    let expected = "'hello world'\\''s file.txt'";
    assert_eq!(out, expected, "Expected spaces and single quotes to be safely escaped.");
}

#[test]
fn test_shell_escape_non_ascii_gets_quoted() {
    let input = "résumé.pdf";
    let out = shell_escape(input);
    assert!(out.starts_with('\'') && out.ends_with('\''), "Non-ASCII should trigger full quoting.\nINPUT:\n{}\nOUTPUT:\n{}\n", input, out);
}

#[test]
fn test_shell_escape_mixed_symbols_gets_quoted() {
    let input = "weird$(stuff)`here";
    let out = shell_escape(input);
    assert!(out.starts_with('\'') && out.ends_with('\''), "Shell metacharacters should trigger quoting.\nINPUT:\n{}\nOUTPUT:\n{}\n", input, out);
}

#[test]
fn test_shell_escape_lossy_path_simple() {
    let p = Path::new("/tmp/myfile");
    let out = shell_escape_lossy_path(p);
    assert_eq!(out, "/tmp/myfile", "Expected simple path to remain unquoted.");
}

#[test]
fn test_shell_escape_lossy_path_with_space_and_quote() {
    let p = Path::new("/tmp/dir with 'quote'");
    let out = shell_escape_lossy_path(p);
    let expected = "'/tmp/dir with '\\''quote'\\'''";
    assert_eq!(out, expected, "Expected path with spaces and quotes to be safely escaped.");
}

#[test]
fn shell_escape_empty_string_stays_empty() {
    assert_eq!(shell_escape(""), "");
    assert_eq!(shell_escape("'"), "''\\'''");
}

#[test]
fn nushell_call_quotes_script_and_targets() {
    assert_eq!(nushell_call("rust_ast.nu", &[]), "source rust_ast.nu; let rows = (rust-ast .); $rows | to json");
    let targets = vec!["src".to_string(), "my dir".to_string()];
    assert_eq!(
        nushell_call("/x/s.nu", &targets),
        "source /x/s.nu; let rows = (rust-ast src 'my dir'); $rows | to json"
    );
}
