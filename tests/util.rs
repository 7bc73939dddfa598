use awful_rustdocs::util::{extract_lines, extract_struct_fields_in_file, find_struct_body_block};

fn with_line_numbers(s: &str) -> String {
    s.lines()
        .enumerate()
        .map(|(i, line)| format!("{:>3}: {}", i, line))
        .collect::<Vec<_>>()
        .join("\n")
}

fn make_struct_src(body_lines: &[&str]) -> (String, (usize, usize)) {
    let mut src = String::new();
    src.push_str("mod m {}\n");
    src.push_str("\n");
    src.push_str("pub struct Example \n");
    src.push_str("{\n");
    for l in body_lines {
        src.push_str(l);
        src.push('\n');
    }
    src.push_str("}\n");
    let body = find_struct_body_block(&src, 2).expect("body block not found");
    (src, body)
}

#[test]
fn test_extract_lines_basic_ranges() {
    let src = "a\nb\nc\nd\ne";
    assert_eq!(extract_lines(src, 0, 0), "a", "single line (0..=0)");
    assert_eq!(extract_lines(src, 1, 3), "b\nc\nd", "middle range (1..=3)");
    assert_eq!(extract_lines(src, 4, 4), "e", "last line (4..=4)");
    assert_eq!(extract_lines(src, 3, 1), "", "invalid range (3..=1) should be empty");
    assert_eq!(extract_lines(src, 2, 99), "c\nd\ne", "hi beyond bounds should clamp");
}

#[test]
fn test_find_struct_body_block_simple() {
    let (src, (lo, hi)) = make_struct_src(&["x: i32,", "y: String,"]);
    let lines: Vec<_> = src.lines().collect();
    assert_eq!(lines[lo].trim(), "{", "body must start at the line containing the opening brace\nFULL SOURCE:\n{}", with_line_numbers(&src));
    assert_eq!(lines[hi].trim(), "}", "body must end at the line containing the closing brace\nFULL SOURCE:\n{}", with_line_numbers(&src));
    assert_eq!(hi - lo - 1, 2, "expected 2 body lines between braces");
}

#[test]
fn test_extract_struct_fields_simple_two_fields() {
    let (src, (lo, hi)) = make_struct_src(&["name: String,", "age: u32,"]);
    let fields = extract_struct_fields_in_file(&src, lo, hi, "crate::Example");
    assert_eq!(fields.len(), 2, "expected two fields\nFULL SOURCE:\n{}", with_line_numbers(&src));
    assert_eq!(fields[0].name, "name", "first field should be `name`");
    assert!(fields[0].field_line_text.contains("name: String"), "field line text should contain the declaration; got:\n{}", fields[0].field_line_text);
    assert_eq!(fields[0].insert_line0, fields[0].field_line0, "with no attributes, insert_line0 should equal field_line0");
    assert_eq!(fields[1].name, "age", "second field should be `age`");
    assert!(fields[1].field_line_text.contains("age: u32"), "field line text should contain the declaration; got:\n{}", fields[1].field_line_text);
    assert_eq!(fields[1].insert_line0, fields[1].field_line0, "with no attributes, insert_line0 should equal field_line0");
    for f in &fields {
        assert_eq!(f.parent_fqpath, "crate::Example", "parent_fqpath should be threaded through");
    }
}

#[test]
fn test_extract_struct_fields_with_attributes_groups_to_attr_top() {
    let (src, (lo, hi)) = make_struct_src(&[
        r#"#[serde(rename = "n")]"#,
        "pub name: String,",
        r#"#[doc = "age in years"]"#,
        "pub age: u32,",
    ]);
    let fields = extract_struct_fields_in_file(&src, lo, hi, "crate::Example");
    assert_eq!(fields.len(), 2, "expected two fields with attributes\nFULL SOURCE:\n{}", with_line_numbers(&src));
    let lines: Vec<&str> = src.lines().collect();
    let attr_name_top = lines.iter().position(|l| l.trim() == r#"#[serde(rename = "n")]"#).expect("missing name attribute");
    let name_line = lines.iter().position(|l| l.trim() == "pub name: String,").expect("missing name line");
    let attr_age_top = lines.iter().position(|l| l.trim() == r#"#[doc = "age in years"]"#).expect("missing age attribute");
    let age_line = lines.iter().position(|l| l.trim() == "pub age: u32,").expect("missing age line");
    assert_eq!(fields[0].name, "name");
    assert_eq!(fields[0].field_line0, name_line);
    assert_eq!(fields[0].insert_line0, attr_name_top, "insert_line0 should be at the top of the attribute block for `name`");
    assert_eq!(fields[1].name, "age");
    assert_eq!(fields[1].field_line0, age_line);
    assert_eq!(fields[1].insert_line0, attr_age_top, "insert_line0 should be at the top of the attribute block for `age`");
}

#[test]
fn test_extract_struct_fields_handles_pub_and_raw_identifiers() {
    let (src, (lo, hi)) = make_struct_src(&["pub(crate) id: u64,", "r#type: String,", "pub r#match: bool,"]);
    let fields = extract_struct_fields_in_file(&src, lo, hi, "crate::Example");
    let names: Vec<_> = fields.iter().map(|f| f.name.as_str()).collect();
    assert_eq!(names, vec!["id", "type", "match"], "should normalize identifiers and ignore visibility/raw prefixes\nFULL SOURCE:\n{}", with_line_numbers(&src));
}

#[test]
fn test_extract_struct_fields_respects_body_bounds() {
    let (mut src, (lo, hi)) = make_struct_src(&["a: i32,", "b: i32,"]);
    src.push_str("c: i32,\n");
    let fields = extract_struct_fields_in_file(&src, lo, hi, "crate::Example");
    let names: Vec<_> = fields.iter().map(|f| f.name.as_str()).collect();
    assert_eq!(names, vec!["a", "b"], "must ignore lines after the struct body\nFULL SOURCE:\n{}", with_line_numbers(&src));
    assert!(!names.contains(&"c"), "`c` should be ignored as it's outside the body");
}

#[test]
fn test_find_struct_body_block_nested_braces_in_body_lines() {
    let (src, (lo, hi)) = make_struct_src(&[
        "a: i32,",
        r#"// pretend { nested } braces in a comment"#,
        r#"b: std::borrow::Cow<'static, str>,"#,
    ]);
    let lines: Vec<_> = src.lines().collect();
    assert_eq!(lines[lo].trim(), "{", "body must start at opening brace\nFULL SOURCE:\n{}", with_line_numbers(&src));
    assert_eq!(lines[hi].trim(), "}", "body must end at closing brace\nFULL SOURCE:\n{}", with_line_numbers(&src));
    assert_eq!(hi - lo - 1, 3, "expected exactly three lines in the body\nFULL SOURCE:\n{}", with_line_numbers(&src));
}

// ---------- further cases ----------

#[test]
fn find_struct_body_block_without_braces_or_close() {
    assert_eq!(find_struct_body_block("struct S;\n", 0), None);
    assert_eq!(find_struct_body_block("struct S {\n a: u8,\n", 0), None);
    assert_eq!(find_struct_body_block("struct S { a: u8 }\n}\n", 0), Some((0, 1)));
}

#[test]
fn extract_lines_of_empty_text() {
    assert_eq!(extract_lines("", 0, 3), "");
}
