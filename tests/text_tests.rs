use assert_json_diff::Indent;

#[test]
fn test_indent() {
    assert_eq!("  foo", "foo".indent(2));
    assert_eq!("  foo\n  bar", "foo\nbar".indent(2));
}

#[test]
fn indent_handles_line_endings() {
    assert_eq!("".indent(4), "");
    assert_eq!("a\n".indent(1), " a");
    assert_eq!("a\r\nb".indent(1), " a\n b");
    assert_eq!("a\n\nb".indent(2), "  a\n  \n  b");
    assert_eq!("\n".indent(1), " ");
    assert_eq!("x".indent(0), "x");
}
