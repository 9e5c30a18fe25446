use cargo_docgen::util::{append_indented, findstr};

#[test]
fn indent_each_line() {
    let mut s = String::from(">");
    append_indented(&mut s, "a\nb", "//");
    assert_eq!(s, ">// a\n// b\n");
}

#[test]
fn indent_empty_text_adds_nothing() {
    let mut s = String::new();
    append_indented(&mut s, "", "//!");
    assert_eq!(s, "");
}

#[test]
fn indent_keeps_empty_lines_and_drops_carriage_returns() {
    let mut s = String::new();
    append_indented(&mut s, "x\r\n\ny\n", "///");
    assert_eq!(s, "/// x\n/// \n/// y\n");
}

#[test]
fn findstr_gives_byte_positions() {
    assert_eq!(findstr("héllo wörld", "wö"), Some((7, 10)));
    assert_eq!(findstr("abcabc", "ca"), Some((2, 4)));
    assert_eq!(findstr("abc", "x"), None);
    assert_eq!(findstr("ab", "abc"), None);
    assert_eq!(findstr("abc", ""), Some((0, 0)));
}
