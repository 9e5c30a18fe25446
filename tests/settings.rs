use cargo_docgen::config::{get_indent, Config};

#[test]
fn item_comment_carries_indent() {
    let c = Config::new("k".to_string(), "  ".to_string(), false, false, false, false, false);
    assert_eq!(c.comment, "  ///");
    assert!(!c.module);
}

#[test]
fn markdown_implies_module_comments() {
    let c = Config::new("k".to_string(), "  ".to_string(), false, false, false, false, true);
    assert!(c.module_doc);
    assert!(c.module);
    assert_eq!(c.comment, "//!");
    let d = Config::new("k".to_string(), "  ".to_string(), false, true, false, false, false);
    assert!(d.module);
    assert_eq!(d.comment, "//!");
}

#[test]
fn indent_settings() {
    assert_eq!(get_indent("4"), Some("    ".to_string()));
    assert_eq!(get_indent("0"), Some("".to_string()));
    assert_eq!(get_indent("2t"), Some("\t\t".to_string()));
    assert_eq!(get_indent("+1"), Some(" ".to_string()));
}

#[test]
fn bad_indent_settings() {
    assert_eq!(get_indent(""), None);
    assert_eq!(get_indent("t"), None);
    assert_eq!(get_indent("x"), None);
    assert_eq!(get_indent("+"), None);
    assert_eq!(get_indent("-1"), None);
    assert_eq!(get_indent("4294967296"), None);
    assert_eq!(get_indent("99999999999999999999t"), None);
}
