use cargo_docgen::cache;
use cargo_docgen::cache::{contains, read, record, SEPARATOR};

#[test]
fn read_splits_and_drops_the_last_piece() {
    let v = read("a();\n---\nb();\nc();\n---\n", SEPARATOR);
    assert_eq!(v, vec!["a();\n".to_string(), "b();\nc();\n".to_string()]);
}

#[test]
fn read_of_empty_text_is_empty() {
    assert!(read("", SEPARATOR).is_empty());
}

#[test]
fn read_without_trailing_separator_drops_the_tail() {
    assert_eq!(read("x\n---\ny", SEPARATOR), vec!["x\n".to_string()]);
}

#[test]
fn write_puts_separator_after_each_entry() {
    let c = vec!["a\n".to_string(), "".to_string(), "b-\n".to_string()];
    assert_eq!(cache::write(&c, SEPARATOR), "a\n---\n---\nb-\n---\n");
    assert_eq!(cache::write(&Vec::new(), SEPARATOR), "");
}

#[test]
fn write_then_read_round_trips() {
    let c = vec![
        "let x = 1;\n".to_string(),
        "".to_string(),
        "a--\n--\n".to_string(),
        "ünï\r\n".to_string(),
    ];
    assert_eq!(read(&cache::write(&c, SEPARATOR), SEPARATOR), c);
}

#[test]
fn contains_is_exact_and_record_appends() {
    let mut c = vec!["f();\n".to_string()];
    assert!(contains(&c, "f();\n"));
    assert!(!contains(&c, "f();"));
    record(&mut c, "g();\n");
    assert_eq!(c, vec!["f();\n".to_string(), "g();\n".to_string()]);
    assert!(contains(&c, "g();\n"));
}
