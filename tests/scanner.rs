use cargo_docgen::scan::{scan, Directives, ScanError, Segment};

fn text(s: &Segment) -> &str {
    match s {
        Segment::Passthrough(t) => t.as_str(),
        Segment::CodeBlock(_, _) => panic!("expected text"),
    }
}

fn code(s: &Segment) -> (&str, Directives) {
    match s {
        Segment::CodeBlock(b, d) => (b.as_str(), *d),
        Segment::Passthrough(_) => panic!("expected a code block"),
    }
}

fn rejoin(segs: &[Segment]) -> String {
    let mut out = String::new();
    for s in segs {
        match s {
            Segment::Passthrough(t) => out.push_str(t),
            Segment::CodeBlock(b, d) => {
                out.push_str("```rust");
                if d.question {
                    out.push('?');
                }
                if d.no_run {
                    out.push('n');
                }
                out.push('\n');
                out.push_str(b);
                out.push_str("```\n");
            }
        }
    }
    out
}

#[test]
fn document_without_fences_is_one_text_segment() {
    let doc = "# Title\n\nSome prose, and `inline` code.\n```\nnot rust\n```\n";
    let segs = scan(doc).unwrap();
    assert_eq!(segs.len(), 1);
    assert_eq!(text(&segs[0]), doc);
}

#[test]
fn empty_document_is_one_empty_text_segment() {
    let segs = scan("").unwrap();
    assert_eq!(segs.len(), 1);
    assert_eq!(text(&segs[0]), "");
}

#[test]
fn question_block_between_text() {
    let segs = scan("before\n```rust?\nfoo();\n```\nafter\n").unwrap();
    assert_eq!(segs.len(), 3);
    assert_eq!(text(&segs[0]), "before\n");
    assert_eq!(code(&segs[1]), ("foo();\n", Directives { question: true, no_run: false }));
    assert_eq!(text(&segs[2]), "after\n");
}

#[test]
fn no_run_flag_alone() {
    let segs = scan("```rustn\nlet a = 1;\n```\n").unwrap();
    assert_eq!(code(&segs[1]), ("let a = 1;\n", Directives { question: false, no_run: true }));
}

#[test]
fn both_flags_apply_together() {
    let segs = scan("```rust?n\nx()?;\n```\n").unwrap();
    assert_eq!(code(&segs[1]), ("x()?;\n", Directives { question: true, no_run: true }));
}

#[test]
fn plain_block_has_no_flags() {
    let segs = scan("a\n```rust\nb\n```\nc\n```rust\nd\n```\n").unwrap();
    assert_eq!(segs.len(), 5);
    assert_eq!(code(&segs[1]), ("b\n", Directives { question: false, no_run: false }));
    assert_eq!(text(&segs[2]), "c\n");
    assert_eq!(code(&segs[3]), ("d\n", Directives { question: false, no_run: false }));
    assert_eq!(text(&segs[4]), "");
}

#[test]
fn unterminated_block_is_an_error() {
    assert!(matches!(scan("text\n```rust\nfoo();\n"), Err(ScanError::Unterminated)));
}

#[test]
fn fence_line_without_newline_is_an_error() {
    assert!(matches!(scan("```rusty\nfoo();\n```\n"), Err(ScanError::MissingNewline)));
    assert!(matches!(scan("```rust"), Err(ScanError::MissingNewline)));
}

#[test]
fn rejoining_segments_gives_the_document() {
    let doc = "intro\n```rust?n\nlet x = 1;\n```\nmiddle ü\n```rust\n```\ntail";
    let segs = scan(doc).unwrap();
    assert_eq!(rejoin(&segs), doc);
}
