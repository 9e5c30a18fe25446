use cargo_docgen::config::Config;
use cargo_docgen::document::{plan, Plan, Step};
use cargo_docgen::scan::ScanError;

fn config() -> Config {
    Config::new("mylib".to_string(), "".to_string(), false, false, false, false, true)
}

fn outputs(p: &Plan) -> Vec<String> {
    p.steps
        .iter()
        .map(|s| match s {
            Step::Text(t) => t.clone(),
            Step::Block(b) => b.snippet.clone(),
        })
        .collect()
}

fn executions(p: &Plan) -> Vec<usize> {
    p.steps
        .iter()
        .filter_map(|s| match s {
            Step::Block(b) if b.execute => Some(b.ordinal),
            _ => None,
        })
        .collect()
}

#[test]
fn end_to_end_with_empty_cache() {
    let p = plan(&config(), "before\n```rust?\nfoo();\n```\nafter\n", Vec::new()).unwrap();
    assert_eq!(p.steps.len(), 3);
    match &p.steps[0] {
        Step::Text(t) => assert_eq!(t, "//! before\n"),
        _ => panic!("expected text"),
    }
    match &p.steps[1] {
        Step::Block(b) => {
            assert_eq!(b.ordinal, 1);
            assert!(b.execute);
            assert_eq!(b.example.code, "foo();\n");
            assert!(b.example.example.contains("fn run()"));
            assert!(!b.example.no_run);
            assert!(b.snippet.starts_with("//! ```\n//! # fn run()"));
        }
        _ => panic!("expected a block"),
    }
    match &p.steps[2] {
        Step::Text(t) => assert_eq!(t, "//! after\n"),
        _ => panic!("expected text"),
    }
    assert_eq!(p.cache, vec!["foo();\n".to_string()]);
}

#[test]
fn second_run_executes_nothing_and_prints_the_same() {
    let doc = "a\n```rust\nx();\n```\nb\n```rustn\ny();\n```\n```rust\nx();\n```\n";
    let first = plan(&config(), doc, vec!["old\n".to_string()]).unwrap();
    assert_eq!(executions(&first), vec![1, 2]);
    assert_eq!(first.cache, vec!["old\n".to_string(), "x();\n".to_string(), "y();\n".to_string()]);
    let second = plan(&config(), doc, first.cache.clone()).unwrap();
    assert!(executions(&second).is_empty());
    assert_eq!(outputs(&second), outputs(&first));
    assert_eq!(second.cache, first.cache);
}

#[test]
fn ordinals_count_every_block() {
    let doc = "```rust\na();\n```\n```rust\na();\n```\n```rust?n\nb();\n```\n";
    let p = plan(&config(), doc, Vec::new()).unwrap();
    let ords: Vec<usize> = p
        .steps
        .iter()
        .filter_map(|s| match s {
            Step::Block(b) => Some(b.ordinal),
            _ => None,
        })
        .collect();
    assert_eq!(ords, vec![1, 2, 3]);
    assert_eq!(executions(&p), vec![1, 3]);
    match &p.steps[5] {
        Step::Block(b) => {
            assert!(b.example.no_run);
            assert!(b.snippet.starts_with("//! ```rust,no_run\n"));
        }
        _ => panic!("expected a block"),
    }
}

#[test]
fn malformed_document_gives_no_plan() {
    assert!(matches!(
        plan(&config(), "```rust\nnever closed\n", Vec::new()),
        Err(ScanError::Unterminated)
    ));
}
