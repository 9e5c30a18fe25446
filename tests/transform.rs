use cargo_docgen::config::Config;
use cargo_docgen::example::Example;
use cargo_docgen::scan::Directives;

const ALLOW: &str = "#![allow(unused_variables)]\n#![allow(unused_assignments)]\n#![allow(unused_mut)]\n#![allow(unused_attributes)]\n#![allow(dead_code)]\n#![allow(unreachable_code)]\n";

fn config(question: bool, no_run: bool, module: bool) -> Config {
    Config::new("mylib".to_string(), "    ".to_string(), module, false, question, no_run, false)
}

#[test]
fn plain_snippet_goes_into_main_with_crate_reference() {
    let ex = Example::new(&config(false, false, false), "let x = 1;\nprintln!(\"{}\", x);");
    let expected = format!(
        "{}extern crate mylib;\nfn main() {{\nlet x = 1;\nprintln!(\"{{}}\", x);\n}}\n",
        ALLOW
    );
    assert_eq!(ex.example, expected);
    assert_eq!(ex.code, "let x = 1;\nprintln!(\"{}\", x);\n");
    assert_eq!(ex.before, "");
    assert_eq!(ex.after, "");
    assert_eq!(ex.example.matches("extern crate").count(), 1);
}

#[test]
fn snippet_with_own_crate_reference_gets_no_other() {
    let ex = Example::new(&config(false, false, false), "extern crate foo;\nfoo::bar();\n");
    assert_eq!(ex.example.matches("extern crate").count(), 1);
    assert!(ex.example.contains("extern crate foo;\n"));
    assert!(!ex.example.contains("mylib"));
}

#[test]
fn crate_attributes_move_to_the_top() {
    let ex = Example::new(&config(false, false, false), "let a = 2;\n#![feature(x)]\nlet b = a;\n");
    assert!(ex.example.starts_with("#![feature(x)]\n#![allow(unused_variables)]\n"));
    assert_eq!(ex.code, "let a = 2;\nlet b = a;\n");
}

#[test]
fn fallible_style_wraps_body_in_run() {
    let ex = Example::new(&config(true, false, false), "let x = 1;");
    let before = "fn run() -> std::result::Result<(), Box<dyn std::error::Error>> {\n";
    let after = "Ok(())\n}\n\nfn main() {\n   run().unwrap();\n}";
    assert_eq!(ex.before, before);
    assert_eq!(ex.after, after);
    assert!(!ex.before.is_empty() && !ex.after.is_empty());
    let expected = format!("{}extern crate mylib;\n{}let x = 1;\n{}", ALLOW, before, after);
    assert_eq!(ex.example, expected);
}

#[test]
fn block_flags_override_config() {
    let cfg = config(false, false, true);
    let ex = Example::build(&cfg, "f();\n", Directives { question: true, no_run: true });
    assert!(ex.no_run);
    assert!(ex.example.contains("run().unwrap()"));
    let plain = Example::new(&cfg, "f();\n");
    assert!(!plain.no_run);
    assert!(plain.example.contains("fn main() {\nf();\n}\n"));
}

#[test]
fn format_item_comment() {
    let ex = Example::new(&config(false, false, false), "let x = 1;\n");
    assert_eq!(ex.format(), "    /// ```\n    /// let x = 1;\n    /// ```\n");
}

#[test]
fn format_hides_scaffolding_and_marks_no_run() {
    let ex = Example::new(&config(true, true, true), "f()?;\n");
    let expected = "//! ```rust,no_run\n\
//! # fn run() -> std::result::Result<(), Box<dyn std::error::Error>> {\n\
//! f()?;\n\
//! # Ok(())\n\
//! # }\n\
//! # \n\
//! # fn main() {\n\
//! #    run().unwrap();\n\
//! # }\n\
//! ```\n";
    assert_eq!(ex.format(), expected);
}
