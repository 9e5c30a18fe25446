//! Turns documentation snippets into programs that cargo can build and run,
//! and back into commented, fenced documentation.
//!
//! - `scan` splits a Markdown document into text and code blocks with their
//!   flags.
//! - `example` makes a snippet into a program and formats it as documentation.
//! - `cache` keeps the bodies already run for a document.
//! - `document` plans a whole run over a document.
//! - `util` holds the line formatter and the text helpers.
pub mod cache;
pub mod config;
pub mod document;
pub mod example;
pub mod scan;
pub mod util;
