use vstd::prelude::*;
use vstd::string::StringExecFns;

use crate::config::Config;
use crate::scan::Directives;
use crate::util::{
    append_indented, chars_of, find_chars, find_from, indented, line_len, line_text, push_char,
    push_range,
};

verus! {

/// A snippet made into a program that can be built on its own.
pub struct Example {
    /// The snippet's lines, crate attributes taken out.
    pub code: String,
    /// The whole program.
    pub example: String,
    /// What stands before the snippet in the program, hidden in the docs.
    pub before: String,
    /// What stands after the snippet in the program, hidden in the docs.
    pub after: String,
    /// The comment marker of the output.
    pub comment: String,
    /// The example is compiled but not run.
    pub no_run: bool,
}

/// A crate attribute, which has to stand at the top of a program.
pub open spec fn is_crate_attr(l: Seq<char>) -> bool {
    l.len() >= 3 && l.subrange(0, 3) == "#!["@
}

/// From position `i` on, the lines of `t` that are crate attributes (`attrs`)
/// or those that are not, each followed by a newline.
pub open spec fn lines_where_from(t: Seq<char>, i: int, attrs: bool) -> Seq<char>
    decreases t.len() - i,
{
    if i < 0 || i >= t.len() {
        Seq::empty()
    } else {
        let l = line_text(t, i);
        let j = i + line_len(t, i) + 1;
        (if is_crate_attr(l) == attrs {
            l.push('\n')
        } else {
            Seq::empty()
        }) + if j < t.len() {
            lines_where_from(t, j, attrs)
        } else {
            Seq::empty()
        }
    }
}

pub open spec fn lines_where(t: Seq<char>, attrs: bool) -> Seq<char> {
    lines_where_from(t, 0, attrs)
}

/// Lints that snippets commonly trip and that do not matter in an example.
pub open spec fn allow_lines() -> Seq<char> {
    "#![allow(unused_variables)]\n#![allow(unused_assignments)]\n#![allow(unused_mut)]\n#![allow(unused_attributes)]\n#![allow(dead_code)]\n#![allow(unreachable_code)]\n"@
}

pub open spec fn has_crate_reference(code: Seq<char>) -> bool {
    find_from(code, "extern crate"@, 0) >= 0
}

/// The line that brings in the crate under test.
pub open spec fn crate_reference(crate_name: Seq<char>) -> Seq<char> {
    "extern crate "@ + crate_name + ";\n"@
}

pub open spec fn before_spec(question: bool) -> Seq<char> {
    if question {
        "fn run() -> std::result::Result<(), Box<dyn std::error::Error>> {\n"@
    } else {
        Seq::empty()
    }
}

pub open spec fn after_spec(question: bool) -> Seq<char> {
    if question {
        "Ok(())\n}\n\nfn main() {\n   run().unwrap();\n}"@
    } else {
        Seq::empty()
    }
}

/// The snippet's lines `code` inside `main`, or inside `run` called from `main`.
pub open spec fn wrapped(question: bool, code: Seq<char>) -> Seq<char> {
    if question {
        before_spec(true) + code + after_spec(true)
    } else {
        "fn main() {\n"@ + code + "}\n"@
    }
}

/// The program made from snippet `src`: its crate attributes, the allowed
/// lints, a reference to the crate unless the snippet has one, and the rest of
/// the snippet inside `main`, or inside `run` called from `main`.
pub open spec fn program_spec(crate_name: Seq<char>, question: bool, src: Seq<char>) -> Seq<char> {
    let code = lines_where(src, false);
    lines_where(src, true) + allow_lines() + (if has_crate_reference(code) {
        Seq::empty()
    } else {
        crate_reference(crate_name)
    }) + wrapped(question, code)
}

/// A snippet as documentation: between code fences, the scaffolding hidden
/// with `#`, every line commented.
pub open spec fn format_spec(
    comment: Seq<char>,
    no_run: bool,
    before: Seq<char>,
    code: Seq<char>,
    after: Seq<char>,
) -> Seq<char> {
    let hidden = comment + " #"@;
    comment + " ```"@ + (if no_run {
        "rust,no_run"@
    } else {
        Seq::empty()
    }) + "\n"@ + indented(before, hidden) + indented(code, comment) + indented(after, hidden) + comment
        + " ```\n"@
}

proof fn lemma_lines_where_step(t: Seq<char>, i: int, attrs: bool)
    requires
        0 <= i < t.len(),
    ensures
        ({
            let e = i + line_len(t, i);
            let next = if e < t.len() { e + 1 } else { t.len() as int };
            let l = line_text(t, i);
            lines_where_from(t, i, attrs) == (if is_crate_attr(l) == attrs {
                l.push('\n')
            } else {
                Seq::empty()
            }) + lines_where_from(t, next, attrs)
        }),
{
    assert(lines_where_from(t, t.len() as int, attrs) == Seq::<char>::empty());
    let e = i + line_len(t, i);
    let l = line_text(t, i);
    let next = if e < t.len() { e + 1 } else { t.len() as int };
    assert(lines_where_from(t, i, attrs) =~= (if is_crate_attr(l) == attrs {
        l.push('\n')
    } else {
        Seq::empty()
    }) + lines_where_from(t, next, attrs));
}

/// Parts a snippet into its crate attribute lines and its other lines, each
/// line followed by a newline.
fn split_attributes(src: &str) -> (r: (String, String))
    ensures
        r.0@ == lines_where(src@, true),
        r.1@ == lines_where(src@, false),
{
    let t = chars_of(src);
    let n = t.len();
    let mut attrs = String::new();
    let mut rest = String::new();
    let mut i: usize = 0;
    proof {
        reveal_strlit("#![");
    }
    while i < n
        invariant
            t@ == src@,
            n == t@.len(),
            i <= n,
            "#!["@ == seq!['#', '!', '['],
            lines_where(t@, true) == attrs@ + lines_where_from(t@, i as int, true),
            lines_where(t@, false) == rest@ + lines_where_from(t@, i as int, false),
        decreases n - i,
    {
        let mut e: usize = i;
        while e < n && t[e] != '\n'
            invariant
                n == t@.len(),
                i <= e <= n,
                line_len(t@, i as int) == (e - i) + line_len(t@, e as int),
            decreases n - e,
        {
            e = e + 1;
        }
        assert(e == i + line_len(t@, i as int));
        let stop = if e < n && e > i && t[e - 1] == '\r' { e - 1 } else { e };
        let ghost l = line_text(t@, i as int);
        assert(t@.subrange(i as int, stop as int) == l);
        let is_attr = stop - i >= 3 && t[i] == '#' && t[i + 1] == '!' && t[i + 2] == '[';
        assert(is_attr == is_crate_attr(l)) by {
            if stop - i >= 3 {
                assert(l.subrange(0, 3) =~= seq![t@[i as int], t@[i + 1], t@[i + 2]]);
            }
        }
        let ghost a0 = attrs@;
        let ghost r0 = rest@;
        if is_attr {
            push_range(&mut attrs, &t, i, stop);
            push_char(&mut attrs, '\n');
        } else {
            push_range(&mut rest, &t, i, stop);
            push_char(&mut rest, '\n');
        }
        let next = if e < n { e + 1 } else { n };
        proof {
            lemma_lines_where_step(t@, i as int, true);
            lemma_lines_where_step(t@, i as int, false);
            if is_attr {
                assert(attrs@ =~= a0 + l.push('\n'));
                assert(rest@ =~= r0 + Seq::empty());
            } else {
                assert(rest@ =~= r0 + l.push('\n'));
                assert(attrs@ =~= a0 + Seq::empty());
            }
        }
        i = next;
    }
    (attrs, rest)
}

impl Example {
    /// The program for `code` under the flags of `config`.
    pub fn new(config: &Config, code: &str) -> (r: Example)
        ensures
            r.code@ == lines_where(code@, false),
            r.before@ == before_spec(config.question),
            r.after@ == after_spec(config.question),
            r.example@ == program_spec(config.crate_name@, config.question, code@),
            r.comment@ == config.comment@,
            r.no_run == config.no_run,
    {
        Example::build(config, code, Directives { question: config.question, no_run: config.no_run })
    }

    /// The program for `code` under `config`, with the block's own flags in
    /// place of those of `config`.
    pub fn build(config: &Config, code: &str, flags: Directives) -> (r: Example)
        ensures
            r.code@ == lines_where(code@, false),
            r.before@ == before_spec(flags.question),
            r.after@ == after_spec(flags.question),
            r.example@ == program_spec(config.crate_name@, flags.question, code@),
            r.comment@ == config.comment@,
            r.no_run == flags.no_run,
    {
        let (mut template, body) = split_attributes(code);
        template.append("#![allow(unused_variables)]\n#![allow(unused_assignments)]\n#![allow(unused_mut)]\n#![allow(unused_attributes)]\n#![allow(dead_code)]\n#![allow(unreachable_code)]\n");
        let body_chars = chars_of(body.as_str());
        let pattern = chars_of("extern crate");
        if find_chars(&body_chars, &pattern, 0).is_none() {
            template.append("extern crate ");
            template.append(config.crate_name.as_str());
            template.append(";\n");
        }
        let mut before = String::new();
        let mut after = String::new();
        if !flags.question {
            template.append("fn main() {\n");
            template.append(body.as_str());
            template.append("}\n");
        } else {
            before.append("fn run() -> std::result::Result<(), Box<dyn std::error::Error>> {\n");
            template.append(before.as_str());
            template.append(body.as_str());
            after.append("Ok(())\n}\n\nfn main() {\n   run().unwrap();\n}");
            template.append(after.as_str());
        }
        assert(template@ =~= program_spec(config.crate_name@, flags.question, code@));
        Example {
            code: body,
            example: template,
            before,
            after,
            comment: config.comment.clone(),
            no_run: flags.no_run,
        }
    }

    /// The snippet as documentation, ready to paste: fenced, marked `no_run`
    /// where it is only compiled, with the scaffolding as hidden lines.
    pub fn format(&self) -> (r: String)
        ensures
            r@ == format_spec(self.comment@, self.no_run, self.before@, self.code@, self.after@),
    {
        let comment = self.comment.as_str();
        let mut hidden = String::new();
        hidden.append(comment);
        hidden.append(" #");
        let mut snippet = String::new();
        snippet.append(comment);
        snippet.append(" ```");
        if self.no_run {
            snippet.append("rust,no_run");
        }
        snippet.append("\n");
        append_indented(&mut snippet, self.before.as_str(), hidden.as_str());
        append_indented(&mut snippet, self.code.as_str(), comment);
        append_indented(&mut snippet, self.after.as_str(), hidden.as_str());
        snippet.append(comment);
        snippet.append(" ```\n");
        assert(snippet@ =~= format_spec(
            self.comment@,
            self.no_run,
            self.before@,
            self.code@,
            self.after@,
        ));
        snippet
    }
}

/// A snippet that refers to a crate itself gets no second reference; any other
/// snippet gets one reference, to the configured crate, after the lints.
pub proof fn lemma_crate_reference(crate_name: Seq<char>, question: bool, src: Seq<char>)
    ensures
        has_crate_reference(lines_where(src, false)) ==> program_spec(crate_name, question, src)
            == lines_where(src, true) + allow_lines() + wrapped(question, lines_where(src, false)),
        !has_crate_reference(lines_where(src, false)) ==> program_spec(crate_name, question, src)
            == lines_where(src, true) + allow_lines() + crate_reference(crate_name) + wrapped(
            question,
            lines_where(src, false),
        ),
{
    let code = lines_where(src, false);
    if has_crate_reference(code) {
        assert(lines_where(src, true) + allow_lines() + Seq::<char>::empty() =~= lines_where(
            src,
            true,
        ) + allow_lines());
    }
}

/// With the fallible style the snippet's lines stand inside `run`, which
/// `main` calls and unwraps; the scaffolding before and after them is not
/// empty.
pub proof fn lemma_fallible_wrapper(crate_name: Seq<char>, src: Seq<char>)
    ensures
        before_spec(true).len() > 0,
        after_spec(true).len() > 0,
        program_spec(crate_name, true, src) == lines_where(src, true) + allow_lines() + (if has_crate_reference(
            lines_where(src, false),
        ) {
            Seq::empty()
        } else {
            crate_reference(crate_name)
        }) + before_spec(true) + lines_where(src, false) + after_spec(true),
{
    reveal_strlit("fn run() -> std::result::Result<(), Box<dyn std::error::Error>> {\n");
    reveal_strlit("Ok(())\n}\n\nfn main() {\n   run().unwrap();\n}");
    let pre = lines_where(src, true) + allow_lines() + (if has_crate_reference(
        lines_where(src, false),
    ) {
        Seq::empty()
    } else {
        crate_reference(crate_name)
    });
    assert(pre + (before_spec(true) + lines_where(src, false) + after_spec(true)) =~= pre
        + before_spec(true) + lines_where(src, false) + after_spec(true));
}

} // verus!
