use vstd::prelude::*;
use vstd::string::StringExecFns;

use crate::util::{chars_of, push_char};

verus! {

/// Settings for one run over a snippet or a document.
pub struct Config {
    /// Module documentation (`//!`) rather than item documentation (`///`).
    pub module: bool,
    /// The input is a Markdown document of examples.
    pub module_doc: bool,
    /// Host snippets in a fallible `run` function.
    pub question: bool,
    /// What goes before an item comment.
    pub indent: String,
    /// The comment marker that starts each output line.
    pub comment: String,
    /// The name the examples use for the library under test.
    pub crate_name: String,
    /// Compile the examples without running them.
    pub no_run: bool,
}

/// The comment marker: `//!` for module documentation, else the indentation
/// and `///`.
pub open spec fn comment_spec(module: bool, indent: Seq<char>) -> Seq<char> {
    if module {
        "//!"@
    } else {
        indent + "///"@
    }
}

impl Config {
    /// Settings from their plain values. A Markdown input implies module
    /// documentation mode, which implies module comments.
    pub fn new(
        crate_name: String,
        indent: String,
        module: bool,
        module_doc: bool,
        question: bool,
        no_run: bool,
        markdown: bool,
    ) -> (r: Config)
        ensures
            r.crate_name@ == crate_name@,
            r.indent@ == indent@,
            r.module_doc == (module_doc || markdown),
            r.module == (module || module_doc || markdown),
            r.question == question,
            r.no_run == no_run,
            r.comment@ == comment_spec(r.module, indent@),
    {
        let mut res = Config {
            module,
            module_doc,
            question,
            indent,
            comment: String::new(),
            crate_name,
            no_run,
        };
        res.set_comment(markdown);
        res
    }

    fn set_comment(&mut self, markdown: bool)
        ensures
            final(self).crate_name == old(self).crate_name,
            final(self).indent == old(self).indent,
            final(self).question == old(self).question,
            final(self).no_run == old(self).no_run,
            final(self).module_doc == (old(self).module_doc || markdown),
            final(self).module == (old(self).module || old(self).module_doc || markdown),
            final(self).comment@ == comment_spec(final(self).module, old(self).indent@),
    {
        if markdown {
            self.module_doc = true;
        }
        if self.module_doc {
            self.module = true;
        }
        let mut comment = String::new();
        if self.module {
            comment.append("//!");
        } else {
            comment.append(self.indent.as_str());
            comment.append("///");
        }
        self.comment = comment;
    }
}

pub open spec fn is_digit(c: char) -> bool {
    '0' <= c <= '9'
}

/// The number that the decimal digits `d` write.
pub open spec fn decimal_value(d: Seq<char>) -> int
    decreases d.len(),
{
    if d.len() == 0 {
        0
    } else {
        decimal_value(d.drop_last()) * 10 + ((d.last() as u32) as int - ('0' as u32) as int)
    }
}

/// The count part of an indentation setting: without a trailing `t`, and
/// without a leading `+`.
pub open spec fn indent_digits(s: Seq<char>) -> Seq<char> {
    let num = if s.len() > 0 && s.last() == 't' { s.drop_last() } else { s };
    if num.len() > 0 && num[0] == '+' { num.drop_first() } else { num }
}

/// An indentation setting is a count that fits in 32 bits, in decimal,
/// followed by `t` for tabs.
pub open spec fn indent_valid(s: Seq<char>) -> bool {
    let d = indent_digits(s);
    &&& d.len() > 0
    &&& forall|i: int| 0 <= i < d.len() ==> is_digit(#[trigger] d[i])
    &&& decimal_value(d) <= u32::MAX
}

/// The indentation a valid setting stands for: the count of tabs, or else of
/// spaces.
pub open spec fn indent_spec(s: Seq<char>) -> Seq<char> {
    let c = if s.len() > 0 && s.last() == 't' { '\t' } else { ' ' };
    Seq::new(decimal_value(indent_digits(s)) as nat, |i: int| c)
}

proof fn lemma_decimal_grows(d: Seq<char>, j: int)
    requires
        0 <= j <= d.len(),
        forall|i: int| 0 <= i < d.len() ==> is_digit(#[trigger] d[i]),
    ensures
        decimal_value(d.take(j)) <= decimal_value(d),
        decimal_value(d.take(j)) >= 0,
    decreases d.len() - j,
{
    if j < d.len() {
        lemma_decimal_grows(d, j + 1);
        assert(d.take(j + 1).drop_last() =~= d.take(j));
        assert(is_digit(d[j]));
    } else {
        assert(d.take(j) =~= d);
    }
    lemma_decimal_nonneg(d);
    lemma_decimal_nonneg(d.take(j));
}

proof fn lemma_decimal_nonneg(d: Seq<char>)
    requires
        forall|i: int| 0 <= i < d.len() ==> is_digit(#[trigger] d[i]),
    ensures
        decimal_value(d) >= 0,
    decreases d.len(),
{
    if d.len() > 0 {
        assert forall|i: int| 0 <= i < d.len() - 1 implies is_digit(#[trigger] d.drop_last()[i]) by {
            assert(d.drop_last()[i] == d[i]);
        }
        lemma_decimal_nonneg(d.drop_last());
        assert(is_digit(d[d.len() - 1]));
    }
}

/// The indentation that a setting such as `4` (four spaces) or `1t` (one tab)
/// stands for, or `None` where the count is not a 32-bit decimal number.
pub fn get_indent(s: &str) -> (r: Option<String>)
    ensures
        match r {
            Some(x) => indent_valid(s@) && x@ == indent_spec(s@),
            None => !indent_valid(s@),
        },
{
    let t = chars_of(s);
    let n = t.len();
    let tabs = n > 0 && t[n - 1] == 't';
    let end = if tabs { n - 1 } else { n };
    let start: usize = if end > 0 && t[0] == '+' { 1 } else { 0 };
    let ghost d = t@.subrange(start as int, end as int);
    assert(d =~= indent_digits(s@));
    if start == end {
        return None;
    }
    let mut value: u64 = 0;
    let mut j: usize = start;
    while j < end
        invariant
            t@ == s@,
            start <= j <= end <= n == t@.len(),
            d == t@.subrange(start as int, end as int),
            d == indent_digits(s@),
            value <= u32::MAX,
            value == decimal_value(d.take(j - start)),
            forall|i: int| 0 <= i < j - start ==> is_digit(#[trigger] d[i]),
        decreases end - j,
    {
        let c = t[j];
        if !('0' <= c && c <= '9') {
            assert(!is_digit(d[j - start]));
            return None;
        }
        assert(d.take(j + 1 - start).drop_last() =~= d.take(j - start));
        assert(d.take(j + 1 - start).last() == c);
        value = value * 10 + (c as u64 - '0' as u64);
        assert(value == decimal_value(d.take(j + 1 - start)));
        if value > 4294967295 {
            proof {
                assert forall|i: int| 0 <= i < j + 1 - start implies is_digit(
                    #[trigger] d.take(j + 1 - start)[i],
                ) by {
                    if i < j - start {
                        assert(d.take(j + 1 - start)[i] == d[i]);
                    }
                }
                if forall|i: int| 0 <= i < d.len() ==> is_digit(#[trigger] d[i]) {
                    lemma_decimal_grows(d, j + 1 - start);
                }
            }
            return None;
        }
        j = j + 1;
    }
    assert(d.take(end - start) =~= d);
    let c = if tabs { '\t' } else { ' ' };
    let mut out = String::new();
    let mut k: u64 = 0;
    while k < value
        invariant
            k <= value,
            out@ == Seq::new(k as nat, |i: int| c),
        decreases value - k,
    {
        push_char(&mut out, c);
        assert(out@ =~= Seq::new((k + 1) as nat, |i: int| c));
        k = k + 1;
    }
    Some(out)
}

} // verus!
