use vstd::prelude::*;

use crate::cache::{contains, record, texts};
use crate::config::Config;
use crate::example::{
    after_spec, before_spec, format_spec, lines_where, program_spec, Example,
};
use crate::scan::{scan, scan_spec, views, Piece, ScanError, Segment};
use crate::util::{append_indented, indented};

verus! {

/// A code block of a document, made ready for building and for output.
pub struct Block {
    /// The block's place among the document's code blocks, from 1.
    pub ordinal: usize,
    /// The program made from the block.
    pub example: Example,
    /// The program has to be built: its body is not in the cache.
    pub execute: bool,
    /// The block as documentation.
    pub snippet: String,
}

/// One step of the output of a document.
pub enum Step {
    /// Text outside code blocks, already commented.
    Text(String),
    /// A code block.
    Block(Block),
}

/// What to do for a whole document: the steps in document order, and the cache
/// to keep for the next run.
pub struct Plan {
    pub steps: Vec<Step>,
    pub cache: Vec<String>,
}

/// The bodies of the code blocks among `p`, in order.
pub open spec fn code_bodies(p: Seq<Piece>) -> Seq<Seq<char>>
    decreases p.len(),
{
    if p.len() == 0 {
        Seq::empty()
    } else {
        let r = code_bodies(p.drop_last());
        match p.last() {
            Piece::Code(b, _) => r.push(b),
            Piece::Text(_) => r,
        }
    }
}

/// The cache `c` after meeting `bodies` in turn: each body that it lacks is
/// added at the end.
pub open spec fn cache_after(c: Seq<Seq<char>>, bodies: Seq<Seq<char>>) -> Seq<Seq<char>>
    decreases bodies.len(),
{
    if bodies.len() == 0 {
        c
    } else {
        let r = cache_after(c, bodies.drop_last());
        if r.contains(bodies.last()) {
            r
        } else {
            r.push(bodies.last())
        }
    }
}

/// What the step for piece `k` of `p` shows, whatever the cache holds.
pub open spec fn step_shows(config: Config, p: Seq<Piece>, k: int, s: Step) -> bool {
    match p[k] {
        Piece::Text(x) => s matches Step::Text(t) && t@ == indented(x, config.comment@),
        Piece::Code(b, d) => match s {
            Step::Block(bl) => {
                &&& bl.ordinal == code_bodies(p.take(k)).len() + 1
                &&& bl.example.code@ == lines_where(b, false)
                &&& bl.example.before@ == before_spec(d.question)
                &&& bl.example.after@ == after_spec(d.question)
                &&& bl.example.example@ == program_spec(config.crate_name@, d.question, b)
                &&& bl.example.comment@ == config.comment@
                &&& bl.example.no_run == d.no_run
                &&& bl.snippet@ == format_spec(
                    config.comment@,
                    d.no_run,
                    bl.example.before@,
                    bl.example.code@,
                    bl.example.after@,
                )
            },
            Step::Text(_) => false,
        },
    }
}

/// Whether the step for piece `k` of `p` builds its program, starting from
/// cache `c`: it does for a code block whose body neither `c` nor an earlier
/// block holds.
pub open spec fn step_executes(c: Seq<Seq<char>>, p: Seq<Piece>, k: int) -> bool {
    match p[k] {
        Piece::Code(b, _) => !cache_after(c, code_bodies(p.take(k))).contains(b),
        Piece::Text(_) => false,
    }
}

pub open spec fn executes(s: Step) -> bool {
    match s {
        Step::Block(bl) => bl.execute,
        Step::Text(_) => false,
    }
}

/// What a step prints, leaving aside the output of a run.
pub open spec fn output_of(s: Step) -> Seq<char> {
    match s {
        Step::Block(bl) => bl.snippet@,
        Step::Text(t) => t@,
    }
}

/// `plan` is what a run over the document `doc` with cache `c` does.
pub open spec fn plan_ok(config: Config, doc: Seq<char>, c: Seq<Seq<char>>, plan: Plan) -> bool {
    &&& scan_spec(doc) is Ok
    &&& {
        let p = scan_spec(doc)->Ok_0;
        &&& plan.steps@.len() == p.len()
        &&& forall|k: int|
            0 <= k < p.len() ==> step_shows(config, p, k, #[trigger] plan.steps@[k]) && executes(
                plan.steps@[k],
            ) == step_executes(c, p, k)
        &&& texts(plan.cache@) == cache_after(c, code_bodies(p))
    }
}

/// Plans a run over a Markdown document: text is commented, each code block
/// becomes a program, built unless its body is in `cache`, and a snippet.
/// A document that does not scan gives the scanner's error and no plan.
pub fn plan(config: &Config, doc: &str, cache: Vec<String>) -> (r: Result<Plan, ScanError>)
    ensures
        match r {
            Ok(pl) => plan_ok(*config, doc@, texts(cache@), pl),
            Err(e) => scan_spec(doc@) == Err::<Seq<Piece>, ScanError>(e),
        },
{
    let segs = match scan(doc) {
        Ok(v) => v,
        Err(e) => {
            return Err(e);
        },
    };
    let ghost p = views(segs@);
    let ghost c0 = texts(cache@);
    let mut cache = cache;
    let mut steps: Vec<Step> = Vec::new();
    let mut count: usize = 0;
    let mut k: usize = 0;
    while k < segs.len()
        invariant
            p == views(segs@),
            scan_spec(doc@) == Ok::<Seq<Piece>, ScanError>(p),
            k <= segs@.len(),
            steps@.len() == k,
            count == code_bodies(p.take(k as int)).len(),
            count <= k,
            texts(cache@) == cache_after(c0, code_bodies(p.take(k as int))),
            forall|j: int|
                0 <= j < k ==> step_shows(*config, p, j, #[trigger] steps@[j]) && executes(steps@[j])
                    == step_executes(c0, p, j),
        decreases segs@.len() - k,
    {
        let ghost before = p.take(k as int);
        let ghost s0 = steps@;
        assert(p.take(k + 1).drop_last() =~= before);
        assert(p.take(k + 1).last() == p[k as int]);
        match &segs[k] {
            Segment::Passthrough(text) => {
                let mut out = String::new();
                append_indented(&mut out, text.as_str(), config.comment.as_str());
                steps.push(Step::Text(out));
                assert(code_bodies(p.take(k + 1)) == code_bodies(before));
            },
            Segment::CodeBlock(body, flags) => {
                let example = Example::build(config, body.as_str(), *flags);
                let seen = contains(&cache, body.as_str());
                if !seen {
                    record(&mut cache, body.as_str());
                }
                proof {
                    let bs = code_bodies(p.take(k + 1));
                    assert(bs == code_bodies(before).push(body@));
                    assert(bs.drop_last() =~= code_bodies(before));
                    assert(bs.last() == body@);
                }
                let snippet = example.format();
                count = count + 1;
                steps.push(Step::Block(Block { ordinal: count, example, execute: !seen, snippet }));
            },
        }
        proof {
            assert(steps@[k as int] == steps@.last());
            assert forall|j: int| 0 <= j < k + 1 implies step_shows(*config, p, j, #[trigger] steps@[j])
                && executes(steps@[j]) == step_executes(c0, p, j) by {
                if j < k {
                    assert(steps@[j] == s0[j]);
                }
            }
        }
        k = k + 1;
    }
    assert(p.take(k as int) =~= p);
    Ok(Plan { steps, cache })
}

proof fn lemma_cache_after_keeps(c: Seq<Seq<char>>, bs: Seq<Seq<char>>, x: Seq<char>)
    requires
        c.contains(x),
    ensures
        cache_after(c, bs).contains(x),
    decreases bs.len(),
{
    if bs.len() > 0 {
        lemma_cache_after_keeps(c, bs.drop_last(), x);
        let r = cache_after(c, bs.drop_last());
        if !r.contains(bs.last()) {
            let i = choose|i: int| 0 <= i < r.len() && r[i] == x;
            assert(r.push(bs.last())[i] == x);
        }
    }
}

proof fn lemma_cache_after_holds_all(c: Seq<Seq<char>>, bs: Seq<Seq<char>>)
    ensures
        forall|i: int| 0 <= i < bs.len() ==> cache_after(c, bs).contains(#[trigger] bs[i]),
    decreases bs.len(),
{
    if bs.len() > 0 {
        let r = cache_after(c, bs.drop_last());
        lemma_cache_after_holds_all(c, bs.drop_last());
        assert forall|i: int| 0 <= i < bs.len() implies cache_after(c, bs).contains(
            #[trigger] bs[i],
        ) by {
            if i < bs.len() - 1 {
                assert(bs.drop_last()[i] == bs[i]);
                assert(r.contains(bs[i]));
                if !r.contains(bs.last()) {
                    let j = choose|j: int| 0 <= j < r.len() && r[j] == bs[i];
                    assert(r.push(bs.last())[j] == bs[i]);
                }
            } else {
                if !r.contains(bs.last()) {
                    assert(r.push(bs.last())[r.len() as int] == bs.last());
                }
            }
        }
    }
}

proof fn lemma_cache_after_fixed(c: Seq<Seq<char>>, bs: Seq<Seq<char>>)
    requires
        forall|i: int| 0 <= i < bs.len() ==> c.contains(#[trigger] bs[i]),
    ensures
        cache_after(c, bs) == c,
    decreases bs.len(),
{
    if bs.len() > 0 {
        assert forall|i: int| 0 <= i < bs.len() - 1 implies c.contains(
            #[trigger] bs.drop_last()[i],
        ) by {
            assert(bs.drop_last()[i] == bs[i]);
        }
        lemma_cache_after_fixed(c, bs.drop_last());
        assert(c.contains(bs[bs.len() - 1]));
    }
}

proof fn lemma_code_bodies_hold(p: Seq<Piece>, k: int)
    requires
        0 <= k < p.len(),
        p[k] is Code,
    ensures
        code_bodies(p).contains(p[k]->Code_0),
    decreases p.len(),
{
    let r = code_bodies(p.drop_last());
    if k == p.len() - 1 {
        assert(code_bodies(p) == r.push(p[k]->Code_0));
        assert(r.push(p[k]->Code_0)[r.len() as int] == p[k]->Code_0);
    } else {
        assert(p.drop_last()[k] == p[k]);
        lemma_code_bodies_hold(p.drop_last(), k);
        let j = choose|j: int| 0 <= j < r.len() && r[j] == p[k]->Code_0;
        if p.last() is Code {
            assert(code_bodies(p) == r.push(p.last()->Code_0));
            assert(r.push(p.last()->Code_0)[j] == p[k]->Code_0);
        }
    }
}

/// A second run over the same document, started from the cache that the first
/// run left, builds nothing, prints the same output and leaves the cache as it
/// found it.
pub proof fn lemma_rerun_idempotent(
    config: Config,
    doc: Seq<char>,
    c: Seq<Seq<char>>,
    first: Plan,
    second: Plan,
)
    requires
        plan_ok(config, doc, c, first),
        plan_ok(config, doc, texts(first.cache@), second),
    ensures
        second.steps@.len() == first.steps@.len(),
        forall|k: int| 0 <= k < second.steps@.len() ==> !executes(#[trigger] second.steps@[k]),
        forall|k: int|
            0 <= k < second.steps@.len() ==> #[trigger] output_of(second.steps@[k]) == output_of(
                first.steps@[k],
            ),
        texts(second.cache@) == texts(first.cache@),
{
    let p = scan_spec(doc)->Ok_0;
    let bs = code_bodies(p);
    let c1 = texts(first.cache@);
    lemma_cache_after_holds_all(c, bs);
    lemma_cache_after_fixed(c1, bs);
    assert forall|k: int| 0 <= k < second.steps@.len() implies !executes(
        #[trigger] second.steps@[k],
    ) by {
        assert(step_shows(config, p, k, second.steps@[k]));
        if p[k] is Code {
            lemma_code_bodies_hold(p, k);
            let j = choose|j: int| 0 <= j < bs.len() && bs[j] == p[k]->Code_0;
            assert(c1.contains(bs[j]));
            lemma_cache_after_keeps(c1, code_bodies(p.take(k)), p[k]->Code_0);
        }
    }
    assert forall|k: int| 0 <= k < second.steps@.len() implies #[trigger] output_of(
        second.steps@[k],
    ) == output_of(first.steps@[k]) by {
        assert(step_shows(config, p, k, second.steps@[k]));
        assert(step_shows(config, p, k, first.steps@[k]));
    }
}

} // verus!
