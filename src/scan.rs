use vstd::prelude::*;

use crate::util::{
    chars_of, find_chars, find_from, lemma_find_from_found, lemma_find_from_none,
    occurs_at, string_of_range,
};

verus! {

/// Per-block flags read right after the start guard.
#[derive(Clone, Copy, Debug, PartialEq, Eq, Structural)]
pub struct Directives {
    /// `?`: the body is hosted in a fallible `run` function.
    pub question: bool,
    /// `n`: the example is compiled but not run.
    pub no_run: bool,
}

/// Why a document cannot be scanned.
#[derive(Clone, Copy, Debug, PartialEq, Eq, Structural)]
pub enum ScanError {
    /// The start guard and its flags are not followed by a newline.
    MissingNewline,
    /// A code block has no end guard.
    Unterminated,
}

/// A piece of a scanned document.
#[derive(Debug)]
pub enum Segment {
    /// Text outside code blocks, verbatim.
    Passthrough(String),
    /// The body of a code block and its flags.
    CodeBlock(String, Directives),
}

/// The mathematical value of a segment.
pub enum Piece {
    Text(Seq<char>),
    Code(Seq<char>, Directives),
}

impl View for Segment {
    type V = Piece;

    open spec fn view(&self) -> Piece {
        match self {
            Segment::Passthrough(s) => Piece::Text(s@),
            Segment::CodeBlock(b, d) => Piece::Code(b@, *d),
        }
    }
}

pub open spec fn start_guard() -> Seq<char> {
    seq!['`', '`', '`', 'r', 'u', 's', 't']
}

pub open spec fn end_guard() -> Seq<char> {
    seq!['`', '`', '`', '\n']
}

/// Where the flags of a block whose start guard stands at `s` end.
pub open spec fn flags_end(t: Seq<char>, s: int) -> int {
    let j0 = s + start_guard().len();
    let j1 = if j0 < t.len() && t[j0] == '?' { j0 + 1 } else { j0 };
    if j1 < t.len() && t[j1] == 'n' { j1 + 1 } else { j1 }
}

/// The flags of a block whose start guard stands at `s`: `?`, then `n`, each
/// optional.
pub open spec fn flags_at(t: Seq<char>, s: int) -> Directives {
    let j0 = s + start_guard().len();
    let q = j0 < t.len() && t[j0] == '?';
    let j1 = if q { j0 + 1 } else { j0 };
    Directives { question: q, no_run: j1 < t.len() && t[j1] == 'n' }
}

/// The segments of `t` from position `i` on: the text up to the next start
/// guard, the block it opens, and so on; the text after the last block ends
/// the sequence.
pub open spec fn scan_from(t: Seq<char>, i: int) -> Result<Seq<Piece>, ScanError>
    decreases t.len() - i,
{
    let s = find_from(t, start_guard(), i);
    if i < 0 || i > t.len() {
        Ok(Seq::empty())
    } else if s < i {
        Ok(seq![Piece::Text(t.subrange(i, t.len() as int))])
    } else {
        let f = flags_end(t, s);
        if !(f < t.len() && t[f] == '\n') {
            Err(ScanError::MissingNewline)
        } else {
            let e = find_from(t, end_guard(), f + 1);
            if e < f + 1 {
                Err(ScanError::Unterminated)
            } else {
                let here = seq![
                    Piece::Text(t.subrange(i, s)),
                    Piece::Code(t.subrange(f + 1, e), flags_at(t, s)),
                ];
                match scan_from(t, e + end_guard().len()) {
                    Ok(rest) => Ok(here + rest),
                    Err(x) => Err(x),
                }
            }
        }
    }
}

/// The segments of a whole document.
pub open spec fn scan_spec(t: Seq<char>) -> Result<Seq<Piece>, ScanError> {
    scan_from(t, 0)
}

pub open spec fn prepend(pre: Seq<Piece>, r: Result<Seq<Piece>, ScanError>) -> Result<
    Seq<Piece>,
    ScanError,
> {
    match r {
        Ok(rest) => Ok(pre + rest),
        Err(x) => Err(x),
    }
}

pub open spec fn views(v: Seq<Segment>) -> Seq<Piece> {
    v.map_values(|s: Segment| s@)
}

/// Splits a Markdown document into text and code blocks, in document order.
pub fn scan(doc: &str) -> (r: Result<Vec<Segment>, ScanError>)
    ensures
        match r {
            Ok(v) => scan_spec(doc@) == Ok::<Seq<Piece>, ScanError>(views(v@)),
            Err(x) => scan_spec(doc@) == Err::<Seq<Piece>, ScanError>(x),
        },
{
    let t = chars_of(doc);
    let n = t.len();
    let start = vec!['`', '`', '`', 'r', 'u', 's', 't'];
    let end = vec!['`', '`', '`', '\n'];
    assert(start@ =~= start_guard());
    assert(end@ =~= end_guard());
    let mut out: Vec<Segment> = Vec::new();
    let mut i: usize = 0;
    loop
        invariant
            t@ == doc@,
            n == t@.len(),
            start@ == start_guard(),
            end@ == end_guard(),
            i <= n,
            prepend(views(out@), scan_from(t@, i as int)) == scan_spec(t@),
        decreases n - i,
    {
        let s = match find_chars(&t, &start, i) {
            None => {
                let ghost before = out@;
                out.push(Segment::Passthrough(string_of_range(&t, i, n)));
                assert(views(out@) =~= views(before) + seq![Piece::Text(t@.subrange(i as int, n as int))]);
                return Ok(out);
            },
            Some(s) => s,
        };
        let mut f = s + 7;
        let question = f < n && t[f] == '?';
        if question {
            f = f + 1;
        }
        let no_run = f < n && t[f] == 'n';
        if no_run {
            f = f + 1;
        }
        if !(f < n && t[f] == '\n') {
            return Err(ScanError::MissingNewline);
        }
        let e = match find_chars(&t, &end, f + 1) {
            None => {
                return Err(ScanError::Unterminated);
            },
            Some(e) => e,
        };
        let ghost old_out = out@;
        out.push(Segment::Passthrough(string_of_range(&t, i, s)));
        out.push(
            Segment::CodeBlock(string_of_range(&t, f + 1, e), Directives { question, no_run }),
        );
        let ghost here = seq![
            Piece::Text(t@.subrange(i as int, s as int)),
            Piece::Code(t@.subrange(f + 1, e as int), flags_at(t@, s as int)),
        ];
        assert(views(out@) =~= views(old_out) + here);
        assert(views(old_out) + here + scan_from(t@, e + 4)->Ok_0 =~= views(old_out) + (here
            + scan_from(t@, e + 4)->Ok_0));
        i = e + 4;
    }
}

/// The flag characters that `d` stands for, `?` before `n`.
pub open spec fn flag_chars(d: Directives) -> Seq<char> {
    (if d.question { seq!['?'] } else { Seq::empty() }) + (if d.no_run { seq!['n'] } else { Seq::empty() })
}

/// The text a piece was read from: a code block gets back its guards and flags.
pub open spec fn piece_text(p: Piece) -> Seq<char> {
    match p {
        Piece::Text(x) => x,
        Piece::Code(b, d) => start_guard() + flag_chars(d) + seq!['\n'] + b + end_guard(),
    }
}

/// The pieces written out one after another.
pub open spec fn rejoin(p: Seq<Piece>) -> Seq<char>
    decreases p.len(),
{
    if p.len() == 0 {
        Seq::empty()
    } else {
        piece_text(p[0]) + rejoin(p.drop_first())
    }
}

proof fn lemma_rejoin_concat(a: Seq<Piece>, b: Seq<Piece>)
    ensures
        rejoin(a + b) == rejoin(a) + rejoin(b),
    decreases a.len(),
{
    if a.len() == 0 {
        assert(a + b =~= b);
    } else {
        assert((a + b).drop_first() =~= a.drop_first() + b);
        lemma_rejoin_concat(a.drop_first(), b);
    }
}

proof fn lemma_rejoin_from(t: Seq<char>, i: int)
    requires
        0 <= i <= t.len(),
        scan_from(t, i) is Ok,
    ensures
        rejoin(scan_from(t, i)->Ok_0) == t.subrange(i, t.len() as int),
    decreases t.len() - i,
{
    let s = find_from(t, start_guard(), i);
    if s < i {
        let p = seq![Piece::Text(t.subrange(i, t.len() as int))];
        assert(p.drop_first() =~= Seq::<Piece>::empty());
        assert(rejoin(p.drop_first()) == Seq::<char>::empty());
        assert(rejoin(p) == piece_text(p[0]) + rejoin(p.drop_first()));
        assert(rejoin(p) =~= t.subrange(i, t.len() as int));
    } else {
        lemma_find_from_found(t, start_guard(), i);
        let f = flags_end(t, s);
        let e = find_from(t, end_guard(), f + 1);
        lemma_find_from_found(t, end_guard(), f + 1);
        let here = seq![
            Piece::Text(t.subrange(i, s)),
            Piece::Code(t.subrange(f + 1, e), flags_at(t, s)),
        ];
        let rest = scan_from(t, e + 4)->Ok_0;
        lemma_rejoin_from(t, e + 4);
        lemma_rejoin_concat(here, rest);
        assert(here.drop_first().drop_first() =~= Seq::<Piece>::empty());
        assert(here.drop_first() =~= seq![here[1]]);
        assert(rejoin(here.drop_first().drop_first()) == Seq::<char>::empty());
        assert(rejoin(here.drop_first()) == piece_text(here[1]) + rejoin(
            here.drop_first().drop_first(),
        ));
        assert(rejoin(here) == piece_text(here[0]) + rejoin(here.drop_first()));
        assert(t.subrange(s + 7, f) =~= flag_chars(flags_at(t, s)));
        assert(t.subrange(s, s + 7) =~= start_guard());
        assert(t.subrange(e, e + 4) =~= end_guard());
        assert(rejoin(here) =~= t.subrange(i, s) + (start_guard() + flag_chars(flags_at(t, s))
            + seq!['\n'] + t.subrange(f + 1, e) + end_guard()));
        assert(t.subrange(i, t.len() as int) =~= t.subrange(i, s) + t.subrange(s, s + 7)
            + t.subrange(s + 7, f) + seq!['\n'] + t.subrange(f + 1, e) + t.subrange(e, e + 4)
            + t.subrange(e + 4, t.len() as int));
    }
}

/// A document without any start guard scans to a single text segment holding
/// the whole document.
pub proof fn lemma_scan_without_fences(t: Seq<char>)
    requires
        forall|k: int| !occurs_at(t, start_guard(), k),
    ensures
        scan_spec(t) == Ok::<Seq<Piece>, ScanError>(seq![Piece::Text(t)]),
{
    lemma_find_from_none(t, start_guard(), 0);
    assert(t.subrange(0, t.len() as int) =~= t);
}

/// Scanning loses nothing: writing the segments back, each code block between
/// its start guard with its flags and a newline, and its end guard, gives the
/// document back character for character.
pub proof fn lemma_scan_rejoin(t: Seq<char>)
    requires
        scan_spec(t) is Ok,
    ensures
        rejoin(scan_spec(t)->Ok_0) == t,
{
    lemma_rejoin_from(t, 0);
    assert(t.subrange(0, t.len() as int) =~= t);
}

} // verus!
