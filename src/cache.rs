use vstd::prelude::*;
use vstd::string::StringExecFns;

use crate::util::{
    chars_of, find_chars, find_from, is_first_from, lemma_find_from_is, lemma_find_from_none,
    occurs_at, string_of_range,
};

verus! {

/// What separates the snippets in a cache file.
pub const SEPARATOR: &'static str = "---\n";

/// The texts of a sequence of strings.
pub open spec fn texts(v: Seq<String>) -> Seq<Seq<char>> {
    v.map_values(|s: String| s@)
}

/// The pieces of `t` from position `i` on, cut at each occurrence of `sep`.
pub open spec fn split_from(t: Seq<char>, sep: Seq<char>, i: int) -> Seq<Seq<char>>
    decreases t.len() - i,
{
    let k = find_from(t, sep, i);
    if i < 0 || i > t.len() {
        Seq::empty()
    } else if k < i {
        seq![t.subrange(i, t.len() as int)]
    } else if k + sep.len() <= i {
        Seq::empty()
    } else {
        seq![t.subrange(i, k)] + split_from(t, sep, k + sep.len())
    }
}

/// The entries of a cache file: its pieces between separators, the last piece,
/// which follows the last separator, left out.
pub open spec fn read_spec(t: Seq<char>, sep: Seq<char>) -> Seq<Seq<char>> {
    split_from(t, sep, 0).drop_last()
}

/// A cache file: each entry followed by the separator.
pub open spec fn join(c: Seq<Seq<char>>, sep: Seq<char>) -> Seq<char>
    decreases c.len(),
{
    if c.len() == 0 {
        Seq::empty()
    } else {
        join(c.drop_last(), sep) + c.last() + sep
    }
}

/// No non-empty proper prefix of `sep` is also a suffix of it, so that two
/// occurrences of `sep` cannot overlap.
pub open spec fn unbordered(sep: Seq<char>) -> bool {
    forall|m: int| 0 < m < sep.len() ==> sep.subrange(0, m) != sep.subrange(sep.len() - m, sep.len() as int)
}

/// The entries of the cache file text `text`.
pub fn read(text: &str, sep: &str) -> (r: Vec<String>)
    requires
        sep@.len() > 0,
    ensures
        texts(r@) == read_spec(text@, sep@),
{
    let t = chars_of(text);
    let s = chars_of(sep);
    let n = t.len();
    let mut out: Vec<String> = Vec::new();
    let mut i: usize = 0;
    loop
        invariant
            t@ == text@,
            s@ == sep@,
            n == t@.len(),
            s@.len() > 0,
            i <= n,
            texts(out@) + split_from(t@, s@, i as int) == split_from(t@, s@, 0),
        decreases n - i,
    {
        match find_chars(&t, &s, i) {
            None => {
                assert(split_from(t@, s@, i as int) == seq![t@.subrange(i as int, n as int)]);
                assert((texts(out@) + split_from(t@, s@, i as int)).drop_last() =~= texts(out@));
                return out;
            },
            Some(k) => {
                let ghost before = out@;
                out.push(string_of_range(&t, i, k));
                assert(texts(out@) =~= texts(before) + seq![t@.subrange(i as int, k as int)]);
                assert(texts(out@) + split_from(t@, s@, k + s@.len()) =~= texts(before)
                    + split_from(t@, s@, i as int));
                i = k + s.len();
            },
        }
    }
}

/// The cache file text for `cache`: each entry followed by `sep`.
pub fn write(cache: &Vec<String>, sep: &str) -> (r: String)
    ensures
        r@ == join(texts(cache@), sep@),
{
    let mut r = String::new();
    let mut k: usize = 0;
    while k < cache.len()
        invariant
            k <= cache@.len(),
            r@ == join(texts(cache@).take(k as int), sep@),
        decreases cache@.len() - k,
    {
        r.append(cache[k].as_str());
        r.append(sep);
        assert(texts(cache@).take(k + 1).drop_last() =~= texts(cache@).take(k as int));
        k = k + 1;
    }
    assert(texts(cache@).take(cache@.len() as int) =~= texts(cache@));
    r
}

/// Whether `body` is one of the entries.
pub fn contains(cache: &Vec<String>, body: &str) -> (r: bool)
    ensures
        r == texts(cache@).contains(body@),
{
    let b = String::from_str(body);
    let mut k: usize = 0;
    while k < cache.len()
        invariant
            b@ == body@,
            k <= cache@.len(),
            forall|j: int| 0 <= j < k ==> cache@[j]@ != body@,
        decreases cache@.len() - k,
    {
        if cache[k] == b {
            assert(texts(cache@)[k as int] == body@);
            return true;
        }
        k = k + 1;
    }
    assert(!texts(cache@).contains(body@)) by {
        if texts(cache@).contains(body@) {
            let j = choose|j: int| 0 <= j < texts(cache@).len() && texts(cache@)[j] == body@;
            assert(cache@[j]@ == body@);
        }
    }
    false
}

/// Adds `body` at the end of the entries.
pub fn record(cache: &mut Vec<String>, body: &str)
    ensures
        texts(final(cache)@) == texts(old(cache)@).push(body@),
{
    cache.push(String::from_str(body));
    assert(texts(final(cache)@) =~= texts(old(cache)@).push(body@));
}

proof fn lemma_join_concat(a: Seq<Seq<char>>, b: Seq<Seq<char>>, sep: Seq<char>)
    ensures
        join(a + b, sep) == join(a, sep) + join(b, sep),
    decreases b.len(),
{
    if b.len() == 0 {
        assert(a + b =~= a);
    } else {
        assert((a + b).drop_last() =~= a + b.drop_last());
        assert((a + b).last() == b.last());
        lemma_join_concat(a, b.drop_last(), sep);
    }
}

/// Where a body `x` is followed by `sep`, the first occurrence of `sep` from the
/// start of `x` on is the one right after it.
proof fn lemma_first_after(t: Seq<char>, sep: Seq<char>, i: int, x: Seq<char>)
    requires
        sep.len() > 0,
        unbordered(sep),
        0 <= i,
        i + x.len() + sep.len() <= t.len(),
        t.subrange(i, i + x.len()) == x,
        t.subrange(i + x.len(), i + x.len() + sep.len()) == sep,
        forall|k: int| !occurs_at(x, sep, k),
    ensures
        is_first_from(t, sep, i, i + x.len()),
{
    let e = i + x.len();
    assert forall|p: int| i <= p < e implies !occurs_at(t, sep, p) by {
        if occurs_at(t, sep, p) {
            let q = p - i;
            if p + sep.len() <= e {
                assert forall|j: int| 0 <= j < sep.len() implies x.subrange(q, q + sep.len())[j]
                    == sep[j] by {
                    assert(t.subrange(p, p + sep.len())[j] == t[p + j]);
                    assert(t.subrange(i, e)[q + j] == t[i + q + j]);
                }
                assert(x.subrange(q, q + sep.len()) =~= sep);
                assert(occurs_at(x, sep, q));
            } else {
                let l = e - p;
                let m = sep.len() - l;
                assert forall|j: int| 0 <= j < m implies sep.subrange(0, m)[j] == sep.subrange(
                    sep.len() - m,
                    sep.len() as int,
                )[j] by {
                    assert(t.subrange(p, p + sep.len())[l + j] == t[p + l + j]);
                    assert(t.subrange(e, e + sep.len())[j] == t[e + j]);
                }
                assert(sep.subrange(0, m) =~= sep.subrange(sep.len() - m, sep.len() as int));
            }
        }
    }
}

proof fn lemma_split_join(c: Seq<Seq<char>>, sep: Seq<char>, k: int)
    requires
        sep.len() > 0,
        unbordered(sep),
        forall|i: int, j: int| 0 <= i < c.len() ==> !occurs_at(c[i], sep, j),
        0 <= k <= c.len(),
    ensures
        split_from(join(c, sep), sep, join(c.take(k), sep).len() as int) == c.skip(k) + seq![
            Seq::<char>::empty(),
        ],
    decreases c.len() - k,
{
    let t = join(c, sep);
    let i = join(c.take(k), sep).len() as int;
    if k == c.len() {
        assert(c.take(k) =~= c);
        assert(i == t.len());
        assert(c.skip(k) =~= Seq::<Seq<char>>::empty());
        assert(t.subrange(i, t.len() as int) =~= Seq::<char>::empty());
        assert forall|p: int| i <= p implies !occurs_at(t, sep, p) by {}
        lemma_find_from_none(t, sep, i);
        assert(c.skip(k) + seq![Seq::<char>::empty()] =~= seq![t.subrange(i, t.len() as int)]);
    } else {
        let x = c[k];
        let rest = join(c.skip(k + 1), sep);
        assert(c =~= c.take(k) + (seq![x] + c.skip(k + 1)));
        lemma_join_concat(c.take(k), seq![x] + c.skip(k + 1), sep);
        lemma_join_concat(seq![x], c.skip(k + 1), sep);
        assert(seq![x].drop_last() =~= Seq::<Seq<char>>::empty());
        assert(join(Seq::<Seq<char>>::empty(), sep) == Seq::<char>::empty());
        assert(seq![x].last() == x);
        assert(join(seq![x], sep) =~= x + sep);
        assert(t =~= join(c.take(k), sep) + x + sep + rest);
        assert(t.subrange(i, i + x.len()) =~= x);
        assert(t.subrange(i + x.len(), i + x.len() + sep.len()) =~= sep);
        lemma_first_after(t, sep, i, x);
        lemma_find_from_is(t, sep, i, i + x.len());
        assert(c.take(k + 1).drop_last() =~= c.take(k));
        assert(join(c.take(k + 1), sep) == join(c.take(k), sep) + x + sep);
        lemma_split_join(c, sep, k + 1);
        assert(c.skip(k) =~= seq![x] + c.skip(k + 1));
        assert(split_from(t, sep, i) == seq![t.subrange(i, i + x.len())] + split_from(
            t,
            sep,
            i + x.len() + sep.len(),
        ));
        assert(split_from(t, sep, i) =~= c.skip(k) + seq![Seq::<char>::empty()]);
    }
}

/// Reading back what was written gives the same entries, in the same order,
/// provided the separator is not empty, cannot overlap itself, and occurs in
/// no entry.
pub proof fn lemma_round_trip(c: Seq<Seq<char>>, sep: Seq<char>)
    requires
        sep.len() > 0,
        unbordered(sep),
        forall|i: int, j: int| 0 <= i < c.len() ==> !occurs_at(c[i], sep, j),
    ensures
        read_spec(join(c, sep), sep) == c,
{
    lemma_split_join(c, sep, 0);
    assert(c.take(0) =~= Seq::<Seq<char>>::empty());
    assert(c.skip(0) =~= c);
    assert((c + seq![Seq::<char>::empty()]).drop_last() =~= c);
}

/// The separator of cache files cannot overlap itself.
pub proof fn lemma_separator_unbordered()
    ensures
        unbordered(SEPARATOR@),
{
    reveal_strlit("---\n");
    let sep = SEPARATOR@;
    assert forall|m: int| 0 < m < sep.len() implies sep.subrange(0, m) != sep.subrange(
        sep.len() - m,
        sep.len() as int,
    ) by {
        assert(sep.subrange(0, m)[m - 1] == '-');
        assert(sep.subrange(sep.len() - m, sep.len() as int)[m - 1] == '\n');
    }
}

/// With the library's separator, writing entries and reading them back gives
/// the same entries, in the same order, whenever no entry contains the
/// separator.
pub proof fn lemma_cache_round_trip(c: Seq<Seq<char>>)
    requires
        forall|i: int, j: int| 0 <= i < c.len() ==> !occurs_at(c[i], SEPARATOR@, j),
    ensures
        read_spec(join(c, SEPARATOR@), SEPARATOR@) == c,
{
    reveal_strlit("---\n");
    lemma_separator_unbordered();
    lemma_round_trip(c, SEPARATOR@);
}

} // verus!
