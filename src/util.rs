use vstd::prelude::*;
use vstd::std_specs::iter::IteratorSpec;
use vstd::string::StringExecFns;
use vstd::string::StringSliceAdditionalSpecFns;

verus! {

/// True when `needle` occurs in `hay` starting at position `i`.
pub open spec fn occurs_at<T>(hay: Seq<T>, needle: Seq<T>, i: int) -> bool {
    0 <= i && i + needle.len() <= hay.len() && hay.subrange(i, i + needle.len()) == needle
}

/// Byte positions of the first occurrence of `needle` in `haystack`:
/// its start and the position just past it.
pub fn findstr(haystack: &str, needle: &str) -> (r: Option<(usize, usize)>)
    ensures
        match r {
            Some((a, b)) => {
                &&& b == a + needle.spec_bytes().len()
                &&& occurs_at(haystack.spec_bytes(), needle.spec_bytes(), a as int)
                &&& forall|k: int| 0 <= k < a ==> !occurs_at(haystack.spec_bytes(), needle.spec_bytes(), k)
            },
            None => forall|k: int| !occurs_at(haystack.spec_bytes(), needle.spec_bytes(), k),
        },
{
    let h = haystack.as_bytes();
    let n = needle.as_bytes();
    let hl = h.len();
    let nl = n.len();
    if nl > hl {
        return None;
    }
    let mut i: usize = 0;
    while i <= hl - nl
        invariant
            h@ == haystack.spec_bytes(),
            n@ == needle.spec_bytes(),
            hl == h@.len(),
            nl == n@.len(),
            nl <= hl,
            i <= hl - nl + 1,
            forall|k: int| 0 <= k < i ==> !occurs_at(h@, n@, k),
        decreases hl - nl + 1 - i,
    {
        let mut j: usize = 0;
        while j < nl && h[i + j] == n[j]
            invariant
                h@ == haystack.spec_bytes(),
                n@ == needle.spec_bytes(),
                hl == h@.len(),
                nl == n@.len(),
                i + nl <= hl,
                j <= nl,
                forall|m: int| 0 <= m < j ==> h@[i + m] == n@[m],
            decreases nl - j,
        {
            j = j + 1;
        }
        if j == nl {
            assert(h@.subrange(i as int, i + nl) =~= n@);
            return Some((i, i + nl));
        }
        assert(h@.subrange(i as int, i + nl)[j as int] != n@[j as int]);
        i = i + 1;
    }
    None
}

/// Number of characters of the line that starts at `i`, up to the next newline
/// or the end of `t`.
pub open spec fn line_len(t: Seq<char>, i: int) -> nat
    decreases t.len() - i,
{
    if i < 0 || i >= t.len() || t[i] == '\n' {
        0
    } else {
        1 + line_len(t, i + 1)
    }
}

/// The text of the line that starts at `i`: a carriage return just before its
/// newline belongs to the line ending, not to the line.
pub open spec fn line_text(t: Seq<char>, i: int) -> Seq<char> {
    let e = i + line_len(t, i);
    if e < t.len() && e > i && t[e - 1] == '\r' {
        t.subrange(i, e - 1)
    } else {
        t.subrange(i, e)
    }
}

/// Every line of `t` from position `i` on, each written as `p`, a space, the
/// line and a newline. A last line without newline counts; an empty text has
/// no lines.
pub open spec fn indented_from(t: Seq<char>, p: Seq<char>, i: int) -> Seq<char>
    decreases t.len() - i,
{
    if i < 0 || i >= t.len() {
        Seq::empty()
    } else {
        let j = i + line_len(t, i) + 1;
        p + seq![' '] + line_text(t, i) + seq!['\n'] + if j < t.len() {
            indented_from(t, p, j)
        } else {
            Seq::empty()
        }
    }
}

/// The lines of `t`, each prefixed with `p` and a space.
pub open spec fn indented(t: Seq<char>, p: Seq<char>) -> Seq<char> {
    indented_from(t, p, 0)
}

proof fn lemma_indented_step(t: Seq<char>, p: Seq<char>, i: int)
    requires
        0 <= i < t.len(),
    ensures
        ({
            let e = i + line_len(t, i);
            let next = if e < t.len() { e + 1 } else { t.len() as int };
            indented_from(t, p, i) == (p + seq![' '] + line_text(t, i) + seq!['\n'])
                + indented_from(t, p, next)
        }),
{
    let e = i + line_len(t, i);
    let next = if e < t.len() { e + 1 } else { t.len() as int };
    assert(indented_from(t, p, t.len() as int) == Seq::<char>::empty());
    assert(indented_from(t, p, i) =~= (p + seq![' '] + line_text(t, i) + seq!['\n'])
        + indented_from(t, p, next));
}

/// Relies on String::push: the character is added at the end.
#[verifier::external_body]
pub(crate) fn push_char(s: &mut String, c: char)
    ensures
        final(s)@ == old(s)@.push(c),
{
    s.push(c)
}

/// The characters of `s`, in order.
pub fn chars_of(s: &str) -> (r: Vec<char>)
    ensures
        r@ == s@,
{
    let mut v: Vec<char> = Vec::new();
    let mut it = s.chars();
    loop
        invariant
            v@ + it.remaining() == s@,
        ensures
            v@ == s@,
        decreases s@.len() - v@.len(),
    {
        match it.next() {
            Some(c) => {
                v.push(c);
            },
            None => {
                assert(v@ =~= s@);
                break;
            },
        }
    }
    v
}

/// Appends the characters `t[a..b]` to `dest`.
pub fn push_range(dest: &mut String, t: &Vec<char>, a: usize, b: usize)
    requires
        a <= b <= t@.len(),
    ensures
        final(dest)@ == old(dest)@ + t@.subrange(a as int, b as int),
{
    let mut k: usize = a;
    while k < b
        invariant
            a <= k <= b <= t@.len(),
            dest@ == old(dest)@ + t@.subrange(a as int, k as int),
        decreases b - k,
    {
        push_char(dest, t[k]);
        assert(t@.subrange(a as int, k + 1) =~= t@.subrange(a as int, k as int).push(t@[k as int]));
        k = k + 1;
    }
}

/// `r` is the first position at or after `i` where `n` occurs in `t`.
pub open spec fn is_first_from<T>(t: Seq<T>, n: Seq<T>, i: int, r: int) -> bool {
    &&& i <= r
    &&& occurs_at(t, n, r)
    &&& forall|k: int| i <= k < r ==> !occurs_at(t, n, k)
}

/// The first position at or after `i` where `n` occurs in `t`, or -1 when there
/// is none.
pub open spec fn find_from<T>(t: Seq<T>, n: Seq<T>, i: int) -> int {
    if exists|r: int| is_first_from(t, n, i, r) {
        choose|r: int| is_first_from(t, n, i, r)
    } else {
        -1
    }
}

pub proof fn lemma_find_from_is<T>(t: Seq<T>, n: Seq<T>, i: int, r: int)
    requires
        is_first_from(t, n, i, r),
    ensures
        find_from(t, n, i) == r,
{
    let c = choose|c: int| is_first_from(t, n, i, c);
    assert(is_first_from(t, n, i, c));
    if c < r {
        assert(!occurs_at(t, n, c));
    } else if r < c {
        assert(!occurs_at(t, n, r));
    }
}

pub proof fn lemma_find_from_none<T>(t: Seq<T>, n: Seq<T>, i: int)
    requires
        forall|k: int| i <= k ==> !occurs_at(t, n, k),
    ensures
        find_from(t, n, i) == -1,
{
    assert(!exists|r: int| is_first_from(t, n, i, r));
}

pub proof fn lemma_find_from_found<T>(t: Seq<T>, n: Seq<T>, i: int)
    requires
        find_from(t, n, i) >= i,
        i >= 0,
    ensures
        is_first_from(t, n, i, find_from(t, n, i)),
{
}

/// The first position at or after `from` where `g` occurs in `t`.
pub fn find_chars(t: &Vec<char>, g: &Vec<char>, from: usize) -> (r: Option<usize>)
    requires
        from <= t@.len(),
    ensures
        match r {
            Some(k) => is_first_from(t@, g@, from as int, k as int) && find_from(t@, g@, from as int)
                == k,
            None => find_from(t@, g@, from as int) == -1,
        },
{
    let n = t.len();
    let m = g.len();
    let mut i: usize = from;
    while m <= n - i
        invariant
            n == t@.len(),
            m == g@.len(),
            from <= i <= n,
            forall|k: int| from <= k < i ==> !occurs_at(t@, g@, k),
        decreases n - i,
    {
        let mut j: usize = 0;
        while j < m && t[i + j] == g[j]
            invariant
                n == t@.len(),
                m == g@.len(),
                i + m <= n,
                j <= m,
                forall|q: int| 0 <= q < j ==> t@[i + q] == g@[q],
            decreases m - j,
        {
            j = j + 1;
        }
        if j == m {
            assert(t@.subrange(i as int, i + m) =~= g@);
            proof {
                lemma_find_from_is(t@, g@, from as int, i as int);
            }
            return Some(i);
        }
        assert(t@.subrange(i as int, i + m)[j as int] != g@[j as int]);
        i = i + 1;
    }
    proof {
        assert forall|k: int| from <= k implies !occurs_at(t@, g@, k) by {
            if k >= i {
                assert(k + m > n);
            }
        }
        lemma_find_from_none(t@, g@, from as int);
    }
    None
}

/// The string holding the characters `t[a..b]`.
pub fn string_of_range(t: &Vec<char>, a: usize, b: usize) -> (r: String)
    requires
        a <= b <= t@.len(),
    ensures
        r@ == t@.subrange(a as int, b as int),
{
    let mut r = String::new();
    push_range(&mut r, t, a, b);
    r
}

/// Appends each line of `src` to `dest`, as `indent`, a space, the line and a
/// newline.
pub fn append_indented(dest: &mut String, src: &str, indent: &str)
    ensures
        final(dest)@ == old(dest)@ + indented(src@, indent@),
{
    let t = chars_of(src);
    let n = t.len();
    let mut i: usize = 0;
    while i < n
        invariant
            t@ == src@,
            n == t@.len(),
            i <= n,
            old(dest)@ + indented(t@, indent@) == dest@ + indented_from(t@, indent@, i as int),
        decreases n - i,
    {
        let mut e: usize = i;
        while e < n && t[e] != '\n'
            invariant
                n == t@.len(),
                i <= e <= n,
                line_len(t@, i as int) == (e - i) + line_len(t@, e as int),
            decreases n - e,
        {
            e = e + 1;
        }
        assert(e == i + line_len(t@, i as int));
        let ghost d0 = dest@;
        let stop = if e < n && e > i && t[e - 1] == '\r' { e - 1 } else { e };
        assert(t@.subrange(i as int, stop as int) == line_text(t@, i as int));
        dest.append(indent);
        push_char(dest, ' ');
        push_range(dest, &t, i, stop);
        push_char(dest, '\n');
        let next = if e < n { e + 1 } else { n };
        proof {
            lemma_indented_step(t@, indent@, i as int);
            assert(dest@ =~= d0 + (indent@ + seq![' '] + line_text(t@, i as int) + seq!['\n']));
        }
        i = next;
    }
}

} // verus!
