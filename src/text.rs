//! Character-level building blocks shared by the parser and the template
//! engine: whitespace tokens, separator splits and pattern matching, each
//! stated over `Seq<char>`.

use vstd::prelude::*;
use vstd::std_specs::iter::IteratorSpec;

verus! {

/// The characters that `char::is_whitespace` accepts (Unicode `White_Space`).
pub open spec fn is_ws(c: char) -> bool {
    let u = c as u32;
    ||| 0x09 <= u <= 0x0D
    ||| u == 0x20
    ||| u == 0x85
    ||| u == 0xA0
    ||| u == 0x1680
    ||| 0x2000 <= u <= 0x200A
    ||| u == 0x2028
    ||| u == 0x2029
    ||| u == 0x202F
    ||| u == 0x205F
    ||| u == 0x3000
}

/// The maximal runs of non-whitespace characters of `s`, left to right.
pub open spec fn tokens(s: Seq<char>) -> Seq<Seq<char>>
    decreases s.len(),
{
    if s.len() == 0 {
        seq![]
    } else {
        let r = tokens(s.drop_last());
        let c = s.last();
        if is_ws(c) {
            r
        } else if s.len() > 1 && !is_ws(s[s.len() - 2]) {
            r.update(r.len() - 1, r.last().push(c))
        } else {
            r.push(seq![c])
        }
    }
}

/// The pieces of `s` between occurrences of `sep`, as `str::split` gives them.
pub open spec fn split_on(s: Seq<char>, sep: char) -> Seq<Seq<char>>
    decreases s.len(),
{
    if s.len() == 0 {
        seq![seq![]]
    } else {
        let r = split_on(s.drop_last(), sep);
        if s.last() == sep {
            r.push(seq![])
        } else {
            r.update(r.len() - 1, r.last().push(s.last()))
        }
    }
}

/// The lines of `s` separated by the two characters `\r\n`.
pub open spec fn split_crlf(s: Seq<char>) -> Seq<Seq<char>>
    decreases s.len(),
{
    if s.len() == 0 {
        seq![seq![]]
    } else if s.len() >= 2 && s[s.len() - 2] == '\r' && s.last() == '\n' {
        split_crlf(s.subrange(0, s.len() - 2)).push(seq![])
    } else {
        let r = split_crlf(s.drop_last());
        r.update(r.len() - 1, r.last().push(s.last()))
    }
}

/// `s` cut at its first `sep`: what precedes it, and what follows it if
/// there is one.
pub open spec fn split_once(s: Seq<char>, sep: char) -> (Seq<char>, Option<Seq<char>>)
    decreases s.len(),
{
    if s.len() == 0 {
        (s, None)
    } else if s[0] == sep {
        (seq![], Some(s.drop_first()))
    } else {
        let (a, b) = split_once(s.drop_first(), sep);
        (seq![s[0]] + a, b)
    }
}

/// The tokens joined by single spaces.
pub open spec fn join_space(ts: Seq<Seq<char>>) -> Seq<char>
    decreases ts.len(),
{
    if ts.len() == 0 {
        seq![]
    } else if ts.len() == 1 {
        ts[0]
    } else {
        join_space(ts.drop_last()) + seq![' '] + ts.last()
    }
}

/// `s` with every occurrence of `p` taken out, scanning left to right.
pub open spec fn remove_all(s: Seq<char>, p: Seq<char>) -> Seq<char>
    decreases s.len(),
{
    if s.len() == 0 {
        s
    } else if p.len() > 0 && p.is_prefix_of(s) {
        remove_all(s.skip(p.len() as int), p)
    } else {
        seq![s[0]] + remove_all(s.drop_first(), p)
    }
}

/// `p` occurs in `s` at position `i`.
pub open spec fn occurs_at(s: Seq<char>, i: int, p: Seq<char>) -> bool {
    0 <= i && i + p.len() <= s.len() && s.subrange(i, i + p.len()) == p
}

/// The pieces of `s` that `spans` marks out.
pub open spec fn spans_view(s: Seq<char>, spans: Seq<(usize, usize)>) -> Seq<Seq<char>> {
    spans.map_values(|p: (usize, usize)| s.subrange(p.0 as int, p.1 as int))
}

/// Every span lies in `lo..hi`.
pub open spec fn spans_within(spans: Seq<(usize, usize)>, lo: int, hi: int) -> bool {
    forall|j: int| 0 <= j < spans.len() ==> lo <= #[trigger] spans[j].0 <= spans[j].1 <= hi
}

/// The characters of `s`, in order.
pub fn chars_of(s: &str) -> (r: Vec<char>)
    ensures
        r@ == s@,
{
    broadcast use vstd::string::group_string_axioms;

    let mut it = s.chars();
    let mut out: Vec<char> = Vec::new();
    loop
        invariant
            it.obeys_prophetic_iter_laws(),
            out@ + it.remaining() == s@,
        decreases s@.len() - out@.len(),
    {
        let ghost rest = it.remaining();
        match it.next() {
            Some(c) => {
                assert(rest.len() > 0 && rest[0] == c && it.remaining() == rest.drop_first());
                let ghost before = out@;
                out.push(c);
                assert(before.push(c) + it.remaining() =~= before + rest);
            },
            None => {
                assert(rest.len() == 0);
                assert(out@ + rest =~= out@);
                return out;
            },
        }
    }
}

/// Relies on `String`'s `FromIterator<char>`: the string of the characters
/// `v[from..to]`.
#[verifier::external_body]
pub(crate) fn string_of(v: &Vec<char>, from: usize, to: usize) -> (r: String)
    requires
        from <= to <= v@.len(),
    ensures
        r@ == v@.subrange(from as int, to as int),
{
    v[from..to].iter().collect()
}

/// Whether `c` is whitespace in the sense of `is_ws`.
pub fn is_whitespace(c: char) -> (r: bool)
    ensures
        r == is_ws(c),
{
    let u = c as u32;
    (0x09 <= u && u <= 0x0D) || u == 0x20 || u == 0x85 || u == 0xA0 || u == 0x1680 || (0x2000
        <= u && u <= 0x200A) || u == 0x2028 || u == 0x2029 || u == 0x202F || u == 0x205F || u
        == 0x3000
}

/// Whether `p` occurs in `s` at position `i`.
pub fn matches_at(s: &Vec<char>, i: usize, p: &Vec<char>) -> (r: bool)
    ensures
        r == occurs_at(s@, i as int, p@),
{
    if i > s.len() || p.len() > s.len() - i {
        return false;
    }
    let n = s.len();
    let mut k: usize = 0;
    while k < p.len()
        invariant
            n == s@.len(),
            i + p@.len() <= s@.len(),
            k <= p@.len(),
            forall|j: int| 0 <= j < k ==> s@[i + j] == p@[j],
        decreases p@.len() - k,
    {
        if s[i + k] != p[k] {
            assert(s@.subrange(i as int, i + p@.len())[k as int] != p@[k as int]);
            return false;
        }
        k = k + 1;
    }
    assert(s@.subrange(i as int, i + p@.len()) =~= p@);
    true
}

proof fn lemma_spans_push(s: Seq<char>, spans: Seq<(usize, usize)>, p: (usize, usize))
    ensures
        spans_view(s, spans.push(p)) == spans_view(s, spans).push(
            s.subrange(p.0 as int, p.1 as int),
        ),
{
    assert(spans_view(s, spans.push(p)) =~= spans_view(s, spans).push(
        s.subrange(p.0 as int, p.1 as int),
    ));
}

/// The whitespace tokens of `s[lo..hi]`, as spans of `s`.
pub fn token_spans(s: &Vec<char>, lo: usize, hi: usize) -> (r: Vec<(usize, usize)>)
    requires
        lo <= hi <= s@.len(),
    ensures
        spans_view(s@, r@) == tokens(s@.subrange(lo as int, hi as int)),
        spans_within(r@, lo as int, hi as int),
{
    let mut out: Vec<(usize, usize)> = Vec::new();
    let mut in_tok = false;
    let mut start: usize = lo;
    let mut i: usize = lo;
    while i < hi
        invariant
            lo <= start <= i <= hi <= s@.len(),
            spans_within(out@, lo as int, i as int),
            in_tok ==> start < i,
            in_tok <==> (i > lo && !is_ws(s@[i - 1])),
            tokens(s@.subrange(lo as int, i as int)) == if in_tok {
                spans_view(s@, out@).push(s@.subrange(start as int, i as int))
            } else {
                spans_view(s@, out@)
            },
        decreases hi - i,
    {
        let c = s[i];
        let ghost pre = s@.subrange(lo as int, i as int);
        let ghost cur = s@.subrange(lo as int, i + 1);
        assert(cur.drop_last() =~= pre);
        assert(cur.last() == c);
        if is_whitespace(c) {
            if in_tok {
                proof {
                    lemma_spans_push(s@, out@, (start, i));
                }
                out.push((start, i));
                in_tok = false;
            }
        } else if in_tok {
            assert(cur[cur.len() - 2] == s@[i - 1]);
            assert(s@.subrange(start as int, i as int).push(c) =~= s@.subrange(
                start as int,
                i + 1,
            ));
            assert(tokens(cur) =~= spans_view(s@, out@).push(
                s@.subrange(start as int, i + 1),
            ));
        } else {
            assert(i > lo ==> cur[cur.len() - 2] == s@[i - 1]);
            assert(s@.subrange(i as int, i + 1) =~= seq![c]);
            start = i;
            in_tok = true;
        }
        i = i + 1;
    }
    if in_tok {
        proof {
            lemma_spans_push(s@, out@, (start, i));
        }
        out.push((start, i));
    }
    out
}

/// The pieces of `s[lo..hi]` between occurrences of `sep`, as spans of `s`.
pub fn split_spans(s: &Vec<char>, lo: usize, hi: usize, sep: char) -> (r: Vec<(usize, usize)>)
    requires
        lo <= hi <= s@.len(),
    ensures
        spans_view(s@, r@) == split_on(s@.subrange(lo as int, hi as int), sep),
        spans_within(r@, lo as int, hi as int),
{
    let mut out: Vec<(usize, usize)> = Vec::new();
    let mut start: usize = lo;
    let mut i: usize = lo;
    assert(s@.subrange(lo as int, lo as int) =~= Seq::<char>::empty());
    while i < hi
        invariant
            lo <= start <= i <= hi <= s@.len(),
            spans_within(out@, lo as int, i as int),
            split_on(s@.subrange(lo as int, i as int), sep) == spans_view(s@, out@).push(
                s@.subrange(start as int, i as int),
            ),
        decreases hi - i,
    {
        let c = s[i];
        let ghost pre = s@.subrange(lo as int, i as int);
        let ghost cur = s@.subrange(lo as int, i + 1);
        assert(cur.drop_last() =~= pre);
        assert(cur.last() == c);
        if c == sep {
            proof {
                lemma_spans_push(s@, out@, (start, i));
            }
            out.push((start, i));
            start = i + 1;
            assert(s@.subrange(start as int, start as int) =~= Seq::<char>::empty());
        } else {
            assert(s@.subrange(start as int, i as int).push(c) =~= s@.subrange(
                start as int,
                i + 1,
            ));
        }
        i = i + 1;
    }
    proof {
        lemma_spans_push(s@, out@, (start, i));
    }
    out.push((start, i));
    out
}

/// Every token is non-empty.
pub proof fn lemma_tokens_nonempty(s: Seq<char>)
    ensures
        forall|j: int| 0 <= j < tokens(s).len() ==> #[trigger] tokens(s)[j].len() > 0,
        s.len() > 0 && !is_ws(s.last()) ==> tokens(s).len() > 0,
    decreases s.len(),
{
    if s.len() > 0 {
        let t = s.drop_last();
        lemma_tokens_nonempty(t);
        let r = tokens(t);
        let c = s.last();
        if s.len() > 1 {
            assert(t.last() == s[s.len() - 2]);
        }
        if !is_ws(c) && s.len() > 1 && !is_ws(s[s.len() - 2]) {
            assert forall|j: int| 0 <= j < tokens(s).len() implies #[trigger] tokens(s)[j].len()
                > 0 by {
                if j != r.len() - 1 {
                    assert(tokens(s)[j] == r[j]);
                }
            }
        } else if !is_ws(c) {
            assert forall|j: int| 0 <= j < tokens(s).len() implies #[trigger] tokens(s)[j].len()
                > 0 by {
                if j < r.len() {
                    assert(tokens(s)[j] == r[j]);
                }
            }
        }
    }
}

/// Cutting at a first occurrence of `sep`.
pub proof fn lemma_split_once_at(s: Seq<char>, sep: char, j: int)
    requires
        0 <= j < s.len(),
        s[j] == sep,
        forall|k: int| 0 <= k < j ==> s[k] != sep,
    ensures
        split_once(s, sep) == (s.take(j), Some(s.skip(j + 1))),
    decreases s.len(),
{
    if j == 0 {
        assert(s.take(0) =~= Seq::<char>::empty());
        assert(s.drop_first() =~= s.skip(1));
    } else {
        let t = s.drop_first();
        assert forall|k: int| 0 <= k < j - 1 implies t[k] != sep by {
            assert(t[k] == s[k + 1]);
        }
        lemma_split_once_at(t, sep, j - 1);
        assert(seq![s[0]] + t.take(j - 1) =~= s.take(j));
        assert(t.skip(j) =~= s.skip(j + 1));
    }
}

/// Without `sep`, nothing is cut.
pub proof fn lemma_split_once_none(s: Seq<char>, sep: char)
    requires
        forall|k: int| 0 <= k < s.len() ==> s[k] != sep,
    ensures
        split_once(s, sep) == (s, Option::<Seq<char>>::None),
    decreases s.len(),
{
    if s.len() > 0 {
        let t = s.drop_first();
        assert forall|k: int| 0 <= k < t.len() implies t[k] != sep by {
            assert(t[k] == s[k + 1]);
        }
        lemma_split_once_none(t, sep);
        assert(seq![s[0]] + t =~= s);
    }
}

/// The first position of `c` in `s[lo..hi]`.
pub fn find_char(s: &Vec<char>, lo: usize, hi: usize, c: char) -> (r: Option<usize>)
    requires
        lo <= hi <= s@.len(),
    ensures
        match r {
            Some(j) => lo <= j < hi && s@[j as int] == c && forall|k: int|
                lo <= k < j ==> s@[k] != c,
            None => forall|k: int| lo <= k < hi ==> s@[k] != c,
        },
{
    let mut i = lo;
    while i < hi
        invariant
            lo <= i <= hi <= s@.len(),
            forall|k: int| lo <= k < i ==> s@[k] != c,
        decreases hi - i,
    {
        if s[i] == c {
            return Some(i);
        }
        i = i + 1;
    }
    None
}

/// `s[a..b]` cut at its first `sep`, as spans of `s`.
pub fn split_once_spans(s: &Vec<char>, a: usize, b: usize, sep: char) -> (r: (
    (usize, usize),
    Option<(usize, usize)>,
))
    requires
        a <= b <= s@.len(),
    ensures
        a <= r.0.0 <= r.0.1 <= b,
        r.1 is Some ==> a <= r.1->Some_0.0 <= r.1->Some_0.1 <= b,
        split_once(s@.subrange(a as int, b as int), sep) == (
            s@.subrange(r.0.0 as int, r.0.1 as int),
            match r.1 {
                Some(q) => Some(s@.subrange(q.0 as int, q.1 as int)),
                None => None,
            },
        ),
{
    let ghost t = s@.subrange(a as int, b as int);
    match find_char(s, a, b, sep) {
        Some(j) => {
            proof {
                assert forall|k: int| 0 <= k < j - a implies t[k] != sep by {
                    assert(t[k] == s@[a + k]);
                }
                lemma_split_once_at(t, sep, j - a);
                assert(t.take(j - a) =~= s@.subrange(a as int, j as int));
                assert(t.skip(j - a + 1) =~= s@.subrange(j + 1, b as int));
            }
            ((a, j), Some((j + 1, b)))
        },
        None => {
            proof {
                assert forall|k: int| 0 <= k < t.len() implies t[k] != sep by {
                    assert(t[k] == s@[a + k]);
                }
                lemma_split_once_none(t, sep);
            }
            ((a, b), None)
        },
    }
}

/// Whether `s[a..b]` is exactly `p`.
pub fn span_is(s: &Vec<char>, a: usize, b: usize, p: &Vec<char>) -> (r: bool)
    requires
        a <= b <= s@.len(),
    ensures
        r == (s@.subrange(a as int, b as int) == p@),
{
    if b - a != p.len() {
        proof {
            if s@.subrange(a as int, b as int) == p@ {
                assert(s@.subrange(a as int, b as int).len() == b - a);
            }
        }
        return false;
    }
    matches_at(s, a, p)
}

/// The lines of `s[lo..hi]` separated by `\r\n`, as spans of `s`.
pub fn crlf_spans(s: &Vec<char>, lo: usize, hi: usize) -> (r: Vec<(usize, usize)>)
    requires
        lo <= hi <= s@.len(),
    ensures
        spans_view(s@, r@) == split_crlf(s@.subrange(lo as int, hi as int)),
        spans_within(r@, lo as int, hi as int),
{
    let mut out: Vec<(usize, usize)> = Vec::new();
    let mut start: usize = lo;
    let mut i: usize = lo;
    assert(s@.subrange(lo as int, lo as int) =~= Seq::<char>::empty());
    while i < hi
        invariant
            lo <= start <= i <= hi <= s@.len(),
            spans_within(out@, lo as int, i as int),
            !(lo < i < hi && s@[i - 1] == '\r' && s@[i as int] == '\n'),
            split_crlf(s@.subrange(lo as int, i as int)) == spans_view(s@, out@).push(
                s@.subrange(start as int, i as int),
            ),
        decreases hi - i,
    {
        if s[i] == '\r' && i + 1 < hi && s[i + 1] == '\n' {
            let ghost cur = s@.subrange(lo as int, i + 2);
            assert(cur.subrange(0, cur.len() - 2) =~= s@.subrange(lo as int, i as int));
            assert(cur[cur.len() - 2] == '\r' && cur.last() == '\n');
            proof {
                lemma_spans_push(s@, out@, (start, i));
            }
            out.push((start, i));
            start = i + 2;
            i = i + 2;
            assert(s@.subrange(start as int, start as int) =~= Seq::<char>::empty());
        } else {
            let c = s[i];
            let ghost cur = s@.subrange(lo as int, i + 1);
            assert(cur.drop_last() =~= s@.subrange(lo as int, i as int));
            assert(cur.last() == c);
            assert(cur.len() >= 2 ==> cur[cur.len() - 2] == s@[i - 1]);
            assert(s@.subrange(start as int, i as int).push(c) =~= s@.subrange(
                start as int,
                i + 1,
            ));
            i = i + 1;
        }
    }
    proof {
        lemma_spans_push(s@, out@, (start, i));
    }
    out.push((start, i));
    out
}

/// `s[lo..hi]` with every occurrence of `p` taken out.
pub fn remove_all_in(s: &Vec<char>, lo: usize, hi: usize, p: &Vec<char>) -> (r: Vec<char>)
    requires
        lo <= hi <= s@.len(),
    ensures
        r@ == remove_all(s@.subrange(lo as int, hi as int), p@),
{
    let mut out: Vec<char> = Vec::new();
    let mut i: usize = lo;
    while i < hi
        invariant
            lo <= i <= hi <= s@.len(),
            out@ + remove_all(s@.subrange(i as int, hi as int), p@) == remove_all(
                s@.subrange(lo as int, hi as int),
                p@,
            ),
        decreases hi - i,
    {
        let ghost t = s@.subrange(i as int, hi as int);
        if p.len() > 0 && p.len() <= hi - i && matches_at(s, i, p) {
            assert(t.subrange(0, p@.len() as int) =~= s@.subrange(i as int, i + p@.len()));
            assert(t.skip(p@.len() as int) =~= s@.subrange(i + p@.len(), hi as int));
            i = i + p.len();
        } else {
            proof {
                if p@.len() > 0 && p@.is_prefix_of(t) {
                    assert(t.subrange(0, p@.len() as int) =~= s@.subrange(
                        i as int,
                        i + p@.len(),
                    ));
                }
            }
            assert(t.drop_first() =~= s@.subrange(i + 1, hi as int));
            let c = s[i];
            assert(out@.push(c) + remove_all(t.drop_first(), p@) =~= out@ + (seq![c]
                + remove_all(t.drop_first(), p@)));
            out.push(c);
            i = i + 1;
        }
    }
    assert(s@.subrange(i as int, hi as int) =~= Seq::<char>::empty());
    assert(out@ + Seq::<char>::empty() =~= out@);
    out
}

/// A word written after whitespace (or at the start) is one more token.
pub proof fn lemma_tokens_word(s: Seq<char>, w: Seq<char>)
    requires
        s.len() == 0 || is_ws(s.last()),
        w.len() > 0,
        forall|i: int| 0 <= i < w.len() ==> !is_ws(#[trigger] w[i]),
    ensures
        tokens(s + w) == tokens(s).push(w),
    decreases w.len(),
{
    let x = s + w;
    assert(x.drop_last() =~= s + w.drop_last());
    assert(x.last() == w.last());
    if w.len() == 1 {
        assert(s + w.drop_last() =~= s);
        assert(seq![w.last()] =~= w);
        if s.len() > 0 {
            assert(x[x.len() - 2] == s.last());
        }
    } else {
        let u = w.drop_last();
        lemma_tokens_word(s, u);
        assert(x[x.len() - 2] == u.last());
        assert(u.push(w.last()) =~= w);
        assert(tokens(s).push(u).update(tokens(s).len() as int, w) =~= tokens(s).push(w));
    }
}

/// A whitespace character adds no token.
pub proof fn lemma_tokens_ws(s: Seq<char>, c: char)
    requires
        is_ws(c),
    ensures
        tokens(s.push(c)) == tokens(s),
{
    assert(s.push(c).drop_last() =~= s);
}

/// `p` occurs somewhere in `s`.
pub open spec fn contains(s: Seq<char>, p: Seq<char>) -> bool {
    exists|i: int| #[trigger] occurs_at(s, i, p)
}

/// Whether `p` occurs somewhere in `s[lo..hi]`.
pub fn contains_in(s: &Vec<char>, lo: usize, hi: usize, p: &Vec<char>) -> (r: bool)
    requires
        lo <= hi <= s@.len(),
    ensures
        r == contains(s@.subrange(lo as int, hi as int), p@),
{
    let ghost l = s@.subrange(lo as int, hi as int);
    if p.len() > hi - lo {
        assert forall|j: int| !#[trigger] occurs_at(l, j, p@) by {}
        return false;
    }
    if p.len() == 0 {
        assert(l.subrange(0, 0) =~= p@);
        assert(occurs_at(l, 0, p@));
        return true;
    }
    let last = hi - p.len();
    let mut i: usize = lo;
    while i <= last
        invariant
            lo <= i <= last + 1,
            p@.len() > 0,
            last + p@.len() == hi,
            hi <= s@.len(),
            l == s@.subrange(lo as int, hi as int),
            forall|j: int| 0 <= j < i - lo ==> !#[trigger] occurs_at(l, j, p@),
        decreases last + 1 - i,
    {
        let ghost j = i - lo;
        assert(j + p@.len() <= l.len() ==> l.subrange(j, j + p@.len()) =~= s@.subrange(
            i as int,
            i + p@.len(),
        ));
        if matches_at(s, i, p) {
            assert(occurs_at(l, j, p@));
            return true;
        }
        i = i + 1;
    }
    assert forall|j: int| !#[trigger] occurs_at(l, j, p@) by {
        if 0 <= j && j + p@.len() <= l.len() {
            assert(j < i - lo);
        }
    }
    false
}

} // verus!
