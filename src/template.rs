//! The template engine: every `<@=instruction>` tag of a page is replaced
//! by the text that evaluating its instruction gives, in one left-to-right
//! pass.

use vstd::prelude::*;
use crate::text::{chars_of, occurs_at, string_of};

verus! {

#[derive(Clone, Copy, PartialEq, Eq, Structural, Debug)]
pub enum TemplateError {
    /// A tag opens at this character position and no `>` follows it.
    UnterminatedTag(usize),
}

/// The mark that opens a tag.
pub open spec fn open_mark() -> Seq<char> {
    seq!['<', '@', '=']
}

/// A tag opens at position `i` of `s`.
pub open spec fn tag_at(s: Seq<char>, i: int) -> bool {
    occurs_at(s, i, open_mark())
}

/// The position of the first `>` at or after `j`, or -1.
pub open spec fn next_close(s: Seq<char>, j: int) -> int
    decreases s.len() - j,
{
    if j < 0 || j >= s.len() {
        -1
    } else if s[j] == '>' {
        j
    } else {
        next_close(s, j + 1)
    }
}

/// The instructions of the tags of `s` from position `i` on, in order, or
/// the position of the first tag that no `>` closes.
pub open spec fn tags_from(s: Seq<char>, i: int) -> Result<Seq<Seq<char>>, int>
    decreases s.len() - i,
{
    if i < 0 || i >= s.len() {
        Ok(seq![])
    } else if tag_at(s, i) {
        let c = next_close(s, i + 3);
        if c < i + 3 || c >= s.len() {
            Err(i)
        } else {
            match tags_from(s, c + 1) {
                Ok(r) => Ok(seq![s.subrange(i + 3, c)] + r),
                Err(p) => Err(p),
            }
        }
    } else {
        tags_from(s, i + 1)
    }
}

/// `s` from position `i` on, with its tags replaced in turn by `outs`.
pub open spec fn splice_from(s: Seq<char>, i: int, outs: Seq<Seq<char>>) -> Seq<char>
    decreases s.len() - i,
{
    if i < 0 || i >= s.len() {
        seq![]
    } else if tag_at(s, i) && i + 3 <= next_close(s, i + 3) < s.len() {
        outs[0] + splice_from(s, next_close(s, i + 3) + 1, outs.drop_first())
    } else {
        seq![s[i]] + splice_from(s, i + 1, outs)
    }
}

/// The instructions of the tags of a page, or the position of an
/// unterminated tag.
pub open spec fn scan(s: Seq<char>) -> Result<Seq<Seq<char>>, int> {
    tags_from(s, 0)
}

/// The page with its tags replaced in turn by `outs`.
pub open spec fn splice(s: Seq<char>, outs: Seq<Seq<char>>) -> Seq<char> {
    splice_from(s, 0, outs)
}

/// The strings seen as character sequences.
pub open spec fn strings_view(v: Seq<String>) -> Seq<Seq<char>> {
    v.map_values(|x: String| x@)
}

/// The position of the first `>` at or after `j`.
fn close_from(s: &Vec<char>, j: usize) -> (r: Option<usize>)
    requires
        j <= s@.len(),
    ensures
        match r {
            Some(c) => j <= c < s@.len() && next_close(s@, j as int) == c as int,
            None => next_close(s@, j as int) == -1,
        },
{
    let mut k = j;
    while k < s.len()
        invariant
            j <= k <= s@.len(),
            next_close(s@, k as int) == next_close(s@, j as int),
        decreases s@.len() - k,
    {
        if s[k] == '>' {
            return Some(k);
        }
        k = k + 1;
    }
    None
}

/// The instructions of the tags of `page`, in order.
pub fn instructions(page: &str) -> (r: Result<Vec<String>, TemplateError>)
    ensures
        match scan(page@) {
            Ok(t) => r is Ok && strings_view(r->Ok_0@) == t,
            Err(p) => r == Err::<Vec<String>, TemplateError>(TemplateError::UnterminatedTag(p as usize)),
        },
{
    let s = chars_of(page);
    let mark = vec!['<', '@', '='];
    assert(mark@ == open_mark());
    let mut out: Vec<String> = Vec::new();
    let mut i: usize = 0;
    while i < s.len()
        invariant
            i <= s@.len(),
            s@ == page@,
            mark@ == open_mark(),
            scan(s@) == match tags_from(s@, i as int) {
                Ok(r) => Ok(strings_view(out@) + r),
                Err(p) => Err(p),
            },
        decreases s@.len() - i,
    {
        if matches_tag(&s, i, &mark) {
            match close_from(&s, i + 3) {
                None => {
                    return Err(TemplateError::UnterminatedTag(i));
                },
                Some(c) => {
                    let t = string_of(&s, i + 3, c);
                    let ghost old_out = out;
                    out.push(t);
                    assert(strings_view(out@) =~= strings_view(old_out@).push(t@));
                    proof {
                        match tags_from(s@, c + 1) {
                            Ok(r) => {
                                assert(strings_view(old_out@) + (seq![t@] + r) =~= strings_view(
                                    out@,
                                ) + r);
                            },
                            Err(_) => {},
                        }
                    }
                    i = c + 1;
                },
            }
        } else {
            i = i + 1;
        }
    }
    assert(strings_view(out@) + Seq::<Seq<char>>::empty() =~= strings_view(out@));
    Ok(out)
}

fn matches_tag(s: &Vec<char>, i: usize, mark: &Vec<char>) -> (r: bool)
    requires
        i < s@.len(),
        mark@ == open_mark(),
    ensures
        r == tag_at(s@, i as int),
        r ==> i + 3 <= s@.len(),
{
    crate::text::matches_at(s, i, mark)
}

/// `page` with its tags replaced in turn by `outputs`, one per tag.
pub fn splice_outputs(page: &str, outputs: &Vec<String>) -> (r: String)
    requires
        scan(page@) is Ok,
        scan(page@)->Ok_0.len() == outputs@.len(),
    ensures
        r@ == splice(page@, strings_view(outputs@)),
{
    let s = chars_of(page);
    let mark = vec!['<', '@', '='];
    let ghost ov = strings_view(outputs@);
    let mut out: Vec<char> = Vec::new();
    let mut i: usize = 0;
    let mut k: usize = 0;
    let n = outputs.len();
    assert(ov.skip(0) =~= ov);
    assert(out@ + splice_from(s@, 0, ov) =~= splice_from(s@, 0, ov));
    while i < s.len()
        invariant
            n == outputs@.len(),
            i <= s@.len(),
            k <= outputs@.len(),
            s@ == page@,
            mark@ == open_mark(),
            ov == strings_view(outputs@),
            tags_from(s@, i as int) is Ok,
            tags_from(s@, i as int)->Ok_0.len() == outputs@.len() - k,
            splice(s@, ov) == out@ + splice_from(s@, i as int, ov.skip(k as int)),
        decreases s@.len() - i,
    {
        let ghost rest = ov.skip(k as int);
        if matches_tag(&s, i, &mark) {
            let c = match close_from(&s, i + 3) {
                Some(c) => c,
                None => {
                    // the tag is closed: the scan of the page succeeded
                    assert(false);
                    0
                },
            };
            assert(tags_from(s@, c + 1) is Ok);
            assert(tags_from(s@, i as int)->Ok_0.len() == tags_from(s@, c + 1)->Ok_0.len() + 1);
            assert(rest.drop_first() =~= ov.skip(k + 1));
            assert(rest[0] == outputs@[k as int]@);
            let mut piece = chars_of(outputs[k].as_str());
            let ghost before = out@;
            out.append(&mut piece);
            assert(before + (rest[0] + splice_from(s@, c + 1, rest.drop_first())) =~= out@
                + splice_from(s@, c + 1, rest.drop_first()));
            i = c + 1;
            k = k + 1;
        } else {
            let ghost before = out@;
            out.push(s[i]);
            assert(before + (seq![s@[i as int]] + splice_from(s@, i + 1, rest)) =~= out@
                + splice_from(s@, i + 1, rest));
            i = i + 1;
        }
    }
    assert(out@ + Seq::<char>::empty() =~= out@);
    string_of(&out, 0, out.len())
}

/// Renders `page`: each tag, marks included, is replaced by the text that
/// `evaluate` gives for its instruction (the evaluated value, or the text of
/// the evaluation error); the render fails only on a tag that no `>` closes.
pub fn render<F: Fn(String) -> String>(page: String, evaluate: F) -> (r: Result<
    String,
    TemplateError,
>)
    requires
        forall|i: String| #[trigger] evaluate.requires((i,)),
    ensures
        match scan(page@) {
            Err(p) => r == Err::<String, TemplateError>(TemplateError::UnterminatedTag(p as usize)),
            Ok(t) => r is Ok && exists|ins: Seq<String>, outs: Seq<String>|
                {
                    &&& ins.len() == t.len()
                    &&& outs.len() == t.len()
                    &&& forall|k: int|
                        0 <= k < t.len() ==> ins[k]@ == t[k] && #[trigger] evaluate.ensures(
                            (ins[k],),
                            outs[k],
                        )
                    &&& r->Ok_0@ == splice(page@, strings_view(outs))
                },
        },
{
    let instrs = match instructions(page.as_str()) {
        Ok(v) => v,
        Err(e) => return Err(e),
    };
    let mut outs: Vec<String> = Vec::new();
    let mut k: usize = 0;
    while k < instrs.len()
        invariant
            k <= instrs@.len(),
            outs@.len() == k,
            forall|i: String| #[trigger] evaluate.requires((i,)),
            forall|j: int| 0 <= j < k ==> #[trigger] evaluate.ensures((instrs@[j],), outs@[j]),
        decreases instrs@.len() - k,
    {
        let instruction = instrs[k].clone();
        let text = evaluate(instruction);
        outs.push(text);
        k = k + 1;
    }
    let r = splice_outputs(page.as_str(), &outs);
    assert(forall|j: int|
        0 <= j < instrs@.len() ==> instrs@[j]@ == strings_view(instrs@)[j]);
    Ok(r)
}

/// No tag opens anywhere in `s`.
pub open spec fn tag_free(s: Seq<char>) -> bool {
    forall|k: int| !#[trigger] tag_at(s, k)
}

/// Over a stretch where no tag opens, the scan finds nothing and the
/// splice copies the characters.
proof fn lemma_plain_stretch(s: Seq<char>, i: int, j: int, outs: Seq<Seq<char>>)
    requires
        0 <= i <= j <= s.len(),
        forall|k: int| i <= k < j ==> !#[trigger] tag_at(s, k),
    ensures
        tags_from(s, i) == tags_from(s, j),
        splice_from(s, i, outs) == s.subrange(i, j) + splice_from(s, j, outs),
    decreases j - i,
{
    if i < j {
        lemma_plain_stretch(s, i + 1, j, outs);
        assert(s.subrange(i, j) =~= seq![s[i]] + s.subrange(i + 1, j));
    } else {
        assert(s.subrange(i, j) =~= Seq::<char>::empty());
    }
}

proof fn lemma_close_at(s: Seq<char>, j: int, c: int)
    requires
        0 <= j <= c < s.len(),
        s[c] == '>',
        forall|k: int| j <= k < c ==> s[k] != '>',
    ensures
        next_close(s, j) == c,
    decreases c - j,
{
    if j < c {
        lemma_close_at(s, j + 1, c);
    }
}

/// A page without tags renders to itself: its scan finds no tag, and the
/// splice of no outputs is the page unchanged.
pub proof fn lemma_render_tag_free(s: Seq<char>)
    requires
        tag_free(s),
    ensures
        scan(s) == Ok::<Seq<Seq<char>>, int>(seq![]),
        forall|outs: Seq<Seq<char>>| #[trigger] splice(s, outs) == s,
{
    lemma_plain_stretch(s, 0, s.len() as int, seq![]);
    assert forall|outs: Seq<Seq<char>>| #[trigger] splice(s, outs) == s by {
        lemma_plain_stretch(s, 0, s.len() as int, outs);
        assert(s.subrange(0, s.len() as int) + Seq::<char>::empty() =~= s);
    }
}

/// A page with exactly one well-formed tag: the scan finds its instruction
/// alone, and the splice of the value `v` replaces the tag, marks included,
/// by `v` and changes nothing else.
pub proof fn lemma_render_one_tag(
    pre: Seq<char>,
    instr: Seq<char>,
    post: Seq<char>,
    v: Seq<char>,
)
    requires
        tag_free(pre),
        tag_free(post),
        forall|k: int| 0 <= k < instr.len() ==> instr[k] != '>',
    ensures
        scan(pre + open_mark() + instr + seq!['>'] + post) == Ok::<Seq<Seq<char>>, int>(
            seq![instr],
        ),
        splice(pre + open_mark() + instr + seq!['>'] + post, seq![v]) == pre + v + post,
{
    let s = pre + open_mark() + instr + seq!['>'] + post;
    let p = pre.len() as int;
    let c = p + 3 + instr.len();
    assert forall|k: int| 0 <= k < p implies !#[trigger] tag_at(s, k) by {
        if k + 3 <= p {
            assert(s.subrange(k, k + 3) =~= pre.subrange(k, k + 3));
            assert(!tag_at(pre, k));
        } else {
            assert(s[p] == '<');
        }
    }
    assert(tag_at(s, p)) by {
        assert(s.subrange(p, p + 3) =~= open_mark());
    }
    assert forall|k: int| p + 3 <= k < c implies s[k] != '>' by {
        assert(s[k] == instr[k - p - 3]);
    }
    assert(s[c] == '>');
    lemma_close_at(s, p + 3, c);
    assert forall|k: int| c + 1 <= k < s.len() implies !#[trigger] tag_at(s, k) by {
        if k + 3 <= s.len() {
            assert(s.subrange(k, k + 3) =~= post.subrange(k - c - 1, k - c + 2));
            assert(!tag_at(post, k - c - 1));
        }
    }
    lemma_plain_stretch(s, 0, p, seq![v]);
    lemma_plain_stretch(s, c + 1, s.len() as int, seq![]);
    assert(s.subrange(p + 3, c) =~= instr);
    assert(seq![instr] + Seq::<Seq<char>>::empty() =~= seq![instr]);
    assert(seq![v].drop_first() =~= Seq::<Seq<char>>::empty());
    assert(s.subrange(0, p) =~= pre);
    assert(s.subrange(c + 1, s.len() as int) =~= post);
    assert(splice_from(s, s.len() as int, seq![]) == Seq::<char>::empty());
    assert(pre + (v + (post + Seq::<char>::empty())) =~= pre + v + post);
}

} // verus!
