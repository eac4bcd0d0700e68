//! The reader looks only ahead: what it does from a position depends on the
//! characters from there on. From that follow the laws on what the reader
//! skips: comments, text between tags, and a space before the end of a tag.

use vstd::prelude::*;

use crate::chars::{find_pattern, matches_at, next_char};
use crate::document::{SpecEvent, WriteTo};
use crate::document::NodeType;
use crate::reading::{comment_close, comment_open, run, scan_attribute, step, step_close, ParserState, Step};

verus! {

/// A step as it is seen from `n` characters further on.
pub open spec fn shifted(s: Step, n: int) -> Step {
    match s {
        Step::Next(p, st) => Step::Next(p + n, st),
        _ => s,
    }
}

proof fn lemma_shift_index(p: Seq<char>, d: Seq<char>, i: int)
    requires
        0 <= i < d.len(),
    ensures
        (p + d)[p.len() + i] == d[i],
{
}

proof fn lemma_shift_subrange(p: Seq<char>, d: Seq<char>, a: int, b: int)
    requires
        0 <= a <= b <= d.len(),
    ensures
        (p + d).subrange(p.len() + a, p.len() + b) == d.subrange(a, b),
{
    assert((p + d).subrange(p.len() + a, p.len() + b) =~= d.subrange(a, b));
}

proof fn lemma_shift_next_char(p: Seq<char>, d: Seq<char>, c: char, j: int)
    requires
        0 <= j,
    ensures
        next_char(p + d, c, p.len() + j) == next_char(d, c, j) + p.len(),
    decreases d.len() - j,
{
    if j < d.len() {
        lemma_shift_index(p, d, j);
        lemma_shift_next_char(p, d, c, j + 1);
    }
}

proof fn lemma_shift_matches(p: Seq<char>, d: Seq<char>, pat: Seq<char>, j: int)
    requires
        0 <= j,
        j + pat.len() <= d.len(),
    ensures
        matches_at(p + d, pat, p.len() + j) == matches_at(d, pat, j),
{
    lemma_shift_subrange(p, d, j, j + pat.len());
}

proof fn lemma_shift_find_pattern(p: Seq<char>, d: Seq<char>, pat: Seq<char>, j: int)
    requires
        0 <= j,
    ensures
        find_pattern(p + d, pat, p.len() + j) == match find_pattern(d, pat, j) {
            Some(i) => Some(i + p.len()),
            None => None::<int>,
        },
    decreases d.len() - j,
{
    if j + pat.len() <= d.len() {
        lemma_shift_matches(p, d, pat, j);
        if !matches_at(d, pat, j) && j < d.len() {
            lemma_shift_find_pattern(p, d, pat, j + 1);
        }
    }
}

proof fn lemma_shift_scan(p: Seq<char>, d: Seq<char>, q: int, st: ParserState)
    requires
        0 <= q,
    ensures
        scan_attribute(p + d, p.len() + q, st) == shifted(scan_attribute(d, q, st), p.len() as int),
    decreases d.len() - q,
{
    if q < d.len() {
        lemma_shift_index(p, d, q);
        lemma_shift_scan(p, d, q + 1, st);
    }
}

proof fn lemma_shift_step(p: Seq<char>, d: Seq<char>, i: int, st: ParserState)
    requires
        0 <= i < d.len(),
    ensures
        step(p + d, p.len() + i, st) == shifted(step(d, i, st), p.len() as int),
{
    let n = p.len() as int;
    lemma_shift_index(p, d, i);
    let c = d[i];
    if i + 4 <= d.len() {
        lemma_shift_matches(p, d, comment_open(), i + 1);
        lemma_shift_find_pattern(p, d, comment_close(), i + 4);
        match find_pattern(d, comment_close(), i + 4) {
            Some(j) => {
                crate::chars::lemma_find_pattern(d, comment_close(), i + 4);
                lemma_shift_subrange(p, d, i + 4, j);
            },
            None => {
                lemma_shift_subrange(p, d, i + 4, d.len() as int);
            },
        }
    }
    lemma_shift_scan(p, d, i + 1, st);
    lemma_shift_next_char(p, d, c, i + 1);
    crate::chars::lemma_next_char(d, c, i + 1);
    let j = next_char(d, c, i + 1);
    if j < d.len() {
        lemma_shift_subrange(p, d, i + 1, j);
    }
}

/// Reading `p + d` from the start of `d` is reading `d`.
pub proof fn lemma_shift_run(p: Seq<char>, d: Seq<char>, i: int, st: ParserState)
    requires
        0 <= i,
    ensures
        run(p + d, p.len() + i, st) == run(d, i, st),
    decreases d.len() - i,
{
    if i < d.len() {
        lemma_shift_step(p, d, i, st);
        match step(d, i, st) {
            Step::Next(q, s) => {
                if i < q <= d.len() {
                    lemma_shift_run(p, d, q, s);
                }
            },
            _ => {},
        }
    }
}

proof fn lemma_find_first(s: Seq<char>, pat: Seq<char>, from: int, i: int)
    requires
        0 <= from <= i,
        i + pat.len() <= s.len(),
        matches_at(s, pat, i),
        forall|j: int| from <= j < i ==> !#[trigger] matches_at(s, pat, j),
    ensures
        find_pattern(s, pat, from) == Some(i),
    decreases i - from,
{
    if from < i {
        lemma_find_first(s, pat, from + 1, i);
    }
}

/// `<!--text-->`.
pub open spec fn comment(text: Seq<char>) -> Seq<char> {
    seq!['<'] + comment_open() + text + comment_close()
}

/// `text` is closed by the `-->` put after it, and not earlier.
pub open spec fn closed_by_its_end(text: Seq<char>) -> bool {
    forall|j: int| 0 <= j < text.len() ==> !#[trigger] matches_at(text + comment_close(), comment_close(), j)
}

/// Comments are skipped with their delimiters: in whatever state the reader
/// meets `<!--text-->`, it reports the comment and goes on with the rest in
/// the state it was in.
pub proof fn law_comment_leaves_state(text: Seq<char>, rest: Seq<char>, st: ParserState)
    requires
        closed_by_its_end(text),
    ensures
        run(comment(text) + rest, 0, st) == run(
            rest,
            0,
            ParserState { events: st.events.push(SpecEvent::Comment(text)), ..st },
        ),
{
    let p = comment(text);
    let input = p + rest;
    let t = text.len() as int;
    let closer = comment_close();
    assert(input[0] == '<');
    assert(input.subrange(1, 4) =~= comment_open());
    assert(input.subrange(4 + t, 7 + t) =~= closer);
    assert forall|j: int| 4 <= j < 4 + t implies !#[trigger] matches_at(input, closer, j) by {
        assert(input.subrange(j, j + 3) =~= (text + closer).subrange(j - 4, j - 1));
        assert(!matches_at(text + closer, closer, j - 4));
    }
    lemma_find_first(input, closer, 4, 4 + t);
    assert(input.subrange(4, 4 + t) =~= text);
    let st1 = ParserState { events: st.events.push(SpecEvent::Comment(text)), ..st };
    assert(step(input, 0, st) == Step::Next(7 + t, st1));
    assert(p.len() == 7 + t);
    lemma_shift_run(p, rest, 0, st1);
}

proof fn lemma_text_run(x: Seq<char>, d: Seq<char>, i: int, st: ParserState)
    requires
        0 <= i <= x.len(),
        st.writing_to == WriteTo::Content,
        forall|j: int| 0 <= j < x.len() ==> x[j] != '<',
    ensures
        run(x + d, i, st) == run(x + d, x.len() as int, st),
    decreases x.len() - i,
{
    if i < x.len() {
        assert((x + d)[i] == x[i]);
        lemma_text_run(x, d, i + 1, st);
    }
}

/// Text between tags is skipped: where the reader is reading content, text
/// without `<` changes nothing.
pub proof fn law_text_is_skipped(text: Seq<char>, rest: Seq<char>, st: ParserState)
    requires
        st.writing_to == WriteTo::Content,
        forall|j: int| 0 <= j < text.len() ==> text[j] != '<',
    ensures
        run(text + rest, 0, st) == run(rest, 0, st),
{
    lemma_text_run(text, rest, 0, st);
    lemma_shift_run(text, rest, 0, st);
}

/// `d` starts with `>` or with `/>`.
pub open spec fn starts_tag_end(d: Seq<char>) -> bool {
    d.len() > 0 && (d[0] == '>' || (d.len() > 1 && d[0] == '/' && d[1] == '>'))
}

proof fn lemma_tag_end_ignores_target(d: Seq<char>, st: ParserState, w: WriteTo)
    requires
        starts_tag_end(d),
        st.writing_to != WriteTo::Content,
        w != WriteTo::Content,
    ensures
        run(d, 0, ParserState { writing_to: w, ..st }) == run(d, 0, st),
{
    let st1 = ParserState { writing_to: w, ..st };
    if d[0] == '>' {
        assert(step_close(0, st1) == step_close(0, st));
    } else {
        let nt = if st.node.tag.len() == 0 {
            NodeType::Closing
        } else {
            NodeType::SelfClosing
        };
        let a = ParserState { node_type: nt, ..st1 };
        let b = ParserState { node_type: nt, ..st };
        assert(step(d, 0, st1) == Step::Next(1, a));
        assert(step(d, 0, st) == Step::Next(1, b));
        assert(step_close(1, a) == step_close(1, b));
        assert(step(d, 1, a) == step(d, 1, b));
        assert(run(d, 1, a) == run(d, 1, b));
    }
}

/// A space before the end of a tag changes nothing: `>` and `/>` end a tag
/// the same way with or without a space before them.
pub proof fn law_space_before_tag_end(rest: Seq<char>, st: ParserState)
    requires
        starts_tag_end(rest),
    ensures
        run(seq![' '] + rest, 0, st) == run(rest, 0, st),
{
    let p = seq![' '];
    let input = p + rest;
    assert(input[0] == ' ');
    assert(input[1] == rest[0]);
    lemma_shift_run(p, rest, 0, st);
    if st.writing_to != WriteTo::Content && st.node_type == NodeType::Opening && st.writing_to == WriteTo::Tag {
        let st1 = ParserState { writing_to: WriteTo::AttrName, ..st };
        assert(step(input, 0, st) == Step::Next(1, st1));
        lemma_shift_run(p, rest, 0, st1);
        lemma_tag_end_ignores_target(rest, st, WriteTo::AttrName);
    }
}

} // verus!
