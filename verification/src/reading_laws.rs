//! What holds of every document the reader reads.

use vstd::prelude::*;

use crate::document::{NodeType, SpecEvent, SpecFailure, SpecTrace, WriteTo};
use crate::node::SpecNode;
use crate::reading::{
    finish, initial_state, is_space, read_document, run, scan_attribute, step, step_close, with_attribute,
    ParserState, Step,
};

verus! {

/// The tags of a sequence of elements.
pub open spec fn tags_of(nodes: Seq<SpecNode>) -> Seq<Seq<char>> {
    nodes.map_values(|n: SpecNode| n.tag)
}

/// The open tags after one more event, where the event fits them: an opening
/// tag at the depth of the open tags, a self-closing tag at that depth, a
/// closing tag of the innermost open element at the depth that stays open.
pub open spec fn after_event(tags: Seq<Seq<char>>, e: SpecEvent) -> Option<Seq<Seq<char>>> {
    match e {
        SpecEvent::Open { depth, node } => if depth == tags.len() {
            Some(tags.push(node.tag))
        } else {
            None
        },
        SpecEvent::SelfClosing { depth, node } => if depth == tags.len() {
            Some(tags)
        } else {
            None
        },
        SpecEvent::Close { depth, tag } => if tags.len() > 0 && depth == tags.len() - 1 && tag == tags.last() {
            Some(tags.drop_last())
        } else {
            None
        },
        _ => Some(tags),
    }
}

/// The tags left open by a sequence of events that nest properly; `None`
/// where an event does not fit.
pub open spec fn open_tags(events: Seq<SpecEvent>) -> Option<Seq<Seq<char>>>
    decreases events.len(),
{
    if events.len() == 0 {
        Some(Seq::empty())
    } else {
        match open_tags(events.drop_last()) {
            Some(tags) => after_event(tags, events.last()),
            None => None,
        }
    }
}

/// What the events reported with a refusal tell of it: a closing tag with no
/// element open comes after properly nested events that leave nothing open; a
/// closing tag that does not name the innermost open element is reported
/// last, after properly nested events whose innermost open element is the one
/// reported with the refusal.
pub open spec fn refusal_fits(events: Seq<SpecEvent>, f: SpecFailure) -> bool {
    match f {
        SpecFailure::ClosingWithoutOpening { .. } => open_tags(events) == Some(Seq::<Seq<char>>::empty()),
        SpecFailure::RogueClosingNode { tag, last } => {
            &&& tag != last.tag
            &&& events.len() > 0
            &&& open_tags(events.drop_last()) matches Some(tags)
            &&& tags.len() > 0
            &&& tags.last() == last.tag
            &&& events.last() == SpecEvent::Close { depth: (tags.len() - 1) as nat, tag }
        },
        _ => true,
    }
}

/// The events of a state account for its stack, and no attribute value is
/// pending.
pub open spec fn consistent(st: ParserState) -> bool {
    &&& open_tags(st.events) == Some(tags_of(st.stack))
    &&& st.attr_value.len() == 0
}

proof fn lemma_open_tags_push(events: Seq<SpecEvent>, e: SpecEvent)
    ensures
        open_tags(events.push(e)) == match open_tags(events) {
            Some(tags) => after_event(tags, e),
            None => None,
        },
{
    assert(events.push(e).drop_last() =~= events);
}

proof fn lemma_scan_keeps(input: Seq<char>, q: int, st: ParserState)
    requires
        consistent(st),
    ensures
        scan_attribute(input, q, st) matches Step::Next(_, s) && consistent(s) && s.stack == st.stack && s.events == st.events,
    decreases input.len() - q,
{
    if 0 <= q < input.len() && input[q] != '=' && is_space(input[q]) {
        lemma_scan_keeps(input, q + 1, st);
    }
}

proof fn lemma_close_keeps(pos: int, st: ParserState)
    requires
        consistent(st),
    ensures
        step_close(pos, st) matches Step::Next(_, s) ==> consistent(s),
        step_close(pos, st) matches Step::Break(s) ==> consistent(s),
        step_close(pos, st) matches Step::Fail(_, f) ==> !(f is AttrValueNotClosed) && !(f is UnclosedNodes),
        step_close(pos, st) matches Step::Fail(evs, f) ==> refusal_fits(evs, f),
{
    let node = if st.attr_name.len() > 0 {
        with_attribute(st.node, st.attr_name, st.attr_value)
    } else {
        st.node
    };
    let tags = tags_of(st.stack);
    match st.node_type {
        NodeType::Opening => {
            lemma_open_tags_push(st.events, SpecEvent::Open { depth: st.stack.len(), node });
            assert(tags_of(st.stack.push(node)) =~= tags.push(node.tag));
        },
        NodeType::SelfClosing => {
            lemma_open_tags_push(st.events, SpecEvent::SelfClosing { depth: st.stack.len(), node });
        },
        NodeType::Closing => {
            if st.stack.len() > 0 {
                let e = SpecEvent::Close { depth: (st.stack.len() - 1) as nat, tag: node.tag };
                lemma_open_tags_push(st.events, e);
                assert(tags_of(st.stack.drop_last()) =~= tags.drop_last());
                assert(st.events.push(e).drop_last() =~= st.events);
            } else {
                assert(tags =~= Seq::<Seq<char>>::empty());
            }
        },
        NodeType::Unset => {},
    }
}

/// Every step keeps a consistent state consistent.
proof fn lemma_step_keeps(input: Seq<char>, pos: int, st: ParserState)
    requires
        0 <= pos < input.len(),
        consistent(st),
    ensures
        step(input, pos, st) matches Step::Next(_, s) ==> consistent(s),
        step(input, pos, st) matches Step::Break(s) ==> consistent(s),
        step(input, pos, st) matches Step::Fail(_, f) ==> !(f is AttrValueNotClosed) && !(f is UnclosedNodes),
        step(input, pos, st) matches Step::Fail(evs, f) ==> refusal_fits(evs, f),
{
    let c = input[pos];
    if st.writing_to == WriteTo::Content && c != '<' {
    } else if c == '<' {
        let st1 = st;
        lemma_open_tags_push(st1.events, SpecEvent::Comment(Seq::empty()));
        assert forall|t: Seq<char>| #![auto] open_tags(st1.events.push(SpecEvent::Comment(t))) == open_tags(st1.events)
            && open_tags(st1.events.push(SpecEvent::UnclosedComment(t))) == open_tags(st1.events) by {
            lemma_open_tags_push(st1.events, SpecEvent::Comment(t));
            lemma_open_tags_push(st1.events, SpecEvent::UnclosedComment(t));
        }
    } else if c == '>' {
        lemma_close_keeps(pos, st);
    } else if is_space(c) {
        if st.node_type == NodeType::Opening && st.writing_to == WriteTo::AttrName {
            lemma_scan_keeps(input, pos + 1, st);
        }
    }
}

/// Reading from a consistent state ends consistently: unless a step refuses
/// the document, the events account for the elements still open.
proof fn lemma_run_keeps(input: Seq<char>, pos: int, st: ParserState)
    requires
        0 <= pos,
        consistent(st),
    ensures
        run(input, pos, st).failure is None ==> open_tags(run(input, pos, st).events) == Some(Seq::<Seq<char>>::empty()),
        run(input, pos, st).failure matches Some(SpecFailure::UnclosedNodes(stack)) ==> stack.len() > 0
            && open_tags(run(input, pos, st).events) == Some(tags_of(stack)),
        !(run(input, pos, st).failure matches Some(SpecFailure::AttrValueNotClosed { .. })),
        run(input, pos, st).failure matches Some(f) ==> refusal_fits(run(input, pos, st).events, f),
    decreases input.len() - pos,
{
    if pos < input.len() {
        lemma_step_keeps(input, pos, st);
        match step(input, pos, st) {
            Step::Next(p, s) => {
                if pos < p <= input.len() {
                    lemma_run_keeps(input, p, s);
                }
            },
            _ => {},
        }
    }
}

/// Elements nest: in the events of every document that is read to its end
/// without refusal, each opening tag is reported at the depth of the elements
/// open around it, each closing tag names the innermost open element and is
/// reported at the depth that stays open, and no element is left open.
pub proof fn law_accepted_documents_nest(input: Seq<char>)
    requires
        read_document(input).failure is None,
    ensures
        open_tags(read_document(input).events) == Some(Seq::<Seq<char>>::empty()),
{
    assert(open_tags(initial_state().events) == Some(tags_of(initial_state().stack))) by {
        assert(tags_of(initial_state().stack) =~= Seq::<Seq<char>>::empty());
    }
    lemma_run_keeps(input, 0, initial_state());
}

/// A closing tag is refused only where it does not fit: with nothing open,
/// after events that nest and leave nothing open; or, naming another element
/// than the innermost open one, as the last event, reported with that element.
pub proof fn law_refused_closing_tags(input: Seq<char>)
    ensures
        read_document(input).failure matches Some(f) ==> refusal_fits(read_document(input).events, f),
{
    assert(tags_of(initial_state().stack) =~= Seq::<Seq<char>>::empty());
    lemma_run_keeps(input, 0, initial_state());
}

/// A document refused for elements left open reports exactly those elements:
/// its events nest properly and leave open the tags of the reported elements.
pub proof fn law_unclosed_elements_are_reported(input: Seq<char>)
    requires
        read_document(input).failure matches Some(SpecFailure::UnclosedNodes(_)),
    ensures
        read_document(input).failure matches Some(SpecFailure::UnclosedNodes(stack)) && stack.len() > 0
            && open_tags(read_document(input).events) == Some(tags_of(stack)),
{
    assert(tags_of(initial_state().stack) =~= Seq::<Seq<char>>::empty());
    lemma_run_keeps(input, 0, initial_state());
}

/// The value buffer of the attribute being read is never filled: no document
/// is refused for an attribute value left open at `>`.
pub proof fn law_no_pending_attribute_value(input: Seq<char>)
    ensures
        !(read_document(input).failure matches Some(SpecFailure::AttrValueNotClosed { .. })),
{
    assert(tags_of(initial_state().stack) =~= Seq::<Seq<char>>::empty());
    lemma_run_keeps(input, 0, initial_state());
}

proof fn lemma_text_is_skipped(input: Seq<char>, pos: int)
    requires
        0 <= pos,
        forall|i: int| 0 <= i < input.len() ==> input[i] != '<',
    ensures
        run(input, pos, initial_state()) == finish(initial_state()),
    decreases input.len() - pos,
{
    if pos < input.len() {
        lemma_text_is_skipped(input, pos + 1);
    }
}

/// Text outside markup is skipped: a document without `<` gives no event and
/// is accepted.
pub proof fn law_plain_text_gives_nothing(input: Seq<char>)
    requires
        forall|i: int| 0 <= i < input.len() ==> input[i] != '<',
    ensures
        read_document(input) == (SpecTrace { events: Seq::empty(), failure: None }),
{
    lemma_text_is_skipped(input, 0);
}

} // verus!
