//! The reader as a state machine over the characters of a document.
//!
//! `read_document` is what reading gives: the machine starts in
//! `initial_state` at the first character, and each `step` consumes one
//! character or, for comments, quoted attribute values and the gap after an
//! attribute name, a run of characters.

use vstd::prelude::*;

use crate::chars::{find_pattern, matches_at, next_char};
use crate::document::{NodeType, SpecEvent, SpecFailure, SpecTrace, WriteTo};
use crate::node::SpecNode;

verus! {

/// The state of the reader between two steps.
pub struct ParserState {
    /// The open elements, outermost first.
    pub stack: Seq<SpecNode>,
    /// The element being read.
    pub node: SpecNode,
    /// The name of the attribute being read.
    pub attr_name: Seq<char>,
    /// The value of the attribute being read.
    pub attr_value: Seq<char>,
    pub node_type: NodeType,
    pub writing_to: WriteTo,
    /// The events so far.
    pub events: Seq<SpecEvent>,
}

/// What one step does: go on at a position, stop reading, or refuse the
/// document with the events reported so far.
pub enum Step {
    Next(int, ParserState),
    Break(ParserState),
    Fail(Seq<SpecEvent>, SpecFailure),
}

/// The characters that separate attributes.
pub open spec fn is_space(c: char) -> bool {
    c == ' ' || c == '\n' || c == '\t'
}

/// `<!--`, after its `<`.
pub open spec fn comment_open() -> Seq<char> {
    seq!['!', '-', '-']
}

/// `-->`.
pub open spec fn comment_close() -> Seq<char> {
    seq!['-', '-', '>']
}

/// The state in which reading starts.
pub open spec fn initial_state() -> ParserState {
    ParserState {
        stack: Seq::empty(),
        node: SpecNode::empty(),
        attr_name: Seq::empty(),
        attr_value: Seq::empty(),
        node_type: NodeType::Unset,
        writing_to: WriteTo::Content,
        events: Seq::empty(),
    }
}

/// `st` with a fresh element and attribute, reading content.
pub open spec fn reset(st: ParserState) -> ParserState {
    ParserState {
        node: SpecNode::empty(),
        attr_name: Seq::empty(),
        attr_value: Seq::empty(),
        node_type: NodeType::Unset,
        writing_to: WriteTo::Content,
        ..st
    }
}

/// `node` with attribute `name` set to `value`.
pub open spec fn with_attribute(node: SpecNode, name: Seq<char>, value: Seq<char>) -> SpecNode {
    SpecNode { attributes: node.attributes.insert(name, value), ..node }
}

/// `<`: a node starts. `<!--` starts a comment instead, which runs to the
/// next `-->` and is skipped with its delimiters: reading goes on after it in
/// the state it had before the `<`.
pub open spec fn step_open(input: Seq<char>, pos: int, st: ParserState) -> Step {
    if pos + 4 <= input.len() && matches_at(input, comment_open(), pos + 1) {
        match find_pattern(input, comment_close(), pos + 4) {
            Some(j) => Step::Next(
                j + 3,
                ParserState { events: st.events.push(SpecEvent::Comment(input.subrange(pos + 4, j))), ..st },
            ),
            None => Step::Break(
                ParserState {
                    events: st.events.push(SpecEvent::UnclosedComment(input.subrange(pos + 4, input.len() as int))),
                    ..st
                },
            ),
        }
    } else {
        Step::Next(pos + 1, ParserState { node_type: NodeType::Opening, writing_to: WriteTo::Tag, ..st })
    }
}

/// `>`: the pending attribute is stored and the node is finished.
pub open spec fn step_close(pos: int, st: ParserState) -> Step {
    if st.attr_name.len() > 0 && st.attr_value.len() > 0 {
        Step::Fail(st.events, SpecFailure::AttrValueNotClosed { name: st.attr_name, node: st.node })
    } else {
        let node = if st.attr_name.len() > 0 {
            with_attribute(st.node, st.attr_name, st.attr_value)
        } else {
            st.node
        };
        let depth = st.stack.len();
        match st.node_type {
            NodeType::Opening => Step::Next(
                pos + 1,
                reset(
                    ParserState {
                        stack: st.stack.push(node),
                        events: st.events.push(SpecEvent::Open { depth, node }),
                        ..st
                    },
                ),
            ),
            NodeType::SelfClosing => Step::Next(
                pos + 1,
                reset(ParserState { events: st.events.push(SpecEvent::SelfClosing { depth, node }), ..st }),
            ),
            NodeType::Closing => {
                if depth == 0 {
                    Step::Fail(st.events, SpecFailure::ClosingWithoutOpening { tag: node.tag })
                } else {
                    let events = st.events.push(SpecEvent::Close { depth: (depth - 1) as nat, tag: node.tag });
                    let last = st.stack.last();
                    if node.tag == last.tag {
                        Step::Next(pos + 1, reset(ParserState { stack: st.stack.drop_last(), events, ..st }))
                    } else {
                        Step::Fail(events, SpecFailure::RogueClosingNode { tag: node.tag, last })
                    }
                }
            },
            NodeType::Unset => Step::Next(pos + 1, reset(st)),
        }
    }
}

/// After whitespace that follows an attribute name: skip whitespace; `=`
/// starts the value; `>` and `/` are left to the next step, which ends the
/// node or marks it self-closing; any other character starts the next
/// attribute name, and the pending attribute is stored with an empty value.
pub open spec fn scan_attribute(input: Seq<char>, q: int, st: ParserState) -> Step
    decreases input.len() - q,
{
    if q < 0 || q >= input.len() {
        Step::Next(input.len() as int, st)
    } else {
        let c = input[q];
        if c == '=' {
            Step::Next(q + 1, ParserState { writing_to: WriteTo::AttrVal, ..st })
        } else if c == '>' || c == '/' {
            Step::Next(q, st)
        } else if is_space(c) {
            scan_attribute(input, q + 1, st)
        } else {
            let st1 = if st.attr_name.len() > 0 {
                ParserState {
                    node: with_attribute(st.node, st.attr_name, Seq::empty()),
                    attr_name: Seq::empty(),
                    attr_value: Seq::empty(),
                    ..st
                }
            } else {
                st
            };
            Step::Next(q + 1, ParserState { attr_name: st1.attr_name.push(c), ..st1 })
        }
    }
}

/// Whitespace: in an opening tag it ends the tag name, or an attribute name.
pub open spec fn step_space(input: Seq<char>, pos: int, st: ParserState) -> Step {
    if st.node_type == NodeType::Opening {
        match st.writing_to {
            WriteTo::Tag => Step::Next(pos + 1, ParserState { writing_to: WriteTo::AttrName, ..st }),
            WriteTo::AttrName => scan_attribute(input, pos + 1, st),
            _ => Step::Next(pos + 1, st),
        }
    } else {
        Step::Next(pos + 1, st)
    }
}

/// A quote: where a value is expected, the value runs to the next quote of
/// the same kind and is stored under the pending name.
pub open spec fn step_quote(input: Seq<char>, pos: int, st: ParserState) -> Step {
    if st.writing_to == WriteTo::AttrVal {
        let j = next_char(input, input[pos], pos + 1);
        if j < input.len() {
            Step::Next(
                j + 1,
                ParserState {
                    node: with_attribute(st.node, st.attr_name, input.subrange(pos + 1, j)),
                    attr_name: Seq::empty(),
                    attr_value: Seq::empty(),
                    writing_to: WriteTo::AttrName,
                    ..st
                },
            )
        } else {
            Step::Fail(st.events, SpecFailure::MissingEndQuote { name: st.attr_name, node: st.node })
        }
    } else {
        Step::Fail(st.events, SpecFailure::MisplacedQuote)
    }
}

/// One step of the reader at `input[pos]`.
pub open spec fn step(input: Seq<char>, pos: int, st: ParserState) -> Step {
    let c = input[pos];
    if st.writing_to == WriteTo::Content && c != '<' {
        Step::Next(pos + 1, st)
    } else if c == '<' {
        step_open(input, pos, st)
    } else if c == '/' {
        let node_type = if st.node.tag.len() == 0 {
            NodeType::Closing
        } else {
            NodeType::SelfClosing
        };
        Step::Next(pos + 1, ParserState { node_type, ..st })
    } else if c == '>' {
        step_close(pos, st)
    } else if is_space(c) {
        step_space(input, pos, st)
    } else if c == '=' {
        if st.node_type == NodeType::Opening && st.writing_to == WriteTo::AttrName {
            Step::Next(pos + 1, ParserState { writing_to: WriteTo::AttrVal, ..st })
        } else {
            Step::Fail(st.events, SpecFailure::MisplacedEqualSign)
        }
    } else if c == '"' || c == '\'' {
        step_quote(input, pos, st)
    } else {
        match st.writing_to {
            WriteTo::Tag => Step::Next(
                pos + 1,
                ParserState { node: SpecNode { tag: st.node.tag.push(c), ..st.node }, ..st },
            ),
            WriteTo::AttrName => Step::Next(pos + 1, ParserState { attr_name: st.attr_name.push(c), ..st }),
            _ => Step::Fail(st.events, SpecFailure::UnexpectedCharacter),
        }
    }
}

/// The end of reading: elements that are still open refuse the document.
pub open spec fn finish(st: ParserState) -> SpecTrace {
    if st.stack.len() > 0 {
        SpecTrace { events: st.events, failure: Some(SpecFailure::UnclosedNodes(st.stack)) }
    } else {
        SpecTrace { events: st.events, failure: None }
    }
}

/// Reading from `input[pos]` on, in state `st`.
pub open spec fn run(input: Seq<char>, pos: int, st: ParserState) -> SpecTrace
    decreases input.len() - pos,
{
    if pos < 0 || pos >= input.len() {
        finish(st)
    } else {
        match step(input, pos, st) {
            Step::Next(p, s) => if pos < p <= input.len() {
                run(input, p, s)
            } else {
                finish(s)
            },
            Step::Break(s) => finish(s),
            Step::Fail(events, failure) => SpecTrace { events, failure: Some(failure) },
        }
    }
}

/// What reading `input` gives.
pub open spec fn read_document(input: Seq<char>) -> SpecTrace {
    run(input, 0, initial_state())
}

} // verus!
