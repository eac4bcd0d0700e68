//! The reader: walks a document and reports what it finds.

use vstd::prelude::*;

use crate::chars::{chars_eq, chars_of, copy_range, find_char_from, find_pattern_from, lemma_find_pattern, lemma_next_char};
use crate::document::{events_view, nodes_view, NodeType, ParseTrace, WriteTo, XmlError, XmlEvent};
use crate::node::{Attr, ParsedNode, SpecNode};
use crate::reading::{
    comment_close, comment_open, finish, initial_state, read_document, reset, run, scan_attribute, step,
    step_close, step_open, step_quote, step_space, with_attribute, ParserState, Step,
};

verus! {

/// What one executed step did.
enum Outcome {
    Next(usize),
    Break,
    Fail(XmlError),
}

/// The executed step did what the step of the state machine does.
spec fn agrees(out: Outcome, expected: Step, st: ParserState) -> bool {
    match out {
        Outcome::Next(p) => expected == Step::Next(p as int, st),
        Outcome::Break => expected == Step::Break(st),
        Outcome::Fail(e) => expected == Step::Fail(st.events, e@),
    }
}

/// The reader's working state.
struct Reader {
    stack: Vec<ParsedNode>,
    node: ParsedNode,
    attr: Attr,
    node_type: NodeType,
    writing_to: WriteTo,
    events: Vec<XmlEvent>,
}

impl Reader {
    spec fn state(&self) -> ParserState {
        ParserState {
            stack: nodes_view(self.stack@),
            node: self.node@,
            attr_name: self.attr.name@,
            attr_value: self.attr.value@,
            node_type: self.node_type,
            writing_to: self.writing_to,
            events: events_view(self.events@),
        }
    }

    fn new() -> (r: Reader)
        ensures
            r.state() == initial_state(),
    {
        let r = Reader {
            stack: Vec::new(),
            node: ParsedNode::new(),
            attr: Attr::new(),
            node_type: NodeType::Unset,
            writing_to: WriteTo::Content,
            events: Vec::new(),
        };
        assert(r.state().stack =~= Seq::<SpecNode>::empty());
        assert(r.state().events =~= initial_state().events);
        r
    }

    fn emit(&mut self, e: XmlEvent)
        ensures
            final(self).state() == (ParserState { events: old(self).state().events.push(e@), ..old(self).state() }),
    {
        let ghost before = events_view(self.events@);
        self.events.push(e);
        assert(events_view(self.events@) =~= before.push(e@));
    }

    fn reset(&mut self)
        ensures
            final(self).state() == reset(old(self).state()),
    {
        self.node = ParsedNode::new();
        self.attr = Attr::new();
        self.node_type = NodeType::Unset;
        self.writing_to = WriteTo::Content;
    }

    /// Stores the pending attribute under its name and starts a new one.
    fn store_attribute(&mut self, value: Vec<char>)
        ensures
            final(self).state() == (ParserState {
                node: with_attribute(old(self).state().node, old(self).state().attr_name, value@),
                attr_name: Seq::empty(),
                attr_value: Seq::empty(),
                ..old(self).state()
            }),
    {
        let mut attr = Attr::new();
        std::mem::swap(&mut attr, &mut self.attr);
        self.node.attributes.insert(attr.name, value);
    }
}

/// `<` at `pos`.
fn do_open(input: &Vec<char>, pos: usize, r: &mut Reader) -> (out: Outcome)
    requires
        pos < input@.len(),
    ensures
        agrees(out, step_open(input@, pos as int, old(r).state()), final(r).state()),
        out matches Outcome::Next(p) ==> pos < p <= input@.len(),
{
    let opener: Vec<char> = vec!['!', '-', '-'];
    let closer: Vec<char> = vec!['-', '-', '>'];
    assert(opener@ =~= comment_open());
    assert(closer@ =~= comment_close());
    if input.len() >= 4 && pos <= input.len() - 4 {
        let mut k: usize = 0;
        let mut same: bool = true;
        let n: usize = input.len();
        while k < 3
            invariant
                n == input@.len(),
                pos + 4 <= input@.len(),
                opener@ == comment_open(),
                k <= 3,
                same == forall|m: int| 0 <= m < k ==> input@[pos + 1 + m] == opener@[m],
            decreases 3 - k,
        {
            if input[pos + 1 + k] != opener[k] {
                same = false;
            }
            k += 1;
        }
        if same {
            assert(input@.subrange(pos + 1, pos + 4) =~= comment_open());
            let found = find_pattern_from(input.as_slice(), closer.as_slice(), pos + 4);
            proof {
                lemma_find_pattern(input@, comment_close(), pos + 4);
            }
            match found {
                Some(j) => {
                    let text = copy_range(input.as_slice(), pos + 4, j);
                    r.emit(XmlEvent::Comment(text));
                    return Outcome::Next(j + 3);
                },
                None => {
                    let text = copy_range(input.as_slice(), pos + 4, input.len());
                    r.emit(XmlEvent::UnclosedComment(text));
                    return Outcome::Break;
                },
            }
        } else {
            proof {
                let m = choose|m: int| 0 <= m < 3 && input@[pos + 1 + m] != opener@[m];
                assert(input@.subrange(pos + 1, pos + 4)[m] == input@[pos + 1 + m]);
            }
        }
    }
    r.node_type = NodeType::Opening;
    r.writing_to = WriteTo::Tag;
    Outcome::Next(pos + 1)
}

/// `>` at `pos`.
fn do_close(pos: usize, r: &mut Reader) -> (out: Outcome)
    requires
        pos < usize::MAX,
    ensures
        agrees(out, step_close(pos as int, old(r).state()), final(r).state()),
        out matches Outcome::Next(p) ==> p == pos + 1,
{
    if r.attr.name.len() > 0 && r.attr.value.len() > 0 {
        let name = r.attr.name.clone();
        assert(name@ =~= r.attr.name@);
        return Outcome::Fail(XmlError::AttrValueNotClosed { name, node: r.node.duplicate() });
    }
    if r.attr.name.len() > 0 {
        let value = r.attr.value.clone();
        assert(value@ =~= r.attr.value@);
        r.store_attribute(value);
    }
    let depth = r.stack.len();
    match r.node_type {
        NodeType::Opening => {
            let copy = r.node.duplicate();
            r.emit(XmlEvent::Open { depth, node: copy });
            let mut node = ParsedNode::new();
            std::mem::swap(&mut node, &mut r.node);
            let ghost before = nodes_view(r.stack@);
            r.stack.push(node);
            assert(nodes_view(r.stack@) =~= before.push(node@));
            r.reset();
            Outcome::Next(pos + 1)
        },
        NodeType::SelfClosing => {
            let copy = r.node.duplicate();
            r.emit(XmlEvent::SelfClosing { depth, node: copy });
            r.reset();
            Outcome::Next(pos + 1)
        },
        NodeType::Closing => {
            if depth == 0 {
                let tag = r.node.tag.clone();
                assert(tag@ =~= r.node.tag@);
                return Outcome::Fail(XmlError::ClosingWithoutOpening { tag });
            }
            let tag = r.node.tag.clone();
            assert(tag@ =~= r.node.tag@);
            r.emit(XmlEvent::Close { depth: depth - 1, tag });
            assert(nodes_view(r.stack@)[depth - 1] == r.stack@[depth - 1]@);
            if chars_eq(r.node.tag.as_slice(), r.stack[depth - 1].tag.as_slice()) {
                let ghost before = nodes_view(r.stack@);
                r.stack.pop();
                assert(nodes_view(r.stack@) =~= before.drop_last());
                r.reset();
                Outcome::Next(pos + 1)
            } else {
                let tag = r.node.tag.clone();
                assert(tag@ =~= r.node.tag@);
                let last = r.stack[depth - 1].duplicate();
                Outcome::Fail(XmlError::RogueClosingNode { tag, last })
            }
        },
        NodeType::Unset => {
            r.reset();
            Outcome::Next(pos + 1)
        },
    }
}

/// Whitespace at `pos`.
fn do_space(input: &Vec<char>, pos: usize, r: &mut Reader) -> (out: Outcome)
    requires
        pos < input@.len(),
    ensures
        agrees(out, step_space(input@, pos as int, old(r).state()), final(r).state()),
        out matches Outcome::Next(p) ==> pos < p <= input@.len(),
{
    proof {
        assert(input@.len() == input.len());
    }
    if r.node_type != NodeType::Opening {
        return Outcome::Next(pos + 1);
    }
    match r.writing_to {
        WriteTo::Tag => {
            r.writing_to = WriteTo::AttrName;
            return Outcome::Next(pos + 1);
        },
        WriteTo::AttrName => {},
        _ => {
            return Outcome::Next(pos + 1);
        },
    }
    let ghost start = r.state();
    let mut q: usize = pos + 1;
    loop
        invariant
            pos < q <= input@.len(),
            r.state() == start,
            scan_attribute(input@, q as int, start) == scan_attribute(input@, pos + 1, start),
            step_space(input@, pos as int, old(r).state()) == scan_attribute(input@, pos + 1, start),
        decreases input@.len() - q,
    {
        if q >= input.len() {
            return Outcome::Next(input.len());
        }
        let c = input[q];
        if c == '=' {
            r.writing_to = WriteTo::AttrVal;
            return Outcome::Next(q + 1);
        }
        if c == '>' || c == '/' {
            return Outcome::Next(q);
        }
        if c == ' ' || c == '\n' || c == '\t' {
            q += 1;
        } else {
            if r.attr.name.len() > 0 {
                r.store_attribute(Vec::new());
                assert(r.state().node == with_attribute(start.node, start.attr_name, Seq::empty()));
            }
            r.attr.name.push(c);
            return Outcome::Next(q + 1);
        }
    }
}

/// A quote at `pos`.
fn do_quote(input: &Vec<char>, pos: usize, r: &mut Reader) -> (out: Outcome)
    requires
        pos < input@.len(),
    ensures
        agrees(out, step_quote(input@, pos as int, old(r).state()), final(r).state()),
        out matches Outcome::Next(p) ==> pos < p <= input@.len(),
{
    proof {
        assert(input@.len() == input.len());
    }
    if r.writing_to != WriteTo::AttrVal {
        return Outcome::Fail(XmlError::MisplacedQuote);
    }
    let j = find_char_from(input.as_slice(), input[pos], pos + 1);
    proof {
        lemma_next_char(input@, input@[pos as int], pos + 1);
    }
    if j < input.len() {
        let value = copy_range(input.as_slice(), pos + 1, j);
        r.store_attribute(value);
        r.writing_to = WriteTo::AttrName;
        Outcome::Next(j + 1)
    } else {
        let name = r.attr.name.clone();
        assert(name@ =~= r.attr.name@);
        Outcome::Fail(XmlError::MissingEndQuote { name, node: r.node.duplicate() })
    }
}

/// One step at `pos`.
fn do_step(input: &Vec<char>, pos: usize, r: &mut Reader) -> (out: Outcome)
    requires
        pos < input@.len(),
    ensures
        agrees(out, step(input@, pos as int, old(r).state()), final(r).state()),
        out matches Outcome::Next(p) ==> pos < p <= input@.len(),
{
    proof {
        assert(input@.len() == input.len());
    }
    let c = input[pos];
    if r.writing_to == WriteTo::Content && c != '<' {
        return Outcome::Next(pos + 1);
    }
    if c == '<' {
        do_open(input, pos, r)
    } else if c == '/' {
        if r.node.tag.len() == 0 {
            r.node_type = NodeType::Closing;
        } else {
            r.node_type = NodeType::SelfClosing;
        }
        Outcome::Next(pos + 1)
    } else if c == '>' {
        do_close(pos, r)
    } else if c == ' ' || c == '\n' || c == '\t' {
        do_space(input, pos, r)
    } else if c == '=' {
        if r.node_type == NodeType::Opening && r.writing_to == WriteTo::AttrName {
            r.writing_to = WriteTo::AttrVal;
            Outcome::Next(pos + 1)
        } else {
            Outcome::Fail(XmlError::MisplacedEqualSign)
        }
    } else if c == '"' || c == '\'' {
        do_quote(input, pos, r)
    } else {
        match r.writing_to {
            WriteTo::Tag => {
                r.node.tag.push(c);
                Outcome::Next(pos + 1)
            },
            WriteTo::AttrName => {
                r.attr.name.push(c);
                Outcome::Next(pos + 1)
            },
            _ => Outcome::Fail(XmlError::UnexpectedCharacter),
        }
    }
}

/// The end of reading.
fn conclude(r: Reader) -> (t: ParseTrace)
    ensures
        t@ == finish(r.state()),
{
    if r.stack.len() > 0 {
        ParseTrace { events: r.events, failure: Some(XmlError::UnclosedNodes(r.stack)) }
    } else {
        ParseTrace { events: r.events, failure: None }
    }
}

/// Reads an XML document. Comments, opening, self-closing and closing tags are
/// reported in order, with the nesting depth of each tag; text content is
/// skipped. A closing tag must name the innermost open element, and every
/// opened element must be closed by the end of the document.
pub fn parse_xml(xml_src: &str) -> (trace: ParseTrace)
    ensures
        trace@ == read_document(xml_src@),
{
    let input = chars_of(xml_src);
    let mut r = Reader::new();
    let mut pos: usize = 0;
    loop
        invariant
            pos <= input@.len(),
            input@ == xml_src@,
            run(input@, pos as int, r.state()) == read_document(input@),
        decreases input@.len() - pos,
    {
        if pos >= input.len() {
            return conclude(r);
        }
        let out = do_step(&input, pos, &mut r);
        match out {
            Outcome::Next(p) => {
                pos = p;
            },
            Outcome::Break => {
                return conclude(r);
            },
            Outcome::Fail(e) => {
                return ParseTrace { events: r.events, failure: Some(e) };
            },
        }
    }
}

} // verus!
