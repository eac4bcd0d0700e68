//! What the reader reports: its events, its failures, and the states it passes
//! through, both as executable values and as their mathematical views.

use vstd::prelude::*;

use crate::node::{ParsedNode, SpecNode};

verus! {

/// The kind of markup node being read.
#[derive(PartialEq, Eq, Structural, Clone, Copy)]
pub enum NodeType {
    /// `<tag ...>`: pushed onto the stack of open elements at `>`.
    Opening,
    /// `</tag>`: pops the stack of open elements at `>`.
    Closing,
    /// `<tag .../>`: reported, never pushed.
    SelfClosing,
    /// No node is being read.
    Unset,
}

/// Where the characters being read go.
#[derive(PartialEq, Eq, Structural, Clone, Copy)]
pub enum WriteTo {
    Tag,
    AttrName,
    AttrVal,
    Content,
}

/// An event of the reader, by its view.
pub enum SpecEvent {
    Comment(Seq<char>),
    UnclosedComment(Seq<char>),
    Open { depth: nat, node: SpecNode },
    SelfClosing { depth: nat, node: SpecNode },
    Close { depth: nat, tag: Seq<char> },
}

/// An event of the reader.
pub enum XmlEvent {
    /// A comment `<!--text-->` and its text.
    Comment(Vec<char>),
    /// `<!--` with no `-->` after it, and the rest of the document, which is
    /// then ignored.
    UnclosedComment(Vec<char>),
    /// An opening element, with the number of elements open around it.
    Open { depth: usize, node: ParsedNode },
    /// A self-closing element, with the number of elements open around it.
    SelfClosing { depth: usize, node: ParsedNode },
    /// A closing tag, with the number of elements that stay open around it.
    Close { depth: usize, tag: Vec<char> },
}

impl View for XmlEvent {
    type V = SpecEvent;

    open spec fn view(&self) -> SpecEvent {
        match self {
            XmlEvent::Comment(t) => SpecEvent::Comment(t@),
            XmlEvent::UnclosedComment(t) => SpecEvent::UnclosedComment(t@),
            XmlEvent::Open { depth, node } => SpecEvent::Open { depth: *depth as nat, node: node@ },
            XmlEvent::SelfClosing { depth, node } => SpecEvent::SelfClosing { depth: *depth as nat, node: node@ },
            XmlEvent::Close { depth, tag } => SpecEvent::Close { depth: *depth as nat, tag: tag@ },
        }
    }
}

/// Why a document was refused, by its view.
pub enum SpecFailure {
    AttrValueNotClosed { name: Seq<char>, node: SpecNode },
    ClosingWithoutOpening { tag: Seq<char> },
    RogueClosingNode { tag: Seq<char>, last: SpecNode },
    MisplacedEqualSign,
    MissingEndQuote { name: Seq<char>, node: SpecNode },
    MisplacedQuote,
    UnexpectedCharacter,
    UnclosedNodes(Seq<SpecNode>),
}

/// Why a document was refused.
pub enum XmlError {
    /// At `>`, the attribute being read holds a value that was never stored.
    AttrValueNotClosed { name: Vec<char>, node: ParsedNode },
    /// A closing tag while no element is open.
    ClosingWithoutOpening { tag: Vec<char> },
    /// A closing tag whose name is not that of the innermost open element.
    RogueClosingNode { tag: Vec<char>, last: ParsedNode },
    /// `=` outside an attribute name of an opening tag.
    MisplacedEqualSign,
    /// An attribute value whose opening quote is never matched.
    MissingEndQuote { name: Vec<char>, node: ParsedNode },
    /// A quote outside an attribute value.
    MisplacedQuote,
    /// A character where no tag, attribute name or value can take it.
    UnexpectedCharacter,
    /// The document ended with these elements still open, outermost first.
    UnclosedNodes(Vec<ParsedNode>),
}

/// The views of a sequence of elements.
pub open spec fn nodes_view(nodes: Seq<ParsedNode>) -> Seq<SpecNode> {
    nodes.map_values(|n: ParsedNode| n@)
}

/// The views of a sequence of events.
pub open spec fn events_view(events: Seq<XmlEvent>) -> Seq<SpecEvent> {
    events.map_values(|e: XmlEvent| e@)
}

impl View for XmlError {
    type V = SpecFailure;

    open spec fn view(&self) -> SpecFailure {
        match self {
            XmlError::AttrValueNotClosed { name, node } => SpecFailure::AttrValueNotClosed { name: name@, node: node@ },
            XmlError::ClosingWithoutOpening { tag } => SpecFailure::ClosingWithoutOpening { tag: tag@ },
            XmlError::RogueClosingNode { tag, last } => SpecFailure::RogueClosingNode { tag: tag@, last: last@ },
            XmlError::MisplacedEqualSign => SpecFailure::MisplacedEqualSign,
            XmlError::MissingEndQuote { name, node } => SpecFailure::MissingEndQuote { name: name@, node: node@ },
            XmlError::MisplacedQuote => SpecFailure::MisplacedQuote,
            XmlError::UnexpectedCharacter => SpecFailure::UnexpectedCharacter,
            XmlError::UnclosedNodes(stack) => SpecFailure::UnclosedNodes(nodes_view(stack@)),
        }
    }
}

/// What reading a document gives, by its view.
pub struct SpecTrace {
    pub events: Seq<SpecEvent>,
    pub failure: Option<SpecFailure>,
}

/// What reading a document gives: the events in the order in which they
/// occurred and, where the document was refused, why. Events that come after
/// the point of refusal are not reported.
pub struct ParseTrace {
    pub events: Vec<XmlEvent>,
    pub failure: Option<XmlError>,
}

impl View for ParseTrace {
    type V = SpecTrace;

    open spec fn view(&self) -> SpecTrace {
        SpecTrace {
            events: events_view(self.events@),
            failure: match self.failure {
                Some(e) => Some(e@),
                None => None,
            },
        }
    }
}

} // verus!
