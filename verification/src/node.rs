//! Elements as the reader builds them, and the attribute under construction.

use vstd::prelude::*;

use crate::attributes::Attributes;

verus! {

/// What an element is: its tag and its attribute map.
pub struct SpecNode {
    pub tag: Seq<char>,
    pub attributes: Map<Seq<char>, Seq<char>>,
}

impl SpecNode {
    /// The element with no tag and no attributes.
    pub open spec fn empty() -> SpecNode {
        SpecNode { tag: Seq::empty(), attributes: Map::empty() }
    }
}

/// An element: a tag and its attributes.
pub struct ParsedNode {
    pub tag: Vec<char>,
    pub attributes: Attributes,
}

impl View for ParsedNode {
    type V = SpecNode;

    open spec fn view(&self) -> SpecNode {
        SpecNode { tag: self.tag@, attributes: self.attributes@ }
    }
}

impl ParsedNode {
    /// An element with an empty tag and no attributes.
    pub fn new() -> (r: ParsedNode)
        ensures
            r@ == SpecNode::empty(),
    {
        ParsedNode { tag: Vec::new(), attributes: Attributes::new() }
    }

    /// A copy of this element.
    pub fn duplicate(&self) -> (r: ParsedNode)
        ensures
            r@ == self@,
    {
        let tag = self.tag.clone();
        assert(tag@ =~= self.tag@);
        ParsedNode { tag, attributes: self.attributes.duplicate() }
    }
}

/// A pair of strings: the attribute whose name is being read.
pub struct Attr {
    pub name: Vec<char>,
    pub value: Vec<char>,
}

impl Attr {
    /// An attribute with an empty name and an empty value.
    pub fn new() -> (r: Attr)
        ensures
            r.name@ == Seq::<char>::empty(),
            r.value@ == Seq::<char>::empty(),
    {
        Attr { name: Vec::new(), value: Vec::new() }
    }
}

} // verus!
