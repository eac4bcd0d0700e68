//! A small XML reader and CSS-selector matcher, verified with Verus.
//!
//! The reader walks a document character by character, keeps a stack of open
//! elements and reports what it saw as a trace of events; the matcher decides
//! whether a simple compound selector (`tag#id.class[attr=val]`) applies to a
//! parsed element.

mod attributes;
mod chars;
mod document;
mod node;
mod parser;
mod reading;
mod reading_locality;
mod reading_text;
mod reading_laws;
mod selector;
mod selector_laws;

pub use attributes::Attributes;
pub use chars::{chars_eq, chars_of, copy_range, find_char_from, find_pattern, find_pattern_from, matches_at, next_char};
pub use node::{Attr, ParsedNode, SpecNode};
pub use document::{NodeType, ParseTrace, SpecEvent, SpecFailure, SpecTrace, WriteTo, XmlError, XmlEvent};
pub use parser::parse_xml;
pub use reading::{initial_state, read_document, run, step, ParserState, Step};
pub use reading_laws::{law_accepted_documents_nest, law_no_pending_attribute_value, law_plain_text_gives_nothing, law_refused_closing_tags, law_unclosed_elements_are_reported, open_tags, refusal_fits, tags_of};
pub use selector::{match_sel_obj_to_node, match_selector_to_node, object_outcome, selector_outcome, SelectorError, SelectorFault};
pub use selector_laws::{law_attribute_presence, law_attribute_value_quotes, law_class_selector, law_id_selector, law_more_objects_narrow, law_object_order, law_tag_part_must_match, law_tag_selector, law_whitespace_is_refused};
pub use reading_locality::{closed_by_its_end, comment, law_comment_leaves_state, law_space_before_tag_end, law_text_is_skipped, starts_tag_end};
pub use reading_text::{element, law_accepted_exactly_when_tags_nest, law_attribute_layout_does_not_matter, law_attribute_values_are_kept, law_document_reads_as_its_tokens, read_tokens, render, tags_nest, with_attrs, Token, WrittenAttr};
pub use selector_laws::{is_whole_object, join_words, law_adding_an_object, law_class_words, law_every_object_must_match};
