# lib: a verified XML reader and selector matcher

- `src/` is the library, verified with Verus.
  - `reading.rs` states the reader as a state machine over the characters of
    a document; `parser.rs` holds `parse_xml`, proved to give exactly what
    that machine gives; `reading_laws.rs` proves what holds of every document
    (elements nest, refusals report what they found); `reading_locality.rs`
    proves that the reader looks only ahead, and from it that comments, text
    between tags and a space before `>` or `/>` are skipped; `reading_text.rs`
    proves that a document written as tags with plain names, text and
    comments reads as its tags say, and is accepted exactly when they nest.
  - `selector.rs` states and implements matching of `tag#id.class[attr=val]`
    selectors; `selector_laws.rs` proves the promises of its documentation.
  - `attributes.rs`, `node.rs`, `document.rs`, `chars.rs`: the data the two
    share.
- `app/main.rs` prints: it matches a selector against a sample element and
  can print the tree of a document, panicking where the document is refused.
- `tests/` runs the library on concrete documents and selectors.
