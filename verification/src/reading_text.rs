//! Documents written as a sequence of tokens: opening, closing and
//! self-closing tags with plain names, text, and comments. For such a
//! document the reader's answer is the answer of the tokens themselves: it is
//! accepted exactly when the tags of the text nest, and its events are its
//! tags and comments, in the order in which the text holds them.

use vstd::prelude::*;

use crate::chars::{matches_at, next_char};
use crate::document::{NodeType, SpecEvent, SpecFailure, SpecTrace, WriteTo};
use crate::node::SpecNode;
use crate::reading::{
    comment_open, finish, initial_state, is_space, read_document, run, scan_attribute, step, step_close,
    ParserState, Step,
};
use crate::reading_locality::{
    closed_by_its_end, comment, law_comment_leaves_state, law_text_is_skipped, lemma_shift_run,
};

verus! {

/// An attribute as written in a tag: a whitespace character (space, newline
/// or tab), the name, `=`, and the value between two quotes of one kind.
pub struct WrittenAttr {
    pub sep: char,
    pub name: Seq<char>,
    pub quote: char,
    pub value: Seq<char>,
}

/// A piece of a document.
pub enum Token {
    /// `<name attrs>`
    Open(Seq<char>, Seq<WrittenAttr>),
    /// `</name>`
    Close(Seq<char>),
    /// `<name attrs/>`
    SelfClosing(Seq<char>, Seq<WrittenAttr>),
    /// Text between tags.
    Text(Seq<char>),
    /// `<!--text-->`
    Comment(Seq<char>),
}

/// The characters of an attribute.
pub open spec fn render_attr(a: WrittenAttr) -> Seq<char> {
    seq![a.sep] + a.name + seq!['=', a.quote] + a.value + seq![a.quote]
}

/// The characters of a sequence of attributes.
pub open spec fn render_attrs(attrs: Seq<WrittenAttr>) -> Seq<char>
    decreases attrs.len(),
{
    if attrs.len() == 0 {
        Seq::empty()
    } else {
        render_attr(attrs[0]) + render_attrs(attrs.drop_first())
    }
}

/// The attribute map that writing `attrs` in order gives, starting from `m`:
/// each attribute is set to its value, a later one replacing an earlier one
/// of the same name.
pub open spec fn with_attrs(m: Map<Seq<char>, Seq<char>>, attrs: Seq<WrittenAttr>) -> Map<Seq<char>, Seq<char>>
    decreases attrs.len(),
{
    if attrs.len() == 0 {
        m
    } else {
        with_attrs(m.insert(attrs[0].name, attrs[0].value), attrs.drop_first())
    }
}

/// The characters of a token.
pub open spec fn render_token(t: Token) -> Seq<char> {
    match t {
        Token::Open(n, attrs) => seq!['<'] + n + render_attrs(attrs) + seq!['>'],
        Token::Close(n) => seq!['<', '/'] + n + seq!['>'],
        Token::SelfClosing(n, attrs) => seq!['<'] + n + render_attrs(attrs) + seq!['/', '>'],
        Token::Text(x) => x,
        Token::Comment(c) => comment(c),
    }
}

/// The characters of a sequence of tokens.
pub open spec fn render(ts: Seq<Token>) -> Seq<char>
    decreases ts.len(),
{
    if ts.len() == 0 {
        Seq::empty()
    } else {
        render_token(ts[0]) + render(ts.drop_first())
    }
}

/// A character that a plain tag name may hold.
pub open spec fn is_name_char(c: char) -> bool {
    c != '<' && c != '>' && c != '/' && c != '=' && c != '"' && c != '\'' && !is_space(c)
}

/// A plain tag name: not empty, not starting with `!`, made of name
/// characters.
pub open spec fn is_plain_tag(n: Seq<char>) -> bool {
    &&& n.len() > 0
    &&& n[0] != '!'
    &&& forall|j: int| 0 <= j < n.len() ==> is_name_char(#[trigger] n[j])
}

/// An attribute as the laws below take it: separated by a space, newline or
/// tab, with a non-empty name of name characters, quoted by `"` or `'`, and a
/// value (possibly empty, possibly with spaces) that does not hold its quote.
pub open spec fn is_plain_attr(a: WrittenAttr) -> bool {
    &&& is_space(a.sep)
    &&& a.name.len() > 0
    &&& forall|j: int| 0 <= j < a.name.len() ==> is_name_char(#[trigger] a.name[j])
    &&& (a.quote == '"' || a.quote == '\'')
    &&& forall|j: int| 0 <= j < a.value.len() ==> #[trigger] a.value[j] != a.quote
}

/// Every attribute is plain.
pub open spec fn plain_attrs(attrs: Seq<WrittenAttr>) -> bool {
    forall|i: int| 0 <= i < attrs.len() ==> is_plain_attr(#[trigger] attrs[i])
}

/// A token as the laws below take it: tags with plain names and attributes,
/// text without `<`, and comments closed by their own `-->`.
pub open spec fn is_plain_token(t: Token) -> bool {
    match t {
        Token::Open(n, attrs) => is_plain_tag(n) && plain_attrs(attrs),
        Token::Close(n) => is_plain_tag(n),
        Token::SelfClosing(n, attrs) => is_plain_tag(n) && plain_attrs(attrs),
        Token::Text(x) => forall|j: int| 0 <= j < x.len() ==> x[j] != '<',
        Token::Comment(c) => closed_by_its_end(c),
    }
}

/// Every token is plain.
pub open spec fn all_plain(ts: Seq<Token>) -> bool {
    forall|i: int| 0 <= i < ts.len() ==> is_plain_token(#[trigger] ts[i])
}

/// The element that a tag with these attributes names.
pub open spec fn element(n: Seq<char>, attrs: Seq<WrittenAttr>) -> SpecNode {
    SpecNode { tag: n, attributes: with_attrs(Map::empty(), attrs) }
}

/// The reader between tags, with these elements open and these events so far.
pub open spec fn content_state(stack: Seq<SpecNode>, events: Seq<SpecEvent>) -> ParserState {
    ParserState {
        stack,
        node: SpecNode::empty(),
        attr_name: Seq::empty(),
        attr_value: Seq::empty(),
        node_type: NodeType::Unset,
        writing_to: WriteTo::Content,
        events,
    }
}

/// What the tokens of a document say, read with a stack of open elements:
/// an opening tag opens an element, a closing tag must close the innermost
/// one, text is skipped, comments are reported, and nothing may be left open.
pub open spec fn read_tokens(ts: Seq<Token>, stack: Seq<SpecNode>, events: Seq<SpecEvent>) -> SpecTrace
    decreases ts.len(),
{
    if ts.len() == 0 {
        finish(content_state(stack, events))
    } else {
        let rest = ts.drop_first();
        match ts[0] {
            Token::Open(n, attrs) => read_tokens(
                rest,
                stack.push(element(n, attrs)),
                events.push(SpecEvent::Open { depth: stack.len(), node: element(n, attrs) }),
            ),
            Token::SelfClosing(n, attrs) => read_tokens(
                rest,
                stack,
                events.push(SpecEvent::SelfClosing { depth: stack.len(), node: element(n, attrs) }),
            ),
            Token::Close(n) => {
                if stack.len() == 0 {
                    SpecTrace { events, failure: Some(SpecFailure::ClosingWithoutOpening { tag: n }) }
                } else {
                    let ev = events.push(SpecEvent::Close { depth: (stack.len() - 1) as nat, tag: n });
                    if n == stack.last().tag {
                        read_tokens(rest, stack.drop_last(), ev)
                    } else {
                        SpecTrace { events: ev, failure: Some(SpecFailure::RogueClosingNode { tag: n, last: stack.last() }) }
                    }
                }
            },
            Token::Text(_) => read_tokens(rest, stack, events),
            Token::Comment(c) => read_tokens(rest, stack, events.push(SpecEvent::Comment(c))),
        }
    }
}

/// The tag names left open by the tags of `ts`, starting with `open`; `None`
/// where a closing tag does not name the innermost open one.
pub open spec fn names_after(ts: Seq<Token>, open: Seq<Seq<char>>) -> Option<Seq<Seq<char>>>
    decreases ts.len(),
{
    if ts.len() == 0 {
        Some(open)
    } else {
        let rest = ts.drop_first();
        match ts[0] {
            Token::Open(n, _) => names_after(rest, open.push(n)),
            Token::Close(n) => if open.len() > 0 && open.last() == n {
                names_after(rest, open.drop_last())
            } else {
                None
            },
            _ => names_after(rest, open),
        }
    }
}

/// The tags of `ts` nest: each closing tag names the innermost open tag, and
/// none is left open.
pub open spec fn tags_nest(ts: Seq<Token>) -> bool {
    names_after(ts, Seq::empty()) == Some(Seq::<Seq<char>>::empty())
}

/// One character that the reader takes in one step.
proof fn lemma_one_char(c: char, more: Seq<char>, st: ParserState, st2: ParserState)
    requires
        step(seq![c] + more, 0, st) == Step::Next(1, st2),
    ensures
        run(seq![c] + more, 0, st) == run(more, 0, st2),
{
    lemma_shift_run(seq![c], more, 0, st2);
}

/// `<` before anything but `!` starts a node.
proof fn lemma_open_bracket(more: Seq<char>, st: ParserState)
    requires
        more.len() > 0,
        more[0] != '!',
    ensures
        run(seq!['<'] + more, 0, st) == run(
            more,
            0,
            ParserState { node_type: NodeType::Opening, writing_to: WriteTo::Tag, ..st },
        ),
{
    let input = seq!['<'] + more;
    assert(input[0] == '<');
    assert(input[1] == more[0]);
    if input.len() >= 4 {
        assert(input.subrange(1, 4)[0] == input[1]);
        assert(!matches_at(input, comment_open(), 1));
    }
    lemma_one_char('<', more, st, ParserState { node_type: NodeType::Opening, writing_to: WriteTo::Tag, ..st });
}

/// A plain name read into the tag.
proof fn lemma_name(n: Seq<char>, more: Seq<char>, st: ParserState)
    requires
        st.writing_to == WriteTo::Tag,
        forall|j: int| 0 <= j < n.len() ==> is_name_char(#[trigger] n[j]),
    ensures
        run(n + more, 0, st) == run(
            more,
            0,
            ParserState { node: SpecNode { tag: st.node.tag + n, ..st.node }, ..st },
        ),
    decreases n.len(),
{
    if n.len() == 0 {
        assert(n + more =~= more);
        assert(st.node.tag + n =~= st.node.tag);
        assert(SpecNode { tag: st.node.tag + n, ..st.node } == st.node);
    } else {
        let c = n[0];
        assert(is_name_char(n[0]));
        let tail = n.drop_first();
        assert(n + more =~= seq![c] + (tail + more));
        let st1 = ParserState { node: SpecNode { tag: st.node.tag.push(c), ..st.node }, ..st };
        assert((seq![c] + (tail + more))[0] == c);
        assert(step(seq![c] + (tail + more), 0, st) == Step::Next(1, st1));
        lemma_one_char(c, tail + more, st, st1);
        assert forall|j: int| 0 <= j < tail.len() implies is_name_char(#[trigger] tail[j]) by {
            assert(tail[j] == n[j + 1]);
        }
        lemma_name(tail, more, st1);
        assert(st.node.tag.push(c) + tail =~= st.node.tag + n);
    }
}

/// Reading takes `p` in one step.
proof fn lemma_prefix_step(p: Seq<char>, more: Seq<char>, st: ParserState, st2: ParserState)
    requires
        p.len() > 0,
        step(p + more, 0, st) == Step::Next(p.len() as int, st2),
    ensures
        run(p + more, 0, st) == run(more, 0, st2),
{
    lemma_shift_run(p, more, 0, st2);
}

/// A plain name read into the name of the attribute being read.
proof fn lemma_attr_name(n: Seq<char>, more: Seq<char>, st: ParserState)
    requires
        st.writing_to == WriteTo::AttrName,
        forall|j: int| 0 <= j < n.len() ==> is_name_char(#[trigger] n[j]),
    ensures
        run(n + more, 0, st) == run(more, 0, ParserState { attr_name: st.attr_name + n, ..st }),
    decreases n.len(),
{
    if n.len() == 0 {
        assert(n + more =~= more);
        assert(st.attr_name + n =~= st.attr_name);
    } else {
        let c = n[0];
        assert(is_name_char(n[0]));
        let tail = n.drop_first();
        assert(n + more =~= seq![c] + (tail + more));
        let st1 = ParserState { attr_name: st.attr_name.push(c), ..st };
        assert((seq![c] + (tail + more))[0] == c);
        assert(step(seq![c] + (tail + more), 0, st) == Step::Next(1, st1));
        lemma_one_char(c, tail + more, st, st1);
        assert forall|j: int| 0 <= j < tail.len() implies is_name_char(#[trigger] tail[j]) by {
            assert(tail[j] == n[j + 1]);
        }
        lemma_attr_name(tail, more, st1);
        assert(st.attr_name.push(c) + tail =~= st.attr_name + n);
    }
}

/// Reading one plain attribute inside an opening tag: its value, exactly as
/// written between the quotes, is stored under its name.
proof fn lemma_attr(a: WrittenAttr, more: Seq<char>, st: ParserState)
    requires
        is_plain_attr(a),
        st.node_type == NodeType::Opening,
        st.writing_to == WriteTo::Tag || st.writing_to == WriteTo::AttrName,
        st.attr_name.len() == 0,
        st.attr_value.len() == 0,
    ensures
        run(render_attr(a) + more, 0, st) == run(
            more,
            0,
            ParserState {
                node: SpecNode { attributes: st.node.attributes.insert(a.name, a.value), ..st.node },
                writing_to: WriteTo::AttrName,
                ..st
            },
        ),
{
    let n = a.name;
    let q = a.quote;
    let v = a.value;
    let vl = v.len() as int;
    let valued = seq![q] + v + seq![q] + more;
    let after_name = seq!['='] + valued;
    let input = render_attr(a) + more;
    let named = ParserState { writing_to: WriteTo::AttrName, attr_name: n, ..st };
    assert(is_name_char(n[0]));
    if st.writing_to == WriteTo::Tag {
        let st1 = ParserState { writing_to: WriteTo::AttrName, ..st };
        assert(input =~= seq![a.sep] + (n + after_name));
        assert((seq![a.sep] + (n + after_name))[0] == a.sep);
        assert(step(seq![a.sep] + (n + after_name), 0, st) == Step::Next(1, st1));
        lemma_one_char(a.sep, n + after_name, st, st1);
        lemma_attr_name(n, after_name, st1);
        assert(st1.attr_name + n =~= n);
    } else {
        let c = n[0];
        let tail = n.drop_first();
        let p = seq![a.sep, c];
        let st1 = ParserState { attr_name: seq![c], ..st };
        assert(input =~= p + (tail + after_name));
        let whole = p + (tail + after_name);
        assert(whole[0] == a.sep);
        assert(whole[1] == c);
        assert(st.attr_name.push(c) =~= seq![c]);
        assert(scan_attribute(whole, 1, st) == Step::Next(2, st1));
        assert(step(whole, 0, st) == Step::Next(2, st1));
        lemma_prefix_step(p, tail + after_name, st, st1);
        assert forall|j: int| 0 <= j < tail.len() implies is_name_char(#[trigger] tail[j]) by {
            assert(tail[j] == n[j + 1]);
        }
        lemma_attr_name(tail, after_name, st1);
        assert(seq![c] + tail =~= n);
    }
    // `=`
    let valuing = ParserState { writing_to: WriteTo::AttrVal, ..named };
    assert(after_name[0] == '=');
    assert(step(after_name, 0, named) == Step::Next(1, valuing));
    lemma_one_char('=', valued, named, valuing);
    // the quoted value
    let done = ParserState {
        node: SpecNode { attributes: st.node.attributes.insert(n, v), ..st.node },
        writing_to: WriteTo::AttrName,
        ..st
    };
    let p2 = seq![q] + v + seq![q];
    assert(valued =~= p2 + more);
    assert(valued[0] == q);
    assert forall|j: int| 1 <= j < 1 + vl implies valued[j] != q by {
        assert(valued[j] == v[j - 1]);
    }
    assert(valued[1 + vl] == q);
    crate::chars::lemma_next_char(valued, q, 1);
    assert(next_char(valued, q, 1) == 1 + vl);
    assert(valued.subrange(1, 1 + vl) =~= v);
    assert(st.attr_name =~= Seq::<char>::empty());
    assert(st.attr_value =~= Seq::<char>::empty());
    assert(q == '"' || q == '\'');
    assert(step(valued, 0, valuing) == crate::reading::step_quote(valued, 0, valuing));
    assert(crate::reading::step_quote(valued, 0, valuing) == Step::Next(2 + vl, done));
    lemma_prefix_step(p2, more, valuing, done);
}

/// The reader once it has read the attributes `attrs` of a tag from `st`.
pub open spec fn after_attrs(st: ParserState, attrs: Seq<WrittenAttr>) -> ParserState {
    if attrs.len() == 0 {
        st
    } else {
        ParserState {
            node: SpecNode { attributes: with_attrs(st.node.attributes, attrs), ..st.node },
            writing_to: WriteTo::AttrName,
            ..st
        }
    }
}

/// Reading the plain attributes of an opening tag.
proof fn lemma_attrs(attrs: Seq<WrittenAttr>, more: Seq<char>, st: ParserState)
    requires
        plain_attrs(attrs),
        st.node_type == NodeType::Opening,
        st.writing_to == WriteTo::Tag || st.writing_to == WriteTo::AttrName,
        st.attr_name.len() == 0,
        st.attr_value.len() == 0,
    ensures
        run(render_attrs(attrs) + more, 0, st) == run(more, 0, after_attrs(st, attrs)),
    decreases attrs.len(),
{
    if attrs.len() == 0 {
        assert(render_attrs(attrs) + more =~= more);
    } else {
        let a = attrs[0];
        let rest = attrs.drop_first();
        assert(is_plain_attr(a));
        assert forall|i: int| 0 <= i < rest.len() implies is_plain_attr(#[trigger] rest[i]) by {
            assert(rest[i] == attrs[i + 1]);
        }
        let r = render_attrs(rest) + more;
        assert(render_attrs(attrs) + more =~= render_attr(a) + r);
        lemma_attr(a, r, st);
        let st1 = ParserState {
            node: SpecNode { attributes: st.node.attributes.insert(a.name, a.value), ..st.node },
            writing_to: WriteTo::AttrName,
            ..st
        };
        lemma_attrs(rest, more, st1);
        if rest.len() == 0 {
            assert(with_attrs(st.node.attributes.insert(a.name, a.value), rest) == st.node.attributes.insert(a.name, a.value));
        }
        assert(after_attrs(st1, rest) == after_attrs(st, attrs));
    }
}

/// What reading one plain token does from a state between tags.
pub open spec fn token_step(t: Token, stack: Seq<SpecNode>, events: Seq<SpecEvent>) -> Step {
    match t {
        Token::Open(n, attrs) => Step::Next(
            0,
            content_state(
                stack.push(element(n, attrs)),
                events.push(SpecEvent::Open { depth: stack.len(), node: element(n, attrs) }),
            ),
        ),
        Token::SelfClosing(n, attrs) => Step::Next(
            0,
            content_state(stack, events.push(SpecEvent::SelfClosing { depth: stack.len(), node: element(n, attrs) })),
        ),
        Token::Close(n) => {
            if stack.len() == 0 {
                Step::Fail(events, SpecFailure::ClosingWithoutOpening { tag: n })
            } else {
                let ev = events.push(SpecEvent::Close { depth: (stack.len() - 1) as nat, tag: n });
                if n == stack.last().tag {
                    Step::Next(0, content_state(stack.drop_last(), ev))
                } else {
                    Step::Fail(ev, SpecFailure::RogueClosingNode { tag: n, last: stack.last() })
                }
            }
        },
        Token::Text(_) => Step::Next(0, content_state(stack, events)),
        Token::Comment(c) => Step::Next(0, content_state(stack, events.push(SpecEvent::Comment(c)))),
    }
}

/// Reading a plain token and then `more`, from a state between tags.
#[verifier::rlimit(60)]
proof fn lemma_token(t: Token, more: Seq<char>, stack: Seq<SpecNode>, events: Seq<SpecEvent>)
    requires
        is_plain_token(t),
    ensures
        run(render_token(t) + more, 0, content_state(stack, events)) == match token_step(t, stack, events) {
            Step::Next(_, s) => run(more, 0, s),
            Step::Fail(evs, f) => SpecTrace { events: evs, failure: Some(f) },
            Step::Break(s) => finish(s),
        },
{
    let st = content_state(stack, events);
    let opening = ParserState { node_type: NodeType::Opening, writing_to: WriteTo::Tag, ..st };
    match t {
        Token::Text(x) => {
            law_text_is_skipped(x, more, st);
        },
        Token::Comment(c) => {
            law_comment_leaves_state(c, more, st);
        },
        Token::Open(n, attrs) => {
            let tail = render_attrs(attrs) + (seq!['>'] + more);
            assert(render_token(t) + more =~= seq!['<'] + (n + tail));
            assert((n + tail)[0] == n[0]);
            lemma_open_bracket(n + tail, st);
            lemma_name(n, tail, opening);
            let named = ParserState { node: SpecNode { tag: opening.node.tag + n, ..opening.node }, ..opening };
            assert(opening.node.tag + n =~= n);
            lemma_attrs(attrs, seq!['>'] + more, named);
            let ready = after_attrs(named, attrs);
            assert(ready.node == element(n, attrs));
            let after = content_state(
                stack.push(element(n, attrs)),
                events.push(SpecEvent::Open { depth: stack.len(), node: element(n, attrs) }),
            );
            assert((seq!['>'] + more)[0] == '>');
            assert(step_close(0, ready) == Step::Next(1, after));
            lemma_one_char('>', more, ready, after);
        },
        Token::SelfClosing(n, attrs) => {
            let tail = render_attrs(attrs) + (seq!['/', '>'] + more);
            assert(render_token(t) + more =~= seq!['<'] + (n + tail));
            assert((n + tail)[0] == n[0]);
            lemma_open_bracket(n + tail, st);
            lemma_name(n, tail, opening);
            let named = ParserState { node: SpecNode { tag: opening.node.tag + n, ..opening.node }, ..opening };
            assert(opening.node.tag + n =~= n);
            lemma_attrs(attrs, seq!['/', '>'] + more, named);
            let ready = after_attrs(named, attrs);
            assert(ready.node == element(n, attrs));
            let marked = ParserState { node_type: NodeType::SelfClosing, ..ready };
            let rest1 = seq!['>'] + more;
            assert(seq!['/', '>'] + more =~= seq!['/'] + rest1);
            assert((seq!['/'] + rest1)[0] == '/');
            assert(step(seq!['/'] + rest1, 0, ready) == Step::Next(1, marked));
            lemma_one_char('/', rest1, ready, marked);
            let after = content_state(stack, events.push(SpecEvent::SelfClosing { depth: stack.len(), node: element(n, attrs) }));
            assert(step_close(0, marked) == Step::Next(1, after));
            lemma_one_char('>', more, marked, after);
        },
        Token::Close(n) => {
            let tail = seq!['>'] + more;
            let rest0 = seq!['/'] + (n + tail);
            assert(render_token(t) + more =~= seq!['<'] + rest0);
            assert(rest0[0] == '/');
            lemma_open_bracket(rest0, st);
            let closing = ParserState { node_type: NodeType::Closing, ..opening };
            assert(step(seq!['/'] + (n + tail), 0, opening) == Step::Next(1, closing));
            lemma_one_char('/', n + tail, opening, closing);
            lemma_name(n, tail, closing);
            let named = ParserState { node: SpecNode { tag: closing.node.tag + n, ..closing.node }, ..closing };
            assert(closing.node.tag + n =~= n);
            assert(tail[0] == '>');
            assert(step(tail, 0, named) == step_close(0, named));
            if stack.len() > 0 {
                let ev = events.push(SpecEvent::Close { depth: (stack.len() - 1) as nat, tag: n });
                if n == stack.last().tag {
                    let after = content_state(stack.drop_last(), ev);
                    assert(step_close(0, named) == Step::Next(1, after));
                    lemma_one_char('>', more, named, after);
                }
            }
        },
    }
}

/// Reading the rendering of plain tokens from a state between tags is
/// reading the tokens.
proof fn lemma_tokens(ts: Seq<Token>, stack: Seq<SpecNode>, events: Seq<SpecEvent>)
    requires
        all_plain(ts),
    ensures
        run(render(ts), 0, content_state(stack, events)) == read_tokens(ts, stack, events),
    decreases ts.len(),
{
    if ts.len() > 0 {
        let tail = ts.drop_first();
        assert(is_plain_token(ts[0]));
        assert forall|i: int| 0 <= i < tail.len() implies is_plain_token(#[trigger] tail[i]) by {
            assert(tail[i] == ts[i + 1]);
        }
        lemma_token(ts[0], render(tail), stack, events);
        match token_step(ts[0], stack, events) {
            Step::Next(_, s) => {
                lemma_tokens(tail, s.stack, s.events);
            },
            _ => {},
        }
    }
}

/// A document made of plain tokens reads as its tokens say: its events are
/// its tags and comments in order, and it is refused exactly where its tags
/// do not nest.
pub proof fn law_document_reads_as_its_tokens(ts: Seq<Token>)
    requires
        all_plain(ts),
    ensures
        read_document(render(ts)) == read_tokens(ts, Seq::empty(), Seq::empty()),
{
    assert(initial_state() == content_state(Seq::empty(), Seq::empty()));
    lemma_tokens(ts, Seq::empty(), Seq::empty());
}

proof fn lemma_accepted_iff_nest(ts: Seq<Token>, stack: Seq<SpecNode>, events: Seq<SpecEvent>)
    ensures
        (read_tokens(ts, stack, events).failure is None) == (names_after(ts, stack.map_values(|n: SpecNode| n.tag))
            == Some(Seq::<Seq<char>>::empty())),
    decreases ts.len(),
{
    let names = stack.map_values(|n: SpecNode| n.tag);
    assert(names.len() == stack.len());
    if ts.len() == 0 {
        if stack.len() == 0 {
            assert(names =~= Seq::<Seq<char>>::empty());
        }
    } else {
        let rest = ts.drop_first();
        match ts[0] {
            Token::Open(n, attrs) => {
                let s2 = stack.push(element(n, attrs));
                assert(s2.map_values(|x: SpecNode| x.tag) =~= names.push(n));
                lemma_accepted_iff_nest(rest, s2, events.push(SpecEvent::Open { depth: stack.len(), node: element(n, attrs) }));
            },
            Token::SelfClosing(n, attrs) => {
                lemma_accepted_iff_nest(rest, stack, events.push(SpecEvent::SelfClosing { depth: stack.len(), node: element(n, attrs) }));
            },
            Token::Close(n) => {
                if stack.len() > 0 {
                    let ev = events.push(SpecEvent::Close { depth: (stack.len() - 1) as nat, tag: n });
                    assert(names.last() == stack.last().tag);
                    assert(names[names.len() - 1] == stack[stack.len() - 1].tag);
                    let s2 = stack.drop_last();
                    assert(s2.map_values(|x: SpecNode| x.tag) =~= names.drop_last());
                    lemma_accepted_iff_nest(rest, s2, ev);
                }
            },
            Token::Text(_) => {
                lemma_accepted_iff_nest(rest, stack, events);
            },
            Token::Comment(c) => {
                lemma_accepted_iff_nest(rest, stack, events.push(SpecEvent::Comment(c)));
            },
        }
    }
}

/// Tags in the text nest: a document made of plain tokens is read to its end
/// without refusal exactly when its tags nest, each closing tag naming the
/// innermost open one and none left open.
pub proof fn law_accepted_exactly_when_tags_nest(ts: Seq<Token>)
    requires
        all_plain(ts),
    ensures
        (read_document(render(ts)).failure is None) == tags_nest(ts),
{
    law_document_reads_as_its_tokens(ts);
    lemma_accepted_iff_nest(ts, Seq::empty(), Seq::empty());
    assert(Seq::<SpecNode>::empty().map_values(|n: SpecNode| n.tag) =~= Seq::<Seq<char>>::empty());
}

proof fn lemma_read_element(n: Seq<char>, attrs: Seq<WrittenAttr>)
    requires
        is_plain_tag(n),
        plain_attrs(attrs),
    ensures
        read_document(render(seq![Token::Open(n, attrs), Token::Close(n)])) == (SpecTrace {
            events: seq![
                SpecEvent::Open { depth: 0, node: element(n, attrs) },
                SpecEvent::Close { depth: 0, tag: n },
            ],
            failure: None,
        }),
        read_document(render(seq![Token::SelfClosing(n, attrs)])) == (SpecTrace {
            events: seq![SpecEvent::SelfClosing { depth: 0, node: element(n, attrs) }],
            failure: None,
        }),
{
    let ts = seq![Token::Open(n, attrs), Token::Close(n)];
    assert(ts[0] == Token::Open(n, attrs));
    assert(ts[1] == Token::Close(n));
    assert(is_plain_token(ts[0]));
    assert(is_plain_token(ts[1]));
    assert(all_plain(ts));
    law_document_reads_as_its_tokens(ts);
    let e = element(n, attrs);
    let s1 = Seq::<SpecNode>::empty().push(e);
    let ev1 = Seq::<SpecEvent>::empty().push(SpecEvent::Open { depth: 0, node: e });
    assert(ts.drop_first() =~= seq![Token::Close(n)]);
    assert(ts.drop_first().drop_first() =~= Seq::<Token>::empty());
    assert(s1.last().tag == n);
    assert(s1.drop_last() =~= Seq::<SpecNode>::empty());
    let ev2 = ev1.push(SpecEvent::Close { depth: 0, tag: n });
    assert(read_tokens(ts.drop_first().drop_first(), s1.drop_last(), ev2) == finish(content_state(Seq::empty(), ev2)));
    assert(read_tokens(ts.drop_first(), s1, ev1) == read_tokens(ts.drop_first().drop_first(), s1.drop_last(), ev2));
    assert(ev2 =~= seq![SpecEvent::Open { depth: 0, node: e }, SpecEvent::Close { depth: 0, tag: n }]);
    let one = seq![Token::SelfClosing(n, attrs)];
    assert(one[0] == Token::SelfClosing(n, attrs));
    assert(is_plain_token(one[0]));
    assert(all_plain(one));
    law_document_reads_as_its_tokens(one);
    assert(one.drop_first() =~= Seq::<Token>::empty());
    let ev3 = Seq::<SpecEvent>::empty().push(SpecEvent::SelfClosing { depth: 0, node: e });
    assert(read_tokens(one.drop_first(), Seq::empty(), ev3) == finish(content_state(Seq::empty(), ev3)));
    assert(read_tokens(one, Seq::empty(), Seq::empty()) == read_tokens(one.drop_first(), Seq::empty(), ev3));
    assert(ev3 =~= seq![SpecEvent::SelfClosing { depth: 0, node: e }]);
}

/// Attribute values are kept as written: reading `<n attrs></n>` or
/// `<n attrs/>` reports the element with every written attribute set to the
/// exact characters between its quotes (spaces and the other quote included,
/// the empty value too), a later attribute of the same name replacing an
/// earlier one, and accepts the document.
pub proof fn law_attribute_values_are_kept(n: Seq<char>, attrs: Seq<WrittenAttr>)
    requires
        is_plain_tag(n),
        plain_attrs(attrs),
    ensures
        read_document(render(seq![Token::Open(n, attrs), Token::Close(n)])) == (SpecTrace {
            events: seq![
                SpecEvent::Open { depth: 0, node: SpecNode { tag: n, attributes: with_attrs(Map::empty(), attrs) } },
                SpecEvent::Close { depth: 0, tag: n },
            ],
            failure: None,
        }),
        read_document(render(seq![Token::SelfClosing(n, attrs)])) == (SpecTrace {
            events: seq![
                SpecEvent::SelfClosing { depth: 0, node: SpecNode { tag: n, attributes: with_attrs(Map::empty(), attrs) } },
            ],
            failure: None,
        }),
{
    lemma_read_element(n, attrs);
}

proof fn lemma_with_attrs_alike(m: Map<Seq<char>, Seq<char>>, a: Seq<WrittenAttr>, b: Seq<WrittenAttr>)
    requires
        a.len() == b.len(),
        forall|i: int| 0 <= i < a.len() ==> #[trigger] a[i].name == b[i].name && a[i].value == b[i].value,
    ensures
        with_attrs(m, a) == with_attrs(m, b),
    decreases a.len(),
{
    if a.len() > 0 {
        assert(a[0].name == b[0].name && a[0].value == b[0].value);
        assert forall|i: int| 0 <= i < a.len() - 1 implies #[trigger] a.drop_first()[i].name == b.drop_first()[i].name
            && a.drop_first()[i].value == b.drop_first()[i].value by {
            assert(a.drop_first()[i] == a[i + 1]);
            assert(b.drop_first()[i] == b[i + 1]);
        }
        lemma_with_attrs_alike(m.insert(a[0].name, a[0].value), a.drop_first(), b.drop_first());
    }
}

/// Inside a tag, a newline or a tab separates attributes exactly as a space
/// does, and either quote delimits a value alike: two ways of writing the
/// same attributes read the same.
pub proof fn law_attribute_layout_does_not_matter(n: Seq<char>, a: Seq<WrittenAttr>, b: Seq<WrittenAttr>)
    requires
        is_plain_tag(n),
        plain_attrs(a),
        plain_attrs(b),
        a.len() == b.len(),
        forall|i: int| 0 <= i < a.len() ==> #[trigger] a[i].name == b[i].name && a[i].value == b[i].value,
    ensures
        read_document(render(seq![Token::Open(n, a), Token::Close(n)])) == read_document(
            render(seq![Token::Open(n, b), Token::Close(n)]),
        ),
        read_document(render(seq![Token::SelfClosing(n, a)])) == read_document(render(seq![Token::SelfClosing(n, b)])),
{
    lemma_read_element(n, a);
    lemma_read_element(n, b);
    lemma_with_attrs_alike(Map::empty(), a, b);
}

} // verus!
