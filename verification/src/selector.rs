//! Matching a compound selector against an element.
//!
//! A selector is an optional tag followed by objects, each starting with one of
//! `.` (a class), `#` (the id) or `[` (an attribute, `[attr]` or `[attr=val]`,
//! where the value may be quoted with `"` or `'`). An element matches when its
//! tag equals the tag part (if there is one) and every object matches.

use vstd::prelude::*;

use crate::chars::{chars_eq, chars_of, copy_range, find_char_from, lemma_next_char, next_char};
use crate::node::{ParsedNode, SpecNode};

verus! {

/// The characters that start a selector object.
pub open spec fn is_mark(c: char) -> bool {
    c == '.' || c == '#' || c == '['
}

/// The characters that a selector may not hold before its first object.
pub open spec fn is_blank(c: char) -> bool {
    c == ' ' || c == '\t' || c == '\n'
}

/// The characters that may delimit an attribute value in a selector.
pub open spec fn is_quote(c: char) -> bool {
    c == '"' || c == '\''
}

/// The first index `i >= from` at which an object starts, or `s.len()`.
pub open spec fn next_mark(s: Seq<char>, from: int) -> int
    decreases s.len() - from,
{
    if from < 0 || from >= s.len() {
        s.len() as int
    } else if is_mark(s[from]) {
        from
    } else {
        next_mark(s, from + 1)
    }
}

pub proof fn lemma_next_mark(s: Seq<char>, from: int)
    requires
        0 <= from <= s.len(),
    ensures
        from <= next_mark(s, from) <= s.len(),
        next_mark(s, from) < s.len() ==> is_mark(s[next_mark(s, from)]),
        forall|j: int| from <= j < next_mark(s, from) ==> !is_mark(#[trigger] s[j]),
    decreases s.len() - from,
{
    if from < s.len() && !is_mark(s[from]) {
        lemma_next_mark(s, from + 1);
    }
}

/// The first index `i >= from` holding a quote, or `s.len()`.
pub open spec fn next_quote(s: Seq<char>, from: int) -> int
    decreases s.len() - from,
{
    if from < 0 || from >= s.len() {
        s.len() as int
    } else if is_quote(s[from]) {
        from
    } else {
        next_quote(s, from + 1)
    }
}

pub proof fn lemma_next_quote(s: Seq<char>, from: int)
    requires
        0 <= from <= s.len(),
    ensures
        from <= next_quote(s, from) <= s.len(),
        next_quote(s, from) < s.len() ==> is_quote(s[next_quote(s, from)]),
        forall|j: int| from <= j < next_quote(s, from) ==> !is_quote(#[trigger] s[j]),
    decreases s.len() - from,
{
    if from < s.len() && !is_quote(s[from]) {
        lemma_next_quote(s, from + 1);
    }
}

/// The first index `i >= from` that does not hold a space, or `s.len()`.
pub open spec fn skip_spaces(s: Seq<char>, from: int) -> int
    decreases s.len() - from,
{
    if from < 0 || from >= s.len() {
        s.len() as int
    } else if s[from] != ' ' {
        from
    } else {
        skip_spaces(s, from + 1)
    }
}

/// The least `i <= to` such that `s[i..to]` holds only spaces.
pub open spec fn back_spaces(s: Seq<char>, to: int) -> int
    decreases to,
{
    if to <= 0 {
        0
    } else if s[to - 1] == ' ' {
        back_spaces(s, to - 1)
    } else {
        to
    }
}

/// `s` without its leading and trailing spaces.
pub open spec fn trim_spaces(s: Seq<char>) -> Seq<char> {
    let a = skip_spaces(s, 0);
    if a >= s.len() {
        Seq::empty()
    } else {
        s.subrange(a, back_spaces(s, s.len() as int))
    }
}

/// The part of `v` between its first quote and the next one (or the end);
/// `v` itself where it holds no quote.
pub open spec fn unquote(v: Seq<char>) -> Seq<char> {
    let a = next_quote(v, 0);
    if a >= v.len() {
        v
    } else {
        v.subrange(a + 1, next_quote(v, a + 1))
    }
}

/// The pieces of `s[from..]` between single spaces.
pub open spec fn split_spaces(s: Seq<char>, from: int) -> Seq<Seq<char>>
    decreases s.len() - from,
{
    if from < 0 || from > s.len() {
        Seq::empty()
    } else {
        let e = next_char(s, ' ', from);
        proof {
            lemma_next_char(s, ' ', from);
        }
        if e >= s.len() {
            seq![s.subrange(from, s.len() as int)]
        } else {
            seq![s.subrange(from, e)].add(split_spaces(s, e + 1))
        }
    }
}

/// The attribute name `id`.
pub open spec fn id_name() -> Seq<char> {
    seq!['i', 'd']
}

/// The attribute name `class`.
pub open spec fn class_name() -> Seq<char> {
    seq!['c', 'l', 'a', 's', 's']
}

/// The classes of an element: its `class` attribute split at spaces.
pub open spec fn class_list(attributes: Map<Seq<char>, Seq<char>>) -> Seq<Seq<char>> {
    if attributes.contains_key(class_name()) {
        split_spaces(attributes[class_name()], 0)
    } else {
        Seq::empty()
    }
}

/// Why a selector was refused.
pub enum SelectorFault {
    Empty,
    Whitespace,
    UnclosedBracket(Seq<char>),
}

/// Why a selector was refused: it is empty, it holds whitespace (anywhere),
/// or an attribute object has no closing `]`.
pub enum SelectorError {
    EmptySelector,
    WhitespaceInSelector,
    MissingClosingBracket(Vec<char>),
}

impl View for SelectorError {
    type V = SelectorFault;

    open spec fn view(&self) -> SelectorFault {
        match self {
            SelectorError::EmptySelector => SelectorFault::Empty,
            SelectorError::WhitespaceInSelector => SelectorFault::Whitespace,
            SelectorError::MissingClosingBracket(obj) => SelectorFault::UnclosedBracket(obj@),
        }
    }
}

/// A matching result, by its view.
pub open spec fn outcome_of(r: Result<bool, SelectorError>) -> Result<bool, SelectorFault> {
    match r {
        Ok(b) => Ok(b),
        Err(e) => Err(e@),
    }
}

/// Whether one object (`.c`, `#i`, `[a]` or `[a=v]`) matches `node`.
pub open spec fn object_outcome(node: SpecNode, obj: Seq<char>, classes: Seq<Seq<char>>) -> Result<bool, SelectorFault> {
    let rest = obj.drop_first();
    if obj[0] == '.' {
        Ok(classes.contains(rest))
    } else if obj[0] == '#' {
        Ok(node.attributes.contains_key(id_name()) && node.attributes[id_name()] == rest)
    } else {
        let close = next_char(rest, ']', 0);
        if close >= rest.len() {
            Err(SelectorFault::UnclosedBracket(obj))
        } else {
            let attr = rest.take(close);
            let eq = next_char(attr, '=', 0);
            if eq < attr.len() {
                let name = trim_spaces(attr.take(eq));
                if node.attributes.contains_key(name) {
                    Ok(unquote(trim_spaces(attr.skip(eq + 1))) == node.attributes[name])
                } else {
                    Ok(false)
                }
            } else {
                Ok(node.attributes.contains_key(attr))
            }
        }
    }
}

/// Where the object that starts at `start` ends: an attribute object `[...]`
/// runs past its first `]` to the next object mark (marks inside the brackets
/// belong to it), or to the end where it has no `]`; any other object runs to
/// the next mark.
pub open spec fn object_end(sel: Seq<char>, start: int) -> int {
    if sel[start] == '[' {
        let close = next_char(sel, ']', start + 1);
        if close < sel.len() {
            next_mark(sel, close + 1)
        } else {
            sel.len() as int
        }
    } else {
        next_mark(sel, start + 1)
    }
}

pub proof fn lemma_object_end(sel: Seq<char>, start: int)
    requires
        0 <= start < sel.len(),
    ensures
        start < object_end(sel, start) <= sel.len(),
        object_end(sel, start) < sel.len() ==> is_mark(sel[object_end(sel, start)]),
{
    lemma_next_char(sel, ']', start + 1);
    let close = next_char(sel, ']', start + 1);
    if close < sel.len() {
        lemma_next_mark(sel, close + 1);
    }
    lemma_next_mark(sel, start + 1);
}

/// The objects of `sel` from index `start` on, checked in order: the first
/// outcome other than a match, or a match.
pub open spec fn objects_outcome(node: SpecNode, sel: Seq<char>, start: int, classes: Seq<Seq<char>>) -> Result<bool, SelectorFault>
    decreases sel.len() - start,
{
    if start < 0 || start >= sel.len() {
        Ok(true)
    } else {
        let end = object_end(sel, start);
        proof {
            lemma_object_end(sel, start);
        }
        let r = object_outcome(node, sel.subrange(start, end), classes);
        if r != Ok::<bool, SelectorFault>(true) {
            r
        } else {
            objects_outcome(node, sel, end, classes)
        }
    }
}

/// What matching `sel` against `node` gives. A selector may hold no
/// whitespace at all.
pub open spec fn selector_outcome(node: SpecNode, sel: Seq<char>) -> Result<bool, SelectorFault> {
    if sel.len() == 0 {
        Err(SelectorFault::Empty)
    } else if exists|i: int| 0 <= i < sel.len() && is_blank(sel[i]) {
        Err(SelectorFault::Whitespace)
    } else {
        let k = next_mark(sel, 0);
        if k >= sel.len() {
            Ok(sel == node.tag)
        } else if k > 0 && sel.take(k) != node.tag {
            Ok(false)
        } else {
            objects_outcome(node, sel, k, class_list(node.attributes))
        }
    }
}

/// The index of the first object mark in `s[from..]`, or `s.len()`.
fn find_mark_from(s: &[char], from: usize) -> (r: usize)
    requires
        from <= s@.len(),
    ensures
        r == next_mark(s@, from as int),
{
    let mut i: usize = from;
    while i < s.len()
        invariant
            from <= i <= s@.len(),
            next_mark(s@, i as int) == next_mark(s@, from as int),
        decreases s@.len() - i,
    {
        if s[i] == '.' || s[i] == '#' || s[i] == '[' {
            return i;
        }
        i += 1;
    }
    i
}

/// Where the object that starts at `start` ends.
fn find_object_end(sel: &[char], start: usize) -> (r: usize)
    requires
        start < sel@.len(),
    ensures
        r == object_end(sel@, start as int),
{
    if sel[start] == '[' {
        let close = find_char_from(sel, ']', start + 1);
        proof {
            lemma_next_char(sel@, ']', start + 1);
        }
        if close < sel.len() {
            find_mark_from(sel, close + 1)
        } else {
            sel.len()
        }
    } else {
        find_mark_from(sel, start + 1)
    }
}

/// The index of the first quote in `s[from..]`, or `s.len()`.
fn find_quote_from(s: &[char], from: usize) -> (r: usize)
    requires
        from <= s@.len(),
    ensures
        r == next_quote(s@, from as int),
{
    let mut i: usize = from;
    while i < s.len()
        invariant
            from <= i <= s@.len(),
            next_quote(s@, i as int) == next_quote(s@, from as int),
        decreases s@.len() - i,
    {
        if s[i] == '"' || s[i] == '\'' {
            return i;
        }
        i += 1;
    }
    i
}

/// `s` without its leading and trailing spaces.
pub fn trim(s: &[char]) -> (r: Vec<char>)
    ensures
        r@ == trim_spaces(s@),
{
    let mut a: usize = 0;
    while a < s.len() && s[a] == ' '
        invariant
            a <= s@.len(),
            skip_spaces(s@, a as int) == skip_spaces(s@, 0),
        decreases s@.len() - a,
    {
        a += 1;
    }
    if a >= s.len() {
        return Vec::new();
    }
    let mut b: usize = s.len();
    while b > 0 && s[b - 1] == ' '
        invariant
            a < s@.len(),
            s@[a as int] != ' ',
            a < b <= s@.len(),
            back_spaces(s@, b as int) == back_spaces(s@, s@.len() as int),
        decreases b,
    {
        b -= 1;
    }
    copy_range(s, a, b)
}

/// The part of `v` between its first quote and the next one (or the end),
/// or all of `v` where it holds no quote.
pub fn strip_quotes(v: &[char]) -> (r: Vec<char>)
    ensures
        r@ == unquote(v@),
{
    let a = find_quote_from(v, 0);
    if a >= v.len() {
        return copy_range(v, 0, v.len());
    }
    proof {
        lemma_next_quote(v@, a + 1);
    }
    let b = find_quote_from(v, a + 1);
    copy_range(v, a + 1, b)
}

/// The classes of `node`: its `class` attribute split at single spaces.
pub fn classes_of(node: &ParsedNode) -> (r: Vec<Vec<char>>)
    ensures
        r@.map_values(|x: Vec<char>| x@) == class_list(node@.attributes),
{
    let mut key: Vec<char> = Vec::new();
    key.push('c');
    key.push('l');
    key.push('a');
    key.push('s');
    key.push('s');
    assert(key@ =~= class_name());
    let mut r: Vec<Vec<char>> = Vec::new();
    match node.attributes.get(key.as_slice()) {
        None => {
            assert(r@.map_values(|x: Vec<char>| x@) =~= Seq::<Seq<char>>::empty());
        },
        Some(list) => {
            let mut from: usize = 0;
            loop
                invariant_except_break
                    r@.map_values(|x: Vec<char>| x@) + split_spaces(list@, from as int) == class_list(node@.attributes),
                invariant
                    from <= list@.len(),
                    node@.attributes.contains_key(class_name()),
                    node@.attributes[class_name()] == list@,
                ensures
                    r@.map_values(|x: Vec<char>| x@) == class_list(node@.attributes),
                decreases list@.len() - from,
            {
                let e = find_char_from(list.as_slice(), ' ', from);
                proof {
                    lemma_next_char(list@, ' ', from as int);
                }
                let piece = copy_range(list.as_slice(), from, e);
                let ghost before = r@.map_values(|x: Vec<char>| x@);
                r.push(piece);
                assert(r@.map_values(|x: Vec<char>| x@) =~= before.push(piece@));
                if e >= list.len() {
                    assert(split_spaces(list@, from as int) == seq![piece@]);
                    assert(before.push(piece@) =~= before + seq![piece@]);
                    break;
                }
                assert(split_spaces(list@, from as int) == seq![piece@].add(split_spaces(list@, e + 1)));
                assert(before.push(piece@) + split_spaces(list@, e + 1) =~= before + (seq![piece@].add(split_spaces(list@, e + 1))));
                from = e + 1;
            }
        },
    }
    r
}

/// Whether `classes` holds `name`.
fn has_class(classes: &Vec<Vec<char>>, name: &[char]) -> (r: bool)
    ensures
        r == classes@.map_values(|x: Vec<char>| x@).contains(name@),
{
    let ghost view = classes@.map_values(|x: Vec<char>| x@);
    let mut i: usize = 0;
    while i < classes.len()
        invariant
            i <= classes@.len(),
            view == classes@.map_values(|x: Vec<char>| x@),
            forall|j: int| 0 <= j < i ==> view[j] != name@,
        decreases classes@.len() - i,
    {
        if chars_eq(classes[i].as_slice(), name) {
            assert(view[i as int] == name@);
            return true;
        }
        i += 1;
    }
    false
}

/// Checks one selector object against `node`: `.class` against `classlist`,
/// `#id` against the `id` attribute, `[attr]` for the presence of an
/// attribute and `[attr=val]` for its value (spaces around the name and the
/// value are ignored, and a value may be quoted with `"` or `'`).
pub fn match_sel_obj_to_node(node: &ParsedNode, obj: &[char], classlist: &Vec<Vec<char>>) -> (r: Result<bool, SelectorError>)
    requires
        obj@.len() > 0,
        is_mark(obj@[0]),
    ensures
        outcome_of(r) == object_outcome(node@, obj@, classlist@.map_values(|x: Vec<char>| x@)),
{
    let rest = copy_range(obj, 1, obj.len());
    assert(rest@ =~= obj@.drop_first());
    if obj[0] == '.' {
        Ok(has_class(classlist, rest.as_slice()))
    } else if obj[0] == '#' {
        let mut key: Vec<char> = Vec::new();
        key.push('i');
        key.push('d');
        assert(key@ =~= id_name());
        match node.attributes.get(key.as_slice()) {
            Some(id) => Ok(chars_eq(id.as_slice(), rest.as_slice())),
            None => Ok(false),
        }
    } else {
        let close = find_char_from(rest.as_slice(), ']', 0);
        proof {
            lemma_next_char(rest@, ']', 0);
        }
        if close >= rest.len() {
            let whole = copy_range(obj, 0, obj.len());
            assert(whole@ =~= obj@);
            return Err(SelectorError::MissingClosingBracket(whole));
        }
        let attr = copy_range(rest.as_slice(), 0, close);
        assert(attr@ =~= rest@.take(close as int));
        let eq = find_char_from(attr.as_slice(), '=', 0);
        proof {
            lemma_next_char(attr@, '=', 0);
        }
        if eq < attr.len() {
            let name_part = copy_range(attr.as_slice(), 0, eq);
            assert(name_part@ =~= attr@.take(eq as int));
            let name = trim(name_part.as_slice());
            match node.attributes.get(name.as_slice()) {
                Some(val) => {
                    let value_part = copy_range(attr.as_slice(), eq + 1, attr.len());
                    assert(value_part@ =~= attr@.skip(eq + 1));
                    let trimmed = trim(value_part.as_slice());
                    let wanted = strip_quotes(trimmed.as_slice());
                    Ok(chars_eq(wanted.as_slice(), val.as_slice()))
                },
                None => Ok(false),
            }
        } else {
            match node.attributes.get(attr.as_slice()) {
                Some(_) => Ok(true),
                None => Ok(false),
            }
        }
    }
}

/// Matches a CSS selector against a node. Only `tag`, `#id`, `.class`,
/// `[attr]` and `[attr="val"]` (also `[attr='val']`, `[attr=val]`) are
/// understood. The tag comes first and is optional; everything inside `[]`
/// is one attribute test. An empty selector and one holding whitespace are
/// refused.
pub fn match_selector_to_node(node: &ParsedNode, selector: &str) -> (r: Result<bool, SelectorError>)
    ensures
        outcome_of(r) == selector_outcome(node@, selector@),
{
    let sel = chars_of(selector);
    if sel.len() == 0 {
        return Err(SelectorError::EmptySelector);
    }
    let mut i: usize = 0;
    while i < sel.len()
        invariant
            i <= sel@.len(),
            sel@ == selector@,
            sel@.len() > 0,
            forall|j: int| 0 <= j < i ==> !is_blank(sel@[j]),
        decreases sel@.len() - i,
    {
        if sel[i] == ' ' || sel[i] == '\t' || sel[i] == '\n' {
            assert(is_blank(sel@[i as int]));
            return Err(SelectorError::WhitespaceInSelector);
        }
        i += 1;
    }
    let k = find_mark_from(sel.as_slice(), 0);
    proof {
        lemma_next_mark(sel@, 0);
    }
    if k >= sel.len() {
        return Ok(chars_eq(sel.as_slice(), node.tag.as_slice()));
    }
    if k > 0 {
        let tag = copy_range(sel.as_slice(), 0, k);
        assert(tag@ =~= sel@.take(k as int));
        if !chars_eq(tag.as_slice(), node.tag.as_slice()) {
            return Ok(false);
        }
    }
    let classes = classes_of(node);
    let ghost cl = class_list(node@.attributes);
    let mut start: usize = k;
    while start < sel.len()
        invariant
            k <= start <= sel@.len(),
            k < sel@.len(),
            k == next_mark(sel@, 0),
            sel@ == selector@,
            selector_outcome(node@, selector@) == objects_outcome(node@, sel@, k as int, cl),
            start < sel@.len() ==> is_mark(sel@[start as int]),
            classes@.map_values(|x: Vec<char>| x@) == cl,
            objects_outcome(node@, sel@, start as int, cl) == objects_outcome(node@, sel@, k as int, cl),
        decreases sel@.len() - start,
    {
        let end = find_object_end(sel.as_slice(), start);
        proof {
            lemma_object_end(sel@, start as int);
        }
        let obj = copy_range(sel.as_slice(), start, end);
        let r = match_sel_obj_to_node(node, obj.as_slice(), &classes);
        assert(objects_outcome(node@, sel@, start as int, cl) == (if outcome_of(r) != Ok::<bool, SelectorFault>(true) {
            outcome_of(r)
        } else {
            objects_outcome(node@, sel@, end as int, cl)
        }));
        match r {
            Ok(true) => {},
            _ => {
                return r;
            },
        }
        start = end;
    }
    Ok(true)
}

} // verus!
