//! What the documentation of the matcher promises for every element and
//! selector.

use vstd::prelude::*;

use crate::chars::{lemma_next_char, next_char};
use crate::node::SpecNode;
use crate::selector::{
    back_spaces, class_list, class_name, split_spaces, id_name, is_blank, is_mark, is_quote, lemma_next_mark, lemma_next_quote,
    next_mark, next_quote, object_end, object_outcome, objects_outcome, selector_outcome, skip_spaces,
    trim_spaces, unquote, SelectorFault,
};

verus! {

proof fn lemma_char_found(s: Seq<char>, c: char, from: int, i: int)
    requires
        0 <= from <= i < s.len(),
        s[i] == c,
        forall|j: int| from <= j < i ==> s[j] != c,
    ensures
        next_char(s, c, from) == i,
{
    lemma_next_char(s, c, from);
}

proof fn lemma_char_absent(s: Seq<char>, c: char, from: int)
    requires
        0 <= from <= s.len(),
        forall|j: int| from <= j < s.len() ==> s[j] != c,
    ensures
        next_char(s, c, from) == s.len(),
{
    lemma_next_char(s, c, from);
}

proof fn lemma_no_mark(s: Seq<char>, from: int)
    requires
        0 <= from <= s.len(),
        forall|j: int| from <= j < s.len() ==> !is_mark(#[trigger] s[j]),
    ensures
        next_mark(s, from) == s.len(),
{
    lemma_next_mark(s, from);
}

/// `s` holds no whitespace.
pub open spec fn no_blank(s: Seq<char>) -> bool {
    forall|j: int| 0 <= j < s.len() ==> !is_blank(#[trigger] s[j])
}

/// A selector that is a single object is decided by that object.
proof fn lemma_single_object(node: SpecNode, sel: Seq<char>)
    requires
        sel.len() > 0,
        is_mark(sel[0]),
        no_blank(sel),
        object_end(sel, 0) == sel.len(),
    ensures
        selector_outcome(node, sel) == object_outcome(node, sel, class_list(node.attributes)),
{
    assert(next_mark(sel, 0) == 0);
    assert(!exists|i: int| 0 <= i < sel.len() && is_blank(sel[i]));
    assert(sel.subrange(0, sel.len() as int) =~= sel);
    let cl = class_list(node.attributes);
    assert(objects_outcome(node, sel, sel.len() as int, cl) == Ok::<bool, SelectorFault>(true));
}

/// `mark` followed by `name`, where `name` holds no object mark and no
/// whitespace, is one object.
proof fn lemma_simple_object(node: SpecNode, mark: char, name: Seq<char>)
    requires
        mark == '.' || mark == '#',
        forall|j: int| 0 <= j < name.len() ==> !is_mark(#[trigger] name[j]) && !is_blank(name[j]),
    ensures
        selector_outcome(node, seq![mark] + name) == object_outcome(
            node,
            seq![mark] + name,
            class_list(node.attributes),
        ),
        (seq![mark] + name).drop_first() == name,
{
    let sel = seq![mark] + name;
    assert forall|j: int| 1 <= j < sel.len() implies !is_mark(#[trigger] sel[j]) && !is_blank(sel[j]) by {
        assert(sel[j] == name[j - 1]);
    }
    lemma_no_mark(sel, 1);
    lemma_single_object(node, sel);
    assert(sel.drop_first() =~= name);
}

/// A selector of a tag alone matches exactly the elements with that tag.
pub proof fn law_tag_selector(node: SpecNode, sel: Seq<char>)
    requires
        sel.len() > 0,
        forall|j: int| 0 <= j < sel.len() ==> !is_mark(#[trigger] sel[j]) && !is_blank(sel[j]),
    ensures
        selector_outcome(node, sel) == Ok::<bool, SelectorFault>(sel == node.tag),
{
    lemma_no_mark(sel, 0);
}

/// A selector holding whitespace anywhere is refused, and so matches nothing.
pub proof fn law_whitespace_is_refused(node: SpecNode, sel: Seq<char>, i: int)
    requires
        0 <= i < sel.len(),
        is_blank(sel[i]),
    ensures
        selector_outcome(node, sel) == Err::<bool, SelectorFault>(SelectorFault::Whitespace),
{
}

/// `#name` matches exactly the elements whose `id` attribute is `name`.
pub proof fn law_id_selector(node: SpecNode, name: Seq<char>)
    requires
        forall|j: int| 0 <= j < name.len() ==> !is_mark(#[trigger] name[j]) && !is_blank(name[j]),
    ensures
        selector_outcome(node, seq!['#'] + name) == Ok::<bool, SelectorFault>(
            node.attributes.contains_key(id_name()) && node.attributes[id_name()] == name,
        ),
{
    lemma_simple_object(node, '#', name);
}

/// `.name` matches exactly the elements that list `name` among the
/// space-separated words of their `class` attribute.
pub proof fn law_class_selector(node: SpecNode, name: Seq<char>)
    requires
        forall|j: int| 0 <= j < name.len() ==> !is_mark(#[trigger] name[j]) && !is_blank(name[j]),
    ensures
        selector_outcome(node, seq!['.'] + name) == Ok::<bool, SelectorFault>(
            class_list(node.attributes).contains(name),
        ),
{
    lemma_simple_object(node, '.', name);
}

/// An attribute name as the laws below take it: no `]`, no `=`, no
/// whitespace (it may hold `.`, `#` and `[`).
pub open spec fn is_plain_name(s: Seq<char>) -> bool {
    forall|j: int| 0 <= j < s.len() ==> #[trigger] s[j] != ']' && s[j] != '=' && !is_blank(s[j])
}

/// An attribute value as the laws below take it: no `]`, no quote, no
/// whitespace (it may hold `.`, `#`, `[` and `=`).
pub open spec fn is_plain_value(s: Seq<char>) -> bool {
    forall|j: int| 0 <= j < s.len() ==> #[trigger] s[j] != ']' && !is_quote(s[j]) && !is_blank(s[j])
}

/// A bracketed object whose only `]` is its last character is one object.
proof fn lemma_bracket_object(node: SpecNode, sel: Seq<char>)
    requires
        sel.len() >= 2,
        sel[0] == '[',
        sel.last() == ']',
        no_blank(sel),
        forall|j: int| 1 <= j < sel.len() - 1 ==> #[trigger] sel[j] != ']',
    ensures
        selector_outcome(node, sel) == object_outcome(node, sel, class_list(node.attributes)),
{
    lemma_char_found(sel, ']', 1, sel.len() - 1);
    assert(next_mark(sel, sel.len() as int) == sel.len());
    lemma_single_object(node, sel);
}

/// `[name]` matches exactly the elements that have an attribute `name`, with
/// any value.
pub proof fn law_attribute_presence(node: SpecNode, name: Seq<char>)
    requires
        is_plain_name(name),
    ensures
        selector_outcome(node, seq!['['] + name + seq![']']) == Ok::<bool, SelectorFault>(
            node.attributes.contains_key(name),
        ),
{
    let sel = seq!['['] + name + seq![']'];
    let n = name.len() as int;
    assert forall|j: int| 0 <= j < sel.len() implies !is_blank(#[trigger] sel[j]) by {
        if 1 <= j <= n {
            assert(sel[j] == name[j - 1]);
        }
    }
    assert forall|j: int| 1 <= j < sel.len() - 1 implies #[trigger] sel[j] != ']' by {
        assert(sel[j] == name[j - 1]);
    }
    lemma_bracket_object(node, sel);
    let rest = sel.drop_first();
    assert(rest =~= name + seq![']']);
    assert forall|j: int| 0 <= j < n implies rest[j] != ']' by {
        assert(rest[j] == name[j]);
    }
    lemma_char_found(rest, ']', 0, n);
    let attr = rest.take(n);
    assert(attr =~= name);
    lemma_char_absent(attr, '=', 0);
}

/// `value` with the quote `q` on each side.
pub open spec fn quoted(value: Seq<char>, q: char) -> Seq<char> {
    seq![q] + value + seq![q]
}

/// The selector `[name=value]`, the value written as given.
pub open spec fn attribute_selector(name: Seq<char>, value: Seq<char>) -> Seq<char> {
    seq!['['] + name + seq!['='] + value + seq![']']
}

proof fn lemma_attribute_value(node: SpecNode, name: Seq<char>, written: Seq<char>, value: Seq<char>)
    requires
        is_plain_name(name),
        forall|j: int| 0 <= j < written.len() ==> #[trigger] written[j] != ']' && !is_blank(written[j]),
        unquote(trim_spaces(written)) == value,
    ensures
        selector_outcome(node, attribute_selector(name, written)) == Ok::<bool, SelectorFault>(
            node.attributes.contains_key(name) && node.attributes[name] == value,
        ),
{
    let sel = attribute_selector(name, written);
    let n = name.len() as int;
    let w = written.len() as int;
    assert forall|j: int| 0 <= j < sel.len() implies !is_blank(#[trigger] sel[j]) by {
        if 1 <= j <= n {
            assert(sel[j] == name[j - 1]);
        } else if n + 1 < j < n + 2 + w {
            assert(sel[j] == written[j - n - 2]);
        }
    }
    assert forall|j: int| 1 <= j < sel.len() - 1 implies #[trigger] sel[j] != ']' by {
        if j <= n {
            assert(sel[j] == name[j - 1]);
        } else if n + 1 < j {
            assert(sel[j] == written[j - n - 2]);
        }
    }
    lemma_bracket_object(node, sel);
    let rest = sel.drop_first();
    assert(rest =~= name + seq!['='] + written + seq![']']);
    assert forall|j: int| 0 <= j < n + 1 + w implies rest[j] != ']' by {
        if j < n {
            assert(rest[j] == name[j]);
        } else if j > n {
            assert(rest[j] == written[j - n - 1]);
        }
    }
    lemma_char_found(rest, ']', 0, n + 1 + w);
    let attr = rest.take(n + 1 + w);
    assert(attr =~= name + seq!['='] + written);
    assert forall|j: int| 0 <= j < n implies attr[j] != '=' by {
        assert(attr[j] == name[j]);
    }
    lemma_char_found(attr, '=', 0, n);
    assert(attr.take(n) =~= name);
    assert(attr.skip(n + 1) =~= written);
    assert(trim_spaces(name) == name) by {
        if n > 0 {
            assert(name[0] != ' ');
            assert(skip_spaces(name, 0) == 0);
            assert(name[n - 1] != ' ');
            assert(back_spaces(name, n) == n);
            assert(name.subrange(0, n) =~= name);
        } else {
            assert(name =~= Seq::<char>::empty());
        }
    }
}

/// `[name="value"]`, `[name='value']` and `[name=value]` are the same
/// selector: each matches exactly the elements whose attribute `name` is
/// `value`. The brackets make one test, whatever `.`, `#` or `[` they hold.
pub proof fn law_attribute_value_quotes(node: SpecNode, name: Seq<char>, value: Seq<char>)
    requires
        is_plain_name(name),
        is_plain_value(value),
    ensures
        selector_outcome(node, attribute_selector(name, value)) == Ok::<bool, SelectorFault>(
            node.attributes.contains_key(name) && node.attributes[name] == value,
        ),
        selector_outcome(node, attribute_selector(name, quoted(value, '"'))) == selector_outcome(
            node,
            attribute_selector(name, value),
        ),
        selector_outcome(node, attribute_selector(name, quoted(value, '\''))) == selector_outcome(
            node,
            attribute_selector(name, value),
        ),
{
    let v = value.len() as int;
    assert(trim_spaces(value) == value) by {
        if v > 0 {
            assert(value[0] != ' ');
            assert(skip_spaces(value, 0) == 0);
            assert(value[v - 1] != ' ');
            assert(back_spaces(value, v) == v);
            assert(value.subrange(0, v) =~= value);
        } else {
            assert(value =~= Seq::<char>::empty());
        }
    }
    lemma_next_quote(value, 0);
    assert(unquote(value) == value);
    lemma_attribute_value(node, name, value, value);
    assert forall|q: char| is_quote(q) implies #[trigger] unquote(trim_spaces(quoted(value, q))) == value by {
        let w = quoted(value, q);
        assert(skip_spaces(w, 0) == 0);
        assert(back_spaces(w, w.len() as int) == w.len());
        assert(w.subrange(0, w.len() as int) =~= w);
        assert(next_quote(w, 0) == 0);
        lemma_next_quote(w, 1);
        assert forall|j: int| 1 <= j < v + 1 implies !is_quote(#[trigger] w[j]) by {
            assert(w[j] == value[j - 1]);
        }
        assert(next_quote(w, 1) == v + 1);
        assert(w.subrange(1, v + 1) =~= value);
    }
    assert forall|q: char| is_quote(q) implies forall|j: int| 0 <= j < quoted(value, q).len() ==>
        #[trigger] quoted(value, q)[j] != ']' && !is_blank(quoted(value, q)[j]) by {
        assert forall|j: int| 0 <= j < quoted(value, q).len() implies #[trigger] quoted(value, q)[j] != ']'
            && !is_blank(quoted(value, q)[j]) by {
            if 1 <= j <= v {
                assert(quoted(value, q)[j] == value[j - 1]);
            }
        }
    }
    lemma_attribute_value(node, name, quoted(value, '"'), value);
    lemma_attribute_value(node, name, quoted(value, '\''), value);
}

proof fn lemma_next_mark_extended(s: Seq<char>, o: Seq<char>, from: int)
    requires
        0 <= from <= s.len(),
        o.len() > 0,
        is_mark(o[0]),
    ensures
        next_mark(s + o, from) == next_mark(s, from),
    decreases s.len() - from,
{
    if from < s.len() {
        assert((s + o)[from] == s[from]);
        lemma_next_mark_extended(s, o, from + 1);
    } else {
        assert((s + o)[from] == o[0]);
    }
}

proof fn lemma_next_char_extended(s: Seq<char>, o: Seq<char>, c: char, from: int)
    requires
        0 <= from <= s.len(),
        next_char(s, c, from) < s.len(),
    ensures
        next_char(s + o, c, from) == next_char(s, c, from),
    decreases s.len() - from,
{
    assert((s + o)[from] == s[from]);
    if s[from] != c {
        lemma_next_char_extended(s, o, c, from + 1);
    }
}

/// Every `[` of `s` has a `]` after it.
pub open spec fn brackets_closed(s: Seq<char>) -> bool {
    forall|i: int| 0 <= i < s.len() && #[trigger] s[i] == '[' ==> next_char(s, ']', i + 1) < s.len()
}

proof fn lemma_objects_extended(node: SpecNode, s: Seq<char>, o: Seq<char>, start: int, cl: Seq<Seq<char>>)
    requires
        0 <= start <= s.len(),
        o.len() > 0,
        is_mark(o[0]),
        brackets_closed(s),
    ensures
        objects_outcome(node, s + o, start, cl) == (if objects_outcome(node, s, start, cl) == Ok::<bool, SelectorFault>(true) {
            objects_outcome(node, s + o, s.len() as int, cl)
        } else {
            objects_outcome(node, s, start, cl)
        }),
    decreases s.len() - start,
{
    if start < s.len() {
        crate::selector::lemma_object_end(s, start);
        let end = object_end(s, start);
        assert((s + o)[start] == s[start]);
        if s[start] == '[' {
            let close = next_char(s, ']', start + 1);
            lemma_next_char(s, ']', start + 1);
            lemma_next_char_extended(s, o, ']', start + 1);
            lemma_next_mark_extended(s, o, close + 1);
        } else {
            lemma_next_mark_extended(s, o, start + 1);
        }
        assert(object_end(s + o, start) == end);
        assert((s + o).subrange(start, end) =~= s.subrange(start, end));
        lemma_objects_extended(node, s, o, end, cl);
    }
}

/// The tag part comes first: a selector whose tag part differs from the
/// element's tag does not match it, whatever objects follow.
pub proof fn law_tag_part_must_match(node: SpecNode, tag: Seq<char>, objects: Seq<char>)
    requires
        tag.len() > 0,
        forall|j: int| 0 <= j < tag.len() ==> !is_mark(#[trigger] tag[j]) && !is_blank(tag[j]),
        tag != node.tag,
        objects.len() > 0,
        is_mark(objects[0]),
        no_blank(objects),
    ensures
        selector_outcome(node, tag + objects) == Ok::<bool, SelectorFault>(false),
{
    let sel = tag + objects;
    lemma_no_mark(tag, 0);
    lemma_next_mark_extended(tag, objects, 0);
    assert(sel.take(tag.len() as int) =~= tag);
    assert forall|i: int| 0 <= i < sel.len() implies !is_blank(#[trigger] sel[i]) by {
        if i < tag.len() {
            assert(sel[i] == tag[i]);
        } else {
            assert(sel[i] == objects[i - tag.len()]);
        }
    }
}

/// More objects only narrow a selector: where a selector with at least one
/// object, whose brackets are all closed, does not match (or is refused),
/// adding objects without whitespace after it changes nothing; where the
/// longer selector matches, so does the shorter.
pub proof fn law_more_objects_narrow(node: SpecNode, s: Seq<char>, o: Seq<char>)
    requires
        next_mark(s, 0) < s.len(),
        brackets_closed(s),
        o.len() > 0,
        is_mark(o[0]),
        no_blank(o),
    ensures
        selector_outcome(node, s + o) == Ok::<bool, SelectorFault>(true) ==> selector_outcome(node, s)
            == Ok::<bool, SelectorFault>(true),
        selector_outcome(node, s) != Ok::<bool, SelectorFault>(true) ==> selector_outcome(node, s + o)
            == selector_outcome(node, s),
{
    let k = next_mark(s, 0);
    let t = s + o;
    lemma_next_mark(s, 0);
    lemma_next_mark_extended(s, o, 0);
    assert(t.take(k) =~= s.take(k));
    if exists|i: int| 0 <= i < s.len() && is_blank(s[i]) {
        let i = choose|i: int| 0 <= i < s.len() && is_blank(s[i]);
        assert(t[i] == s[i]);
    } else {
        assert forall|i: int| 0 <= i < t.len() implies !is_blank(#[trigger] t[i]) by {
            if i < s.len() {
                assert(t[i] == s[i]);
            } else {
                assert(t[i] == o[i - s.len()]);
            }
        }
    }
    lemma_objects_extended(node, s, o, k, class_list(node.attributes));
}

proof fn lemma_prefix_next_char(p: Seq<char>, s: Seq<char>, c: char, j: int)
    requires
        0 <= j,
    ensures
        next_char(p + s, c, p.len() + j) == next_char(s, c, j) + p.len(),
    decreases s.len() - j,
{
    if j < s.len() {
        assert((p + s)[p.len() + j] == s[j]);
        lemma_prefix_next_char(p, s, c, j + 1);
    }
}

proof fn lemma_prefix_next_mark(p: Seq<char>, s: Seq<char>, j: int)
    requires
        0 <= j,
    ensures
        next_mark(p + s, p.len() + j) == next_mark(s, j) + p.len(),
    decreases s.len() - j,
{
    if j < s.len() {
        assert((p + s)[p.len() + j] == s[j]);
        lemma_prefix_next_mark(p, s, j + 1);
    }
}

proof fn lemma_prefix_object_end(p: Seq<char>, s: Seq<char>)
    requires
        s.len() > 0,
    ensures
        object_end(p + s, p.len() as int) == object_end(s, 0) + p.len(),
{
    assert((p + s)[p.len() as int] == s[0]);
    lemma_prefix_next_char(p, s, ']', 1);
    lemma_next_char(s, ']', 1);
    let close = next_char(s, ']', 1);
    if close < s.len() {
        lemma_prefix_next_mark(p, s, close + 1);
    }
    lemma_prefix_next_mark(p, s, 1);
}

proof fn lemma_object_end_extended(s: Seq<char>, o: Seq<char>, start: int)
    requires
        0 <= start < s.len(),
        o.len() > 0,
        is_mark(o[0]),
        s[start] == '[' ==> next_char(s, ']', start + 1) < s.len(),
    ensures
        object_end(s + o, start) == object_end(s, start),
{
    assert((s + o)[start] == s[start]);
    if s[start] == '[' {
        let close = next_char(s, ']', start + 1);
        lemma_next_char(s, ']', start + 1);
        lemma_next_char_extended(s, o, ']', start + 1);
        lemma_next_mark_extended(s, o, close + 1);
    } else {
        lemma_next_mark_extended(s, o, start + 1);
    }
}

/// `o` is one complete selector object: it starts with `.`, `#` or `[`,
/// holds no whitespace, runs to its own end, and closes its bracket where it
/// opens with one.
pub open spec fn is_whole_object(o: Seq<char>) -> bool {
    &&& o.len() > 0
    &&& is_mark(o[0])
    &&& no_blank(o)
    &&& object_end(o, 0) == o.len()
    &&& o[0] == '[' ==> next_char(o, ']', 1) < o.len()
}

proof fn lemma_whole_object_decided(node: SpecNode, o: Seq<char>, cl: Seq<Seq<char>>)
    requires
        is_whole_object(o),
    ensures
        object_outcome(node, o, cl) is Ok,
{
    if o[0] == '[' {
        let p = seq![o[0]];
        assert(o =~= p + o.drop_first());
        lemma_prefix_next_char(p, o.drop_first(), ']', 0);
    }
}

/// `t` followed by two complete objects: the tag part decides first, then
/// the first object, then the second.
proof fn lemma_two_objects(node: SpecNode, t: Seq<char>, o1: Seq<char>, o2: Seq<char>)
    requires
        forall|j: int| 0 <= j < t.len() ==> !is_mark(#[trigger] t[j]) && !is_blank(t[j]),
        is_whole_object(o1),
        is_whole_object(o2),
    ensures
        selector_outcome(node, t + o1 + o2) == (if t.len() > 0 && t != node.tag {
            Ok::<bool, SelectorFault>(false)
        } else {
            match (
                object_outcome(node, o1, class_list(node.attributes)),
                object_outcome(node, o2, class_list(node.attributes)),
            ) {
                (Ok(b1), Ok(b2)) => Ok::<bool, SelectorFault>(b1 && b2),
                _ => Ok::<bool, SelectorFault>(false),
            }
        }),
{
    let cl = class_list(node.attributes);
    let a = t + o1;
    let sel = a + o2;
    let n = t.len() as int;
    // no whitespace
    assert forall|i: int| 0 <= i < sel.len() implies !is_blank(#[trigger] sel[i]) by {
        if i < n {
            assert(sel[i] == t[i]);
        } else if i < a.len() {
            assert(sel[i] == o1[i - n]);
        } else {
            assert(sel[i] == o2[i - a.len()]);
        }
    }
    // the tag part
    lemma_no_mark(t, 0);
    assert((o1 + o2)[0] == o1[0]);
    assert(sel =~= t + (o1 + o2));
    lemma_next_mark_extended(t, o1 + o2, 0);
    assert(next_mark(sel, 0) == n);
    assert(sel.take(n) =~= t);
    // the first object ends where the second starts
    lemma_prefix_object_end(t, o1);
    if o1[0] == '[' {
        lemma_prefix_next_char(t, o1, ']', 1);
        assert(a[n] == o1[0]);
    }
    assert(a[n] == o1[0]);
    lemma_object_end_extended(a, o2, n);
    assert(object_end(sel, n) == a.len());
    assert(sel.subrange(n, a.len() as int) =~= o1);
    // the second object ends at the end
    lemma_prefix_object_end(a, o2);
    assert(object_end(sel, a.len() as int) == sel.len());
    assert(sel.subrange(a.len() as int, sel.len() as int) =~= o2);
    assert(objects_outcome(node, sel, sel.len() as int, cl) == Ok::<bool, SelectorFault>(true));
    lemma_whole_object_decided(node, o1, cl);
    lemma_whole_object_decided(node, o2, cl);
    assert(objects_outcome(node, sel, a.len() as int, cl) == (if object_outcome(node, o2, cl) != Ok::<bool, SelectorFault>(true) {
        object_outcome(node, o2, cl)
    } else {
        Ok::<bool, SelectorFault>(true)
    }));
    assert(objects_outcome(node, sel, n, cl) == (if object_outcome(node, o1, cl) != Ok::<bool, SelectorFault>(true) {
        object_outcome(node, o1, cl)
    } else {
        objects_outcome(node, sel, a.len() as int, cl)
    }));
}

/// The order of the objects does not matter: after the same tag part,
/// swapping two complete objects (`.c`, `#i`, `[a]`, `[a=v]`) gives the
/// same result.
pub proof fn law_object_order(node: SpecNode, t: Seq<char>, o1: Seq<char>, o2: Seq<char>)
    requires
        forall|j: int| 0 <= j < t.len() ==> !is_mark(#[trigger] t[j]) && !is_blank(t[j]),
        is_whole_object(o1),
        is_whole_object(o2),
    ensures
        selector_outcome(node, t + o1 + o2) == selector_outcome(node, t + o2 + o1),
{
    lemma_two_objects(node, t, o1, o2);
    lemma_two_objects(node, t, o2, o1);
}

proof fn lemma_flatten_whole(os: Seq<Seq<char>>)
    requires
        forall|i: int| 0 <= i < os.len() ==> is_whole_object(#[trigger] os[i]),
    ensures
        no_blank(os.flatten()),
        os.len() > 0 ==> os.flatten().len() > 0 && os.flatten()[0] == os[0][0],
    decreases os.len(),
{
    if os.len() > 0 {
        let rest = os.drop_first();
        assert forall|i: int| 0 <= i < rest.len() implies is_whole_object(#[trigger] rest[i]) by {
            assert(rest[i] == os[i + 1]);
        }
        lemma_flatten_whole(rest);
        let o = os[0];
        assert(is_whole_object(o));
        let f = os.flatten();
        assert(f == o + rest.flatten());
        assert forall|j: int| 0 <= j < f.len() implies !is_blank(#[trigger] f[j]) by {
            if j < o.len() {
                assert(f[j] == o[j]);
            } else {
                assert(f[j] == rest.flatten()[j - o.len()]);
            }
        }
    }
}

proof fn lemma_flatten_single(o: Seq<char>)
    ensures
        seq![o].flatten() == o,
{
    let one = seq![o];
    assert(one.drop_first() =~= Seq::<Seq<char>>::empty());
    assert(one.drop_first().flatten() == Seq::<char>::empty());
    assert(one.first() == o);
    assert(one.flatten() =~= o);
}

proof fn lemma_flatten_push(os: Seq<Seq<char>>, o: Seq<char>)
    ensures
        os.push(o).flatten() == os.flatten() + o,
    decreases os.len(),
{
    if os.len() == 0 {
        assert(os.push(o) =~= seq![o]);
        lemma_flatten_single(o);
        assert(os.flatten() + o =~= o);
    } else {
        lemma_flatten_push(os.drop_first(), o);
        assert(os.push(o).drop_first() =~= os.drop_first().push(o));
        assert(os.push(o).flatten() =~= os.flatten() + o);
    }
}

/// A whole object, between `pre` and the next object (or the end), is read
/// as one object.
proof fn lemma_object_in_context(pre: Seq<char>, o: Seq<char>, rest: Seq<char>)
    requires
        is_whole_object(o),
        rest.len() == 0 || is_mark(rest[0]),
    ensures
        object_end(pre + o + rest, pre.len() as int) == pre.len() + o.len(),
        (pre + o + rest).subrange(pre.len() as int, (pre.len() + o.len()) as int) == o,
{
    if rest.len() == 0 {
        assert(pre + o + rest =~= pre + o);
        lemma_prefix_object_end(pre, o);
    } else {
        lemma_object_end_extended(o, rest, 0);
        assert(pre + o + rest =~= pre + (o + rest));
        assert((o + rest).len() > 0);
        lemma_prefix_object_end(pre, o + rest);
    }
    assert((pre + o + rest).subrange(pre.len() as int, (pre.len() + o.len()) as int) =~= o);
}

/// Whole objects after `pre` are checked one by one; the outcome is a match
/// exactly when every one of them matches.
proof fn lemma_objects_list(node: SpecNode, pre: Seq<char>, os: Seq<Seq<char>>, cl: Seq<Seq<char>>)
    requires
        forall|i: int| 0 <= i < os.len() ==> is_whole_object(#[trigger] os[i]),
    ensures
        objects_outcome(node, pre + os.flatten(), pre.len() as int, cl) == Ok::<bool, SelectorFault>(
            forall|i: int| 0 <= i < os.len() ==> #[trigger] object_outcome(node, os[i], cl) == Ok::<bool, SelectorFault>(true),
        ),
    decreases os.len(),
{
    if os.len() == 0 {
        assert(pre + os.flatten() =~= pre);
    } else {
        let o = os[0];
        let rest = os.drop_first();
        let tail = rest.flatten();
        assert forall|i: int| 0 <= i < rest.len() implies is_whole_object(#[trigger] rest[i]) by {
            assert(rest[i] == os[i + 1]);
        }
        lemma_flatten_whole(rest);
        if rest.len() > 0 {
            assert(is_whole_object(rest[0]));
        }
        assert(is_whole_object(o));
        let sel = pre + os.flatten();
        assert(sel =~= pre + o + tail);
        lemma_object_in_context(pre, o, tail);
        lemma_whole_object_decided(node, o, cl);
        crate::selector::lemma_object_end(sel, pre.len() as int);
        lemma_objects_list(node, pre + o, rest, cl);
        assert(pre + o + tail =~= (pre + o) + rest.flatten());
        let all = forall|i: int| 0 <= i < os.len() ==> #[trigger] object_outcome(node, os[i], cl) == Ok::<bool, SelectorFault>(true);
        let all_rest = forall|i: int| 0 <= i < rest.len() ==> #[trigger] object_outcome(node, rest[i], cl) == Ok::<bool, SelectorFault>(true);
        assert(all == (object_outcome(node, o, cl) == Ok::<bool, SelectorFault>(true) && all_rest)) by {
            if all {
                assert forall|i: int| 0 <= i < rest.len() implies #[trigger] object_outcome(node, rest[i], cl) == Ok::<bool, SelectorFault>(true) by {
                    assert(rest[i] == os[i + 1]);
                }
            }
            if object_outcome(node, o, cl) == Ok::<bool, SelectorFault>(true) && all_rest {
                assert forall|i: int| 0 <= i < os.len() implies #[trigger] object_outcome(node, os[i], cl) == Ok::<bool, SelectorFault>(true) by {
                    if i > 0 {
                        assert(os[i] == rest[i - 1]);
                    }
                }
            }
        }
    }
}

/// A tag part followed by whole objects: the tag part decides first, then
/// every object must match.
proof fn lemma_selector_objects(node: SpecNode, t: Seq<char>, os: Seq<Seq<char>>)
    requires
        forall|j: int| 0 <= j < t.len() ==> !is_mark(#[trigger] t[j]) && !is_blank(t[j]),
        os.len() > 0,
        forall|i: int| 0 <= i < os.len() ==> is_whole_object(#[trigger] os[i]),
    ensures
        selector_outcome(node, t + os.flatten()) == (if t.len() > 0 && t != node.tag {
            Ok::<bool, SelectorFault>(false)
        } else {
            Ok::<bool, SelectorFault>(
                forall|i: int| 0 <= i < os.len() ==> #[trigger] object_outcome(node, os[i], class_list(node.attributes))
                    == Ok::<bool, SelectorFault>(true),
            )
        }),
{
    let f = os.flatten();
    let sel = t + f;
    lemma_flatten_whole(os);
    assert(is_whole_object(os[0]));
    assert forall|i: int| 0 <= i < sel.len() implies !is_blank(#[trigger] sel[i]) by {
        if i < t.len() {
            assert(sel[i] == t[i]);
        } else {
            assert(sel[i] == f[i - t.len()]);
        }
    }
    lemma_no_mark(t, 0);
    lemma_next_mark_extended(t, f, 0);
    assert(sel.take(t.len() as int) =~= t);
    lemma_objects_list(node, t, os, class_list(node.attributes));
}

/// Every part of a compound selector is required: after a tag part, a
/// sequence of whole objects matches exactly when the tag part with each
/// object alone matches, and such a selector is never refused.
pub proof fn law_every_object_must_match(node: SpecNode, t: Seq<char>, os: Seq<Seq<char>>)
    requires
        forall|j: int| 0 <= j < t.len() ==> !is_mark(#[trigger] t[j]) && !is_blank(t[j]),
        os.len() > 0,
        forall|i: int| 0 <= i < os.len() ==> is_whole_object(#[trigger] os[i]),
    ensures
        selector_outcome(node, t + os.flatten()) is Ok,
        (selector_outcome(node, t + os.flatten()) == Ok::<bool, SelectorFault>(true)) == (forall|i: int|
            0 <= i < os.len() ==> #[trigger] selector_outcome(node, t + os[i]) == Ok::<bool, SelectorFault>(true)),
{
    let cl = class_list(node.attributes);
    lemma_selector_objects(node, t, os);
    assert forall|i: int| 0 <= i < os.len() implies #[trigger] selector_outcome(node, t + os[i]) == (if t.len() > 0
        && t != node.tag {
        Ok::<bool, SelectorFault>(false)
    } else {
        Ok::<bool, SelectorFault>(object_outcome(node, os[i], cl) == Ok::<bool, SelectorFault>(true))
    }) by {
        let one = seq![os[i]];
        lemma_flatten_single(os[i]);
        assert(one[0] == os[i]);
        lemma_selector_objects(node, t, one);
        if object_outcome(node, os[i], cl) == Ok::<bool, SelectorFault>(true) {
            assert(forall|k: int| 0 <= k < one.len() ==> #[trigger] object_outcome(node, one[k], cl) == Ok::<bool, SelectorFault>(true));
        } else {
            assert(!(object_outcome(node, one[0], cl) == Ok::<bool, SelectorFault>(true)));
        }
    }
    if t.len() > 0 && t != node.tag {
        assert(selector_outcome(node, t + os[0]) == Ok::<bool, SelectorFault>(false));
    } else {
        let all = forall|i: int| 0 <= i < os.len() ==> #[trigger] object_outcome(node, os[i], cl) == Ok::<bool, SelectorFault>(true);
        if all {
            assert forall|i: int| 0 <= i < os.len() implies #[trigger] selector_outcome(node, t + os[i]) == Ok::<bool, SelectorFault>(true) by {
                assert(object_outcome(node, os[i], cl) == Ok::<bool, SelectorFault>(true));
            }
        } else {
            let i = choose|i: int| 0 <= i < os.len() && !(#[trigger] object_outcome(node, os[i], cl) == Ok::<bool, SelectorFault>(true));
            assert(selector_outcome(node, t + os[i]) != Ok::<bool, SelectorFault>(true));
        }
    }
}

/// Adding an object narrows a selector exactly by that object: the selector
/// with one more whole object matches exactly when the selector matches and
/// its tag part with the new object alone matches.
pub proof fn law_adding_an_object(node: SpecNode, t: Seq<char>, os: Seq<Seq<char>>, o: Seq<char>)
    requires
        forall|j: int| 0 <= j < t.len() ==> !is_mark(#[trigger] t[j]) && !is_blank(t[j]),
        os.len() > 0,
        forall|i: int| 0 <= i < os.len() ==> is_whole_object(#[trigger] os[i]),
        is_whole_object(o),
    ensures
        selector_outcome(node, t + os.flatten() + o) == Ok::<bool, SelectorFault>(
            selector_outcome(node, t + os.flatten()) == Ok::<bool, SelectorFault>(true) && selector_outcome(node, t + o)
                == Ok::<bool, SelectorFault>(true),
        ),
{
    let all = os.push(o);
    lemma_flatten_push(os, o);
    assert(t + os.flatten() + o =~= t + all.flatten());
    assert forall|i: int| 0 <= i < all.len() implies is_whole_object(#[trigger] all[i]) by {
        if i < os.len() {
            assert(all[i] == os[i]);
        }
    }
    law_every_object_must_match(node, t, all);
    law_every_object_must_match(node, t, os);
    let big = forall|i: int| 0 <= i < all.len() ==> #[trigger] selector_outcome(node, t + all[i]) == Ok::<bool, SelectorFault>(true);
    let small = forall|i: int| 0 <= i < os.len() ==> #[trigger] selector_outcome(node, t + os[i]) == Ok::<bool, SelectorFault>(true);
    assert(all[os.len() as int] == o);
    assert(big == (small && selector_outcome(node, t + o) == Ok::<bool, SelectorFault>(true))) by {
        if big {
            assert forall|i: int| 0 <= i < os.len() implies #[trigger] selector_outcome(node, t + os[i]) == Ok::<bool, SelectorFault>(true) by {
                assert(all[i] == os[i]);
            }
        }
        if small && selector_outcome(node, t + o) == Ok::<bool, SelectorFault>(true) {
            assert forall|i: int| 0 <= i < all.len() implies #[trigger] selector_outcome(node, t + all[i]) == Ok::<bool, SelectorFault>(true) by {
                if i < os.len() {
                    assert(all[i] == os[i]);
                }
            }
        }
    }
    let r1 = selector_outcome(node, t + all.flatten());
    let r2 = selector_outcome(node, t + os.flatten());
    assert(r1 == Ok::<bool, SelectorFault>(r1->Ok_0));
    assert(r2 == Ok::<bool, SelectorFault>(r2->Ok_0));
    assert(r1->Ok_0 == big);
    assert(r2->Ok_0 == small);
}

/// The words of a class attribute, written with single spaces between them.
pub open spec fn join_words(ws: Seq<Seq<char>>) -> Seq<char>
    decreases ws.len(),
{
    if ws.len() == 0 {
        Seq::empty()
    } else if ws.len() == 1 {
        ws[0]
    } else {
        ws[0] + seq![' '] + join_words(ws.drop_first())
    }
}

proof fn lemma_prefix_split(p: Seq<char>, s: Seq<char>, j: int)
    requires
        0 <= j,
    ensures
        split_spaces(p + s, p.len() + j) == split_spaces(s, j),
    decreases s.len() - j,
{
    if j <= s.len() {
        lemma_prefix_next_char(p, s, ' ', j);
        lemma_next_char(s, ' ', j);
        let e = next_char(s, ' ', j);
        if e >= s.len() {
            assert((p + s).subrange(p.len() + j, (p + s).len() as int) =~= s.subrange(j, s.len() as int));
        } else {
            assert((p + s).subrange(p.len() + j, p.len() + e) =~= s.subrange(j, e));
            lemma_prefix_split(p, s, e + 1);
        }
    }
}

proof fn lemma_split_joined(ws: Seq<Seq<char>>)
    requires
        ws.len() > 0,
        forall|i: int, j: int| 0 <= i < ws.len() && 0 <= j < ws[i].len() ==> #[trigger] ws[i][j] != ' ',
    ensures
        split_spaces(join_words(ws), 0) == ws,
    decreases ws.len(),
{
    let w = ws[0];
    if ws.len() == 1 {
        lemma_char_absent(w, ' ', 0);
        assert(w.subrange(0, w.len() as int) =~= w);
        assert(ws =~= seq![w]);
    } else {
        let rest = ws.drop_first();
        assert forall|i: int, j: int| 0 <= i < rest.len() && 0 <= j < rest[i].len() implies #[trigger] rest[i][j] != ' ' by {
            assert(rest[i] == ws[i + 1]);
        }
        lemma_split_joined(rest);
        let p = w + seq![' '];
        let joined = join_words(ws);
        assert(joined =~= p + join_words(rest));
        assert forall|j: int| 0 <= j < w.len() implies joined[j] != ' ' by {
            assert(joined[j] == w[j]);
            assert(ws[0][j] != ' ');
        }
        lemma_char_found(joined, ' ', 0, w.len() as int);
        assert(joined.subrange(0, w.len() as int) =~= w);
        lemma_prefix_split(p, join_words(rest), 0);
        assert(ws =~= seq![w].add(rest));
    }
}

/// A class selector names one word of the class attribute: for an element
/// whose class attribute is words separated by single spaces, `.w` matches
/// exactly when `w` is one of those words, whatever else the words hold
/// (hyphens too); an element without a class attribute matches no class.
pub proof fn law_class_words(node: SpecNode, words: Seq<Seq<char>>, w: Seq<char>)
    requires
        forall|j: int| 0 <= j < w.len() ==> !is_mark(#[trigger] w[j]) && !is_blank(w[j]),
        words.len() > 0,
        forall|i: int, j: int| 0 <= i < words.len() && 0 <= j < words[i].len() ==> #[trigger] words[i][j] != ' ',
    ensures
        node.attributes.contains_key(class_name()) && node.attributes[class_name()] == join_words(words)
            ==> selector_outcome(node, seq!['.'] + w) == Ok::<bool, SelectorFault>(words.contains(w)),
        !node.attributes.contains_key(class_name()) ==> selector_outcome(node, seq!['.'] + w) == Ok::<bool, SelectorFault>(
            false,
        ),
{
    lemma_simple_object(node, '.', w);
    if node.attributes.contains_key(class_name()) && node.attributes[class_name()] == join_words(words) {
        lemma_split_joined(words);
    }
}

} // verus!
