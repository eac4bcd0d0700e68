use lib::{chars_of, match_sel_obj_to_node, match_selector_to_node, Attributes, ParsedNode, SelectorError};

fn node(tag: &str, attrs: &[(&str, &str)]) -> ParsedNode {
    let mut attributes = Attributes::new();
    for (name, value) in attrs {
        attributes.insert(chars_of(name), chars_of(value));
    }
    ParsedNode { tag: chars_of(tag), attributes }
}

fn sample() -> ParsedNode {
    node("tag", &[("class", "class cls c"), ("id", "id"), ("attr", "val")])
}

fn matches(n: &ParsedNode, selector: &str) -> bool {
    match match_selector_to_node(n, selector) {
        Ok(b) => b,
        Err(_) => panic!("selector {:?} was refused", selector),
    }
}

#[test]
fn full_compound_selector_matches() {
    assert!(matches(&sample(), "tag#id.class.cls.c[attr=val]"));
}

#[test]
fn single_parts_match() {
    let n = sample();
    assert!(matches(&n, "tag"));
    assert!(matches(&n, ".cls"));
    assert!(matches(&n, "#id"));
    assert!(matches(&n, "[attr=val]"));
}

#[test]
fn tag_alone_is_compared_whole() {
    let n = sample();
    assert!(!matches(&n, "ta"));
    assert!(!matches(&n, "Tag"));
    assert!(!matches(&n, "tags"));
}

#[test]
fn wrong_tag_before_objects_fails() {
    assert!(!matches(&sample(), "div.cls"));
    assert!(!matches(&sample(), "div#id"));
}

#[test]
fn empty_selector_is_refused() {
    assert!(matches!(match_selector_to_node(&sample(), ""), Err(SelectorError::EmptySelector)));
}

#[test]
fn whitespace_in_tag_part_is_refused() {
    assert!(matches!(match_selector_to_node(&sample(), "ta g"), Err(SelectorError::WhitespaceInSelector)));
    assert!(matches!(match_selector_to_node(&sample(), "tag\t.cls"), Err(SelectorError::WhitespaceInSelector)));
    assert!(matches!(match_selector_to_node(&sample(), " .cls"), Err(SelectorError::WhitespaceInSelector)));
}

#[test]
fn whitespace_anywhere_is_refused() {
    assert!(matches!(match_selector_to_node(&sample(), ".cls c"), Err(SelectorError::WhitespaceInSelector)));
    assert!(matches!(match_selector_to_node(&sample(), "tag.cls\n"), Err(SelectorError::WhitespaceInSelector)));
}

#[test]
fn missing_bracket_is_refused_with_its_object() {
    match match_selector_to_node(&sample(), "tag[attr") {
        Err(SelectorError::MissingClosingBracket(obj)) => assert_eq!(obj, chars_of("[attr")),
        _ => panic!("expected a missing bracket"),
    }
}

#[test]
fn brackets_hold_one_attribute_test() {
    let n = node("a", &[("href", "x.y"), ("data", "#[z]")]);
    assert!(matches(&n, "[href=x.y]"));
    assert!(matches(&n, "a[href='x.y'].q") == false);
    assert!(matches(&n, "[data=\"#[z\"]") == false);
    assert!(matches(&n, "[href=x.y][data]"));
}

#[test]
fn unclosed_bracket_runs_to_the_end() {
    match match_selector_to_node(&sample(), "[attr=v.x#y") {
        Err(SelectorError::MissingClosingBracket(obj)) => assert_eq!(obj, chars_of("[attr=v.x#y")),
        _ => panic!("expected a missing bracket"),
    }
}

#[test]
fn earlier_failing_object_hides_later_refusal() {
    assert!(!matches(&sample(), ".nope[attr"));
}

#[test]
fn quoted_and_bare_values_agree() {
    let n = sample();
    assert!(matches(&n, "[attr=\"val\"]"));
    assert!(matches(&n, "[attr='val']"));
    assert!(matches(&n, "[attr=val]"));
    assert!(!matches(&n, "[attr=\"other\"]"));
    assert!(!matches(&n, "[attr='other']"));
    assert!(!matches(&n, "[attr=other]"));
}

#[test]
fn spaces_inside_brackets_are_refused() {
    assert!(matches!(match_selector_to_node(&sample(), "[ attr = val ]"), Err(SelectorError::WhitespaceInSelector)));
    assert!(matches!(match_selector_to_node(&sample(), "[attr = \"val\" ]"), Err(SelectorError::WhitespaceInSelector)));
}

#[test]
fn text_between_first_two_quotes_is_the_value() {
    let n = node("a", &[("k", "v")]);
    assert!(matches(&n, "[k=x\"v\"y]"));
    assert!(matches(&n, "[k=\"v]"));
    assert!(matches(&n, "[k='v\"w']"));
}

#[test]
fn attribute_presence() {
    let n = sample();
    assert!(matches(&n, "[attr]"));
    assert!(matches(&n, "[id]"));
    assert!(!matches(&n, "[missing]"));
    assert!(!matches(&n, "[missing=val]"));
}

#[test]
fn non_ascii_selectors_are_read_by_characters() {
    let n = node("ä", &[("ö", "ü"), ("class", "é")]);
    assert!(matches(&n, "ä"));
    assert!(!matches(&n, "a"));
    assert!(matches(&n, "ä.é[ö=ü]"));
}

#[test]
fn id_must_be_equal() {
    let n = sample();
    assert!(!matches(&n, "#i"));
    assert!(!matches(&n, "#ids"));
    assert!(!matches(&node("a", &[]), "#id"));
}

#[test]
fn class_is_one_word_of_the_list() {
    let n = sample();
    assert!(matches(&n, ".class"));
    assert!(matches(&n, ".c"));
    assert!(!matches(&n, ".cl"));
    assert!(!matches(&node("a", &[]), ".c"));
}

#[test]
fn empty_class_word_between_double_spaces() {
    let n = node("a", &[("class", "x  y")]);
    assert!(matches(&n, "."));
    assert!(!matches(&sample(), "."));
}

#[test]
fn more_objects_only_narrow() {
    let n = sample();
    assert!(matches(&n, "tag.cls"));
    assert!(!matches(&n, "tag.cls.zzz"));
    assert!(!matches(&n, "tag.zzz"));
    assert!(!matches(&n, "tag.zzz.cls"));
}

#[test]
fn later_attribute_value_replaces_earlier() {
    let n = node("a", &[("k", "1"), ("k", "2")]);
    assert!(matches(&n, "[k=2]"));
    assert!(!matches(&n, "[k=1]"));
}

#[test]
fn single_objects_checked_directly() {
    let n = sample();
    let classes = vec![chars_of("class"), chars_of("cls"), chars_of("c")];
    assert!(matches!(match_sel_obj_to_node(&n, &chars_of(".cls"), &classes), Ok(true)));
    assert!(matches!(match_sel_obj_to_node(&n, &chars_of(".x"), &classes), Ok(false)));
    assert!(matches!(match_sel_obj_to_node(&n, &chars_of("#id"), &classes), Ok(true)));
    assert!(matches!(match_sel_obj_to_node(&n, &chars_of("[attr='val']"), &classes), Ok(true)));
    assert!(matches!(match_sel_obj_to_node(&n, &chars_of("[attr"), &classes), Err(SelectorError::MissingClosingBracket(_))));
}

#[test]
fn object_order_does_not_matter() {
    let n = sample();
    for (a, b) in [
        ("tag#id.cls", "tag.cls#id"),
        ("[attr=val].c", ".c[attr=val]"),
        ("#id[attr]", "[attr]#id"),
        (".zzz#id", "#id.zzz"),
        ("tag[attr='x'].cls", "tag.cls[attr='x']"),
    ] {
        assert_eq!(matches(&n, a), matches(&n, b), "{} vs {}", a, b);
    }
}
