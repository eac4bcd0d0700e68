use lib::{chars_of, parse_xml, ParsedNode, XmlError, XmlEvent};

fn text(v: &[char]) -> String {
    v.iter().collect()
}

fn describe_node(n: &ParsedNode) -> String {
    let mut attrs: Vec<String> = n
        .attributes
        .entries()
        .iter()
        .map(|(k, v)| format!("{}={}", text(k), text(v)))
        .collect();
    attrs.sort();
    if attrs.is_empty() {
        text(&n.tag)
    } else {
        format!("{}[{}]", text(&n.tag), attrs.join(","))
    }
}

fn describe(e: &XmlEvent) -> String {
    match e {
        XmlEvent::Comment(t) => format!("comment {:?}", text(t)),
        XmlEvent::UnclosedComment(t) => format!("unclosed comment {:?}", text(t)),
        XmlEvent::Open { depth, node } => format!("open {} {}", depth, describe_node(node)),
        XmlEvent::SelfClosing { depth, node } => format!("self {} {}", depth, describe_node(node)),
        XmlEvent::Close { depth, tag } => format!("close {} {}", depth, text(tag)),
    }
}

fn events(src: &str) -> Vec<String> {
    parse_xml(src).events.iter().map(describe).collect()
}

fn accepted(src: &str) -> Vec<String> {
    let trace = parse_xml(src);
    assert!(trace.failure.is_none(), "document {:?} was refused", src);
    trace.events.iter().map(describe).collect()
}

#[test]
fn nested_elements_report_depths() {
    assert_eq!(
        accepted("<a><b></b><c/></a>"),
        vec!["open 0 a", "open 1 b", "close 1 b", "self 1 c", "close 0 a"]
    );
}

#[test]
fn attributes_are_read() {
    assert_eq!(
        accepted("<a x=\"1\" y='2' z></a>"),
        vec!["open 0 a[x=1,y=2,z=]", "close 0 a"]
    );
}

#[test]
fn later_attribute_replaces_earlier() {
    assert_eq!(accepted("<a x=\"1\" x=\"2\"/>"), vec!["self 0 a[x=2]"]);
}

#[test]
fn spaces_around_equal_sign() {
    assert_eq!(accepted("<a x = \"1\"></a>"), vec!["open 0 a[x=1]", "close 0 a"]);
}

#[test]
fn text_content_is_skipped() {
    assert_eq!(accepted("<p>hello world</p>"), vec!["open 0 p", "close 0 p"]);
}

#[test]
fn plain_text_gives_nothing() {
    let trace = parse_xml("just some text, no markup at all");
    assert!(trace.events.is_empty());
    assert!(trace.failure.is_none());
    assert!(parse_xml("").events.is_empty());
}

#[test]
fn comments_are_reported() {
    assert_eq!(
        accepted("<!-- hi --><a></a>"),
        vec!["comment \" hi \"", "open 0 a", "close 0 a"]
    );
}

#[test]
fn unclosed_comment_ends_reading() {
    assert_eq!(accepted("<!-- hi <a>"), vec!["unclosed comment \" hi <a>\""]);
}

#[test]
fn unclosed_comment_inside_element_leaves_it_open() {
    let trace = parse_xml("<a><!-- x");
    match &trace.failure {
        Some(XmlError::UnclosedNodes(stack)) => {
            assert_eq!(stack.len(), 1);
            assert_eq!(stack[0].tag, chars_of("a"));
        }
        _ => panic!("expected unclosed nodes"),
    }
    assert_eq!(
        trace.events.iter().map(describe).collect::<Vec<_>>(),
        vec!["open 0 a", "unclosed comment \" x\""]
    );
}

#[test]
fn comment_inside_element_is_skipped() {
    assert_eq!(
        accepted("<a><!-- c -->text</a>"),
        vec!["open 0 a", "comment \" c \"", "close 0 a"]
    );
}

#[test]
fn text_after_comment_is_content() {
    let trace = parse_xml("<!--c-->x<a>");
    assert_eq!(
        trace.events.iter().map(describe).collect::<Vec<_>>(),
        vec!["comment \"c\"", "open 0 a"]
    );
    assert!(matches!(trace.failure, Some(XmlError::UnclosedNodes(_))));
}

#[test]
fn bracket_after_space_ends_the_tag() {
    let trace = parse_xml("<a b >");
    assert_eq!(trace.events.iter().map(describe).collect::<Vec<_>>(), vec!["open 0 a[b=]"]);
    assert!(matches!(trace.failure, Some(XmlError::UnclosedNodes(_))));
    assert_eq!(accepted("<a b ></a>"), vec!["open 0 a[b=]", "close 0 a"]);
}

#[test]
fn slash_after_space_makes_the_node_self_closing() {
    assert_eq!(accepted("<img src=\"x\" />"), vec!["self 0 img[src=x]"]);
    assert_eq!(accepted("<br />"), vec!["self 0 br"]);
    assert_eq!(accepted("<p><in a b /></p>"), vec!["open 0 p", "self 1 in[a=,b=]", "close 0 p"]);
}

#[test]
fn unclosed_elements_are_reported() {
    let trace = parse_xml("<a><b>");
    match &trace.failure {
        Some(XmlError::UnclosedNodes(stack)) => {
            assert_eq!(stack.len(), 2);
            assert_eq!(stack[0].tag, chars_of("a"));
            assert_eq!(stack[1].tag, chars_of("b"));
        }
        _ => panic!("expected unclosed nodes"),
    }
    assert_eq!(events("<a><b>"), vec!["open 0 a", "open 1 b"]);
}

#[test]
fn rogue_closing_tag_is_refused() {
    let trace = parse_xml("<a></b>");
    match &trace.failure {
        Some(XmlError::RogueClosingNode { tag, last }) => {
            assert_eq!(*tag, chars_of("b"));
            assert_eq!(last.tag, chars_of("a"));
        }
        _ => panic!("expected a rogue closing node"),
    }
    assert_eq!(events("<a></b>"), vec!["open 0 a", "close 0 b"]);
}

#[test]
fn closing_without_opening_is_refused() {
    let trace = parse_xml("<a></a></a>");
    match &trace.failure {
        Some(XmlError::ClosingWithoutOpening { tag }) => assert_eq!(*tag, chars_of("a")),
        _ => panic!("expected a closing tag without opening"),
    }
    assert_eq!(events("<a></a></a>"), vec!["open 0 a", "close 0 a"]);
}

#[test]
fn misplaced_equal_sign_is_refused() {
    assert!(matches!(parse_xml("<a=b>").failure, Some(XmlError::MisplacedEqualSign)));
}

#[test]
fn misplaced_quote_is_refused() {
    assert!(matches!(parse_xml("<a \"x\">").failure, Some(XmlError::MisplacedQuote)));
}

#[test]
fn missing_end_quote_is_refused() {
    match parse_xml("<a x=\"1>").failure {
        Some(XmlError::MissingEndQuote { name, node }) => {
            assert_eq!(name, chars_of("x"));
            assert_eq!(node.tag, chars_of("a"));
        }
        _ => panic!("expected a missing end quote"),
    }
}

#[test]
fn mismatched_quotes_leave_the_value_open() {
    assert!(matches!(parse_xml("<a x=\"1'>").failure, Some(XmlError::MissingEndQuote { .. })));
}

#[test]
fn unquoted_value_is_refused() {
    assert!(matches!(parse_xml("<a x=1>").failure, Some(XmlError::UnexpectedCharacter)));
}

#[test]
fn events_before_a_refusal_are_kept() {
    assert_eq!(events("<r><a/><b x=1>"), vec!["open 0 r", "self 1 a"]);
}

#[test]
fn non_ascii_text_is_read_by_characters() {
    assert_eq!(
        accepted("<ä ö=\"ü\"><!--é--></ä>"),
        vec!["open 0 ä[ö=ü]", "comment \"é\"", "close 0 ä"]
    );
}

#[test]
fn nested_tags_in_the_text_are_accepted() {
    assert_eq!(
        accepted("<a>x<!--c--><b/>y<c></c></a>"),
        vec!["open 0 a", "comment \"c\"", "self 1 b", "open 1 c", "close 1 c", "close 0 a"]
    );
}

#[test]
fn crossed_tags_in_the_text_are_refused() {
    let trace = parse_xml("<a><b></a></b>");
    assert!(matches!(trace.failure, Some(XmlError::RogueClosingNode { .. })));
}
