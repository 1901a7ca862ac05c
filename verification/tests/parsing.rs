use markup::dom::{Node, NodeType};
use markup::errors::ParseError;
use markup::parser::dom_parser;

fn cs(s: &str) -> Vec<char> {
    s.chars().collect()
}

fn parse_ok(s: &str) -> Node {
    dom_parser(s).expect("expected a successful parse")
}

fn element_tag(n: &Node) -> Vec<char> {
    match &n.node_type {
        NodeType::Element(e) => e.tag_name.clone(),
        NodeType::Text(_) => panic!("expected an element node"),
    }
}

fn attr_of(n: &Node, key: &str) -> Option<Vec<char>> {
    match &n.node_type {
        NodeType::Element(e) => e.attributes.get(&cs(key)).cloned(),
        NodeType::Text(_) => panic!("expected an element node"),
    }
}

fn text_of(n: &Node) -> Vec<char> {
    match &n.node_type {
        NodeType::Text(t) => t.data.clone(),
        NodeType::Element(_) => panic!("expected a text node"),
    }
}

#[test]
fn round_trip_tree() {
    let root = parse_ok("<a href=\"localhost\"><i>test</i><img src=\"test\" onerror=\"alert(1)\"/></a>");
    assert_eq!(element_tag(&root), cs("root"));
    assert_eq!(root.children.len(), 1);

    let a = &root.children[0];
    assert_eq!(element_tag(a), cs("a"));
    assert_eq!(attr_of(a, "href"), Some(cs("\"localhost\"")));
    assert_eq!(a.children.len(), 2);

    let i = &a.children[0];
    assert_eq!(element_tag(i), cs("i"));
    assert_eq!(i.children.len(), 1);
    assert_eq!(text_of(&i.children[0]), cs("test"));

    let img = &a.children[1];
    assert_eq!(element_tag(img), cs("img"));
    assert_eq!(attr_of(img, "src"), Some(cs("\"test\"")));
    assert_eq!(attr_of(img, "onerror"), Some(cs("\"alert(1)\"")));
    assert_eq!(img.children.len(), 0);
}

#[test]
fn empty_input_gives_bare_root() {
    let root = parse_ok("");
    assert_eq!(element_tag(&root), cs("root"));
    assert_eq!(root.children.len(), 0);
}

#[test]
fn bare_text_run() {
    let root = parse_ok("hello world");
    assert_eq!(root.children.len(), 1);
    assert_eq!(text_of(&root.children[0]), cs("hello world"));
}

#[test]
fn self_closing_always_leaf() {
    let root = parse_ok("<br/>");
    assert_eq!(root.children.len(), 1);
    assert_eq!(element_tag(&root.children[0]), cs("br"));
    assert_eq!(root.children[0].children.len(), 0);

    let root = parse_ok("<x y=\"1\" z=\"2\"/>");
    let x = &root.children[0];
    assert_eq!(element_tag(x), cs("x"));
    assert_eq!(attr_of(x, "y"), Some(cs("\"1\"")));
    assert_eq!(attr_of(x, "z"), Some(cs("\"2\"")));
    assert_eq!(x.children.len(), 0);
}

#[test]
fn duplicate_keys_last_wins() {
    let root = parse_ok("<a x=\"1\" x=\"2\"></a>");
    let a = &root.children[0];
    match &a.node_type {
        NodeType::Element(e) => assert_eq!(e.attributes.len(), 1),
        NodeType::Text(_) => panic!("expected an element node"),
    }
    assert_eq!(attr_of(a, "x"), Some(cs("\"2\"")));
}

#[test]
fn attribute_order_does_not_change_lookups() {
    let first = parse_ok("<a x=\"1\" y=\"2\"></a>");
    let second = parse_ok("<a y=\"2\" x=\"1\"></a>");
    for root in [&first, &second] {
        let a = &root.children[0];
        assert_eq!(attr_of(a, "x"), Some(cs("\"1\"")));
        assert_eq!(attr_of(a, "y"), Some(cs("\"2\"")));
    }
}

#[test]
fn whitespace_inside_tags_is_superficial() {
    let plain = parse_ok("<a href=\"x\">t</a>");
    let padded = parse_ok("<a \t\n href=\"x\" >t</a>");
    assert_eq!(plain, padded);
    let leading = parse_ok("< a href=\"x\">t</ a >");
    assert_eq!(plain, leading);
}

#[test]
fn missing_key_lookup_is_none() {
    let root = parse_ok("<a x=\"1\"></a>");
    assert_eq!(attr_of(&root.children[0], "y"), None);
}

#[test]
fn key_token_can_serve_as_value() {
    let root = parse_ok("<a x=y=></a>");
    assert_eq!(attr_of(&root.children[0], "x"), Some(cs("y=")));
}

#[test]
fn value_may_hold_angle_and_equals() {
    let root = parse_ok("<a x=\"a<b=c\"></a>");
    assert_eq!(attr_of(&root.children[0], "x"), Some(cs("\"a<b=c\"")));
}

#[test]
fn unbalanced_open_fails() {
    assert!(matches!(dom_parser("<a>"), Err(ParseError::UnbalancedTagError)));
    assert!(matches!(
        dom_parser("<a><b></b>"),
        Err(ParseError::UnbalancedTagError)
    ));
}

#[test]
fn close_without_open_fails() {
    assert!(matches!(dom_parser("</a>"), Err(ParseError::UnbalancedTagError)));
}

#[test]
fn mismatched_close_fails() {
    assert!(matches!(
        dom_parser("<a></b>"),
        Err(ParseError::UnbalancedTagError)
    ));
}

#[test]
fn stray_delimiters_fail_tokenizing() {
    assert!(matches!(dom_parser(">"), Err(ParseError::TokenizeError)));
    assert!(matches!(dom_parser("a>b"), Err(ParseError::TokenizeError)));
    assert!(matches!(dom_parser("<"), Err(ParseError::TokenizeError)));
    assert!(matches!(dom_parser("<>"), Err(ParseError::TokenizeError)));
    assert!(matches!(dom_parser("</>"), Err(ParseError::TokenizeError)));
    assert!(matches!(dom_parser("<a/b>"), Err(ParseError::TokenizeError)));
}

#[test]
fn tag_without_name_fails() {
    assert!(matches!(dom_parser("< >"), Err(ParseError::MalformedTagError)));
    assert!(matches!(dom_parser("</ >"), Err(ParseError::MalformedTagError)));
}

#[test]
fn malformed_attributes_fail() {
    assert!(matches!(
        dom_parser("<a x></a>"),
        Err(ParseError::MalformedAttributeError)
    ));
    assert!(matches!(
        dom_parser("<a x=></a>"),
        Err(ParseError::MalformedAttributeError)
    ));
    assert!(matches!(
        dom_parser("<a x=\"1></a>"),
        Err(ParseError::MalformedAttributeError)
    ));
    assert!(matches!(
        dom_parser("<a =\"v\"></a>"),
        Err(ParseError::MalformedAttributeError)
    ));
    assert!(matches!(
        dom_parser("<a x=\"\"></a>"),
        Err(ParseError::MalformedAttributeError)
    ));
}

#[test]
fn space_around_equals_is_malformed() {
    assert!(matches!(
        dom_parser("<a x = \"1\"></a>"),
        Err(ParseError::MalformedAttributeError)
    ));
}

#[test]
fn several_top_level_elements() {
    let root = parse_ok("<a></a><b>t</b>");
    assert_eq!(root.children.len(), 2);
    assert_eq!(element_tag(&root.children[0]), cs("a"));
    assert_eq!(element_tag(&root.children[1]), cs("b"));
    assert_eq!(text_of(&root.children[1].children[0]), cs("t"));
}

#[test]
fn nested_elements_attach_in_order() {
    let root = parse_ok("<a><b>one</b>two<c/></a>");
    let a = &root.children[0];
    assert_eq!(a.children.len(), 3);
    assert_eq!(element_tag(&a.children[0]), cs("b"));
    assert_eq!(text_of(&a.children[0].children[0]), cs("one"));
    assert_eq!(text_of(&a.children[1]), cs("two"));
    assert_eq!(element_tag(&a.children[2]), cs("c"));
    assert_eq!(a.children[2].children.len(), 0);
}
