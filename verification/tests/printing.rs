use markup::parser::dom_parser;
use markup::printer::print_node;

fn printed(input: &str, depth: usize) -> Vec<String> {
    let root = dom_parser(input).expect("expected a successful parse");
    print_node(&root, depth)
        .into_iter()
        .map(|line| line.into_iter().collect())
        .collect()
}

fn printed_first_child(input: &str, depth: usize) -> Vec<String> {
    let root = dom_parser(input).expect("expected a successful parse");
    print_node(&root.children[0], depth)
        .into_iter()
        .map(|line| line.into_iter().collect())
        .collect()
}

#[test]
fn round_trip_tree_prints_exactly() {
    let lines = printed_first_child(
        "<a href=\"localhost\"><i>test</i><img src=\"test\" onerror=\"alert(1)\"/></a>",
        0,
    );
    assert_eq!(lines.len(), 6);
    assert_eq!(lines[0], "<a href:\"localhost\">");
    assert_eq!(lines[1], "  <i>");
    assert_eq!(lines[2], "    test");
    assert_eq!(lines[3], "  </i>");
    assert_eq!(lines[4], "  <img src:\"test\" onerror:\"alert(1)\">");
    assert_eq!(lines[5], "</a>");
}

#[test]
fn depth_shifts_every_line_two_spaces() {
    let lines = printed_first_child("<a><i>t</i></a>", 1);
    assert_eq!(lines.len(), 5);
    assert_eq!(lines[0], "  <a>");
    assert_eq!(lines[1], "    <i>");
    assert_eq!(lines[2], "      t");
    assert_eq!(lines[3], "    </i>");
    assert_eq!(lines[4], "  </a>");
}

#[test]
fn bare_root_prints_one_line() {
    let lines = printed("", 0);
    assert_eq!(lines, vec!["<root>".to_string()]);
}

#[test]
fn self_closing_prints_only_an_opening_line() {
    let lines = printed_first_child("<br/>", 0);
    assert_eq!(lines, vec!["<br>".to_string()]);
}

#[test]
fn text_prints_verbatim_under_root() {
    let lines = printed("hello world", 0);
    assert_eq!(lines.len(), 3);
    assert_eq!(lines[0], "<root>");
    assert_eq!(lines[1], "  hello world");
    assert_eq!(lines[2], "</root>");
}

#[test]
fn duplicate_key_prints_once_with_last_value() {
    let lines = printed_first_child("<a x=\"1\" x=\"2\"></a>", 0);
    assert_eq!(lines[0], "<a x:\"2\">");
}
