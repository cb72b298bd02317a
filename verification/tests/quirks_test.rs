use aslan::{ASLANParser, Node};

#[test]
fn parses_empty_string() {
    let mut parser = ASLANParser::new();
    let result = parser.parse("");
    assert_eq!(result, Node::mapping(vec![
        ("_default", Node::text("")),
    ]));
}

#[test]
fn parses_string_starting_with_delimiter() {
    let mut parser = ASLANParser::new();
    let result = parser.parse("[asland_test]test");
    assert_eq!(result, Node::mapping(vec![
        ("_default", Node::Void),
        ("test", Node::text("test")),
    ]));
}
