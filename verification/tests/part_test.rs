use aslan::{ASLANParser, Node};

#[test]
fn parses_simple_string_with_parts() {
    let mut parser = ASLANParser::new();
    let result = parser.parse("[asland_formatted_text][aslanp]This is the first part.[aslanp]This is the second part.[aslanp]This is the third part.");
    assert_eq!(result, Node::mapping(vec![
        ("_default", Node::Void),
        ("formatted_text", Node::sequence(vec![
            Node::text("This is the first part."),
            Node::text("This is the second part."),
            Node::text("This is the third part."),
        ])),
    ]));
}

#[test]
fn parses_simple_string_with_parts_and_instructions() {
    let mut parser = ASLANParser::new();
    let result = parser.parse("[asland_styled_text][aslanp][aslani_bold][aslani_color:red]This is bold and red text.[aslanp][aslani_italic][aslani_underline]This is italic and underlined text.[aslanp][aslani_size:large][aslani_font:monospace]This is large monospace text.");
    assert_eq!(result, Node::mapping(vec![
        ("_default", Node::Void),
        ("styled_text", Node::sequence(vec![
            Node::text("This is bold and red text."),
            Node::text("This is italic and underlined text."),
            Node::text("This is large monospace text."),
        ])),
    ]));
}

#[test]
fn parses_simple_string_with_parts_and_text_before_first_part() {
    let mut parser = ASLANParser::new();
    let result = parser.parse("[asland_formatted_text]This is some preamble.[aslanp]This is the first part.[aslanp]This is the second part.[aslanp]This is the third part.");
    assert_eq!(result, Node::mapping(vec![
        ("_default", Node::Void),
        ("formatted_text", Node::sequence(vec![
            Node::text("This is some preamble."),
            Node::text("This is the first part."),
            Node::text("This is the second part."),
            Node::text("This is the third part."),
        ])),
    ]));
}
