use aslan::{ASLANParser, Node};

#[test]
fn parses_simple_string_with_object_in_array() {
    let mut parser = ASLANParser::new();
    let result = parser.parse("[asland_fruits][aslana][asland]Apple[asland]Banana[asland][aslano][asland_x]hi[asland_y]lo");
    assert_eq!(result, Node::mapping(vec![
        ("_default", Node::Void),
        ("fruits", Node::sequence(vec![
            Node::text("Apple"),
            Node::text("Banana"),
            Node::mapping(vec![
                ("x", Node::text("hi")),
                ("y", Node::text("lo")),
            ]),
        ])),
    ]));
}

#[test]
fn parses_simple_string_with_array_in_object() {
    let mut parser = ASLANParser::new();
    let result = parser.parse("[asland_fruits][aslano][asland_best]Apple[asland_worst]Durian[asland_others][aslana][asland]Banana[asland]Pear[aslana][asland_next]Plum");
    assert_eq!(result, Node::mapping(vec![
        ("_default", Node::Void),
        ("fruits", Node::mapping(vec![
            ("best", Node::text("Apple")),
            ("worst", Node::text("Durian")),
            ("others", Node::sequence(vec![
                Node::text("Banana"),
                Node::text("Pear"),
            ])),
            ("next", Node::text("Plum")),
        ])),
    ]));
}

#[test]
fn parses_simple_string_with_object_then_array_same_key_should_override_object() {
    let mut parser = ASLANParser::new();
    let result = parser.parse("[asland_hi][aslano][asland_x]foo[aslano][asland_hi][aslana][asland]bar[aslana]");
    assert_eq!(result, Node::mapping(vec![
        ("_default", Node::Void),
        ("hi", Node::sequence(vec![
            Node::text("bar"),
        ])),
    ]));
}

#[test]
fn parses_simple_string_with_array_then_object_same_key_should_override_array() {
    let mut parser = ASLANParser::new();
    let result = parser.parse("[asland_hi][aslana][asland]foo[aslana][asland_hi][aslano][asland_x]bar[aslano]");
    assert_eq!(result, Node::mapping(vec![
        ("_default", Node::Void),
        ("hi", Node::mapping(vec![
            ("x", Node::text("bar")),
        ])),
    ]));
}
