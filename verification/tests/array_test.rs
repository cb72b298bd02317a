use aslan::{ASLANParser, Node};

#[test]
fn parses_simple_string_with_array() {
    let mut parser = ASLANParser::new();
    let result = parser.parse("[asland_fruits][aslana][asland]Apple[asland]Banana[asland]Cherry");
    assert_eq!(result, Node::mapping(vec![
        ("_default", Node::Void),
        ("fruits", Node::sequence(vec![
            Node::text("Apple"),
            Node::text("Banana"),
            Node::text("Cherry"),
        ])),
    ]));
}

#[test]
fn parses_simple_string_with_array_indices() {
    let mut parser = ASLANParser::new();
    let result = parser.parse("[asland_custom_array][aslana][asland_2]Third item[asland_0]First item[asland_1]Second item");
    assert_eq!(result, Node::mapping(vec![
        ("_default", Node::Void),
        ("custom_array", Node::sequence(vec![
            Node::text("First item"),
            Node::text("Second item"),
            Node::text("Third item"),
        ])),
    ]));
}

#[test]
fn parses_simple_string_with_mixed_array_indices() {
    let mut parser = ASLANParser::new();
    let result = parser.parse("[asland_mixed_array][aslana][asland_2]A[asland_0]B[asland]C[asland]D");
    assert_eq!(result, Node::mapping(vec![
        ("_default", Node::Void),
        ("mixed_array", Node::sequence(vec![
            Node::text("B"),
            Node::Void,
            Node::text("A"),
            Node::text("C"),
            Node::text("D"),
        ])),
    ]));
}

#[test]
fn parses_simple_string_with_more_mixed_array_indices() {
    let mut parser = ASLANParser::new();
    let result = parser.parse("[asland_mixed_array][aslana][asland_2]A[asland_0]B[asland]C[asland]D[asland]E[asland_3]F[asland]G");
    assert_eq!(result, Node::mapping(vec![
        ("_default", Node::Void),
        ("mixed_array", Node::sequence(vec![
            Node::text("B"),
            Node::Void,
            Node::text("A"),
            Node::text("CF"),
            Node::text("D"),
            Node::text("E"),
            Node::text("G"),
        ])),
    ]));
}

#[test]
fn parses_simple_string_with_more_mixed_array_indices_and_sibling_object() {
    let mut parser = ASLANParser::new();
    let result = parser.parse("[asland_mixed_array][aslana][asland_2]A[asland_0]B[asland]C[asland]D[asland]E[asland_3]F[asland]G[aslana][asland_other]Not in array");
    assert_eq!(result, Node::mapping(vec![
        ("_default", Node::Void),
        ("mixed_array", Node::sequence(vec![
            Node::text("B"),
            Node::Void,
            Node::text("A"),
            Node::text("CF"),
            Node::text("D"),
            Node::text("E"),
            Node::text("G"),
        ])),
        ("other", Node::text("Not in array")),
    ]));
}

#[test]
fn parses_simple_string_with_nested_arrays() {
    let mut parser = ASLANParser::new();
    let result = parser.parse("[asland_mixed_array][aslana][asland_2]A[asland_0]B[asland]C[asland]D[asland]E[asland][aslana][asland]hi[asland]lo[aslana][asland]G");
    assert_eq!(result, Node::mapping(vec![
        ("_default", Node::Void),
        ("mixed_array", Node::sequence(vec![
            Node::text("B"),
            Node::Void,
            Node::text("A"),
            Node::text("C"),
            Node::text("D"),
            Node::text("E"),
            Node::sequence(vec![
                Node::text("hi"),
                Node::text("lo"),
            ]),
            Node::text("G"),
        ])),
    ]));
}

#[test]
fn parses_simple_string_with_multiple_arrays_same_key_should_override() {
    let mut parser = ASLANParser::new();
    let result = parser.parse("[asland_hi][aslana][asland]foo[aslana][asland_hi][aslana][asland]bar[aslana]");
    assert_eq!(result, Node::mapping(vec![
        ("_default", Node::Void),
        ("hi", Node::sequence(vec![
            Node::text("bar"),
        ])),
    ]));
}

#[test]
fn parses_simple_string_with_array_then_string_same_key_should_not_override_array() {
    let mut parser = ASLANParser::new();
    let result = parser.parse("[asland_hi][aslana][asland]foo[aslana][asland_hi]not overriding");
    assert_eq!(result, Node::mapping(vec![
        ("_default", Node::Void),
        ("hi", Node::sequence(vec![
            Node::text("foo"),
        ])),
    ]));
}

#[test]
fn parses_simple_string_with_string_then_array_same_key_should_override_string_with_array() {
    let mut parser = ASLANParser::new();
    let result = parser.parse("[asland_hi]test[asland_hi][aslana][asland]bar[aslana]");
    assert_eq!(result, Node::mapping(vec![
        ("_default", Node::Void),
        ("hi", Node::sequence(vec![
            Node::text("bar"),
        ])),
    ]));
}
