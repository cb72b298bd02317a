use aslan::{ASLANParser, ASLANParserSettings, Node};

#[test]
fn parses_simple_string_with_object_and_no_stop_strict_end() {
    let mut parser = ASLANParser::with_settings(ASLANParserSettings {
        strict_end: true,
        ..Default::default()
    });
    let result = parser.parse("[asland_hi]Hello [asland_lo]World![asland_foo][aslano][asland_bar]Baz!");
    assert_eq!(result, Node::mapping(vec![
        ("_default", Node::Void),
        ("hi", Node::text("Hello ")),
        ("lo", Node::text("World!")),
        ("foo", Node::mapping(vec![
            ("bar", Node::text("Baz!")),
        ])),
    ]));
}

#[test]
fn parses_simple_string_with_object_and_stop_strict_end() {
    let mut parser = ASLANParser::with_settings(ASLANParserSettings {
        strict_end: true,
        multi_aslan_output: true,
        ..Default::default()
    });
    let result = parser.parse("[asland_hi]Hello [asland_lo]World![aslans][asland_foo][aslano][asland_bar]Baz!");
    assert_eq!(result, Node::sequence(vec![
        Node::mapping(vec![
            ("_default", Node::Void),
            ("hi", Node::text("Hello ")),
            ("lo", Node::text("World!")),
        ]),
        Node::mapping(vec![
            ("_default", Node::Void),
            ("foo", Node::mapping(vec![
                ("bar", Node::text("Baz!")),
            ])),
        ]),
    ]));
}

#[test]
fn parses_simple_string_with_object_and_stop_strict_end_disabled() {
    let mut parser = ASLANParser::with_settings(ASLANParserSettings {
        strict_end: false,
        ..Default::default()
    });
    let result = parser.parse("[asland_hi]Hello [aslans][asland_lo]World![asland_foo][aslano][asland_bar]Baz!");
    assert_eq!(result, Node::mapping(vec![
        ("_default", Node::Void),
        ("hi", Node::text("Hello ")),
        ("lo", Node::text("World!")),
        ("foo", Node::mapping(vec![
            ("bar", Node::text("Baz!")),
        ])),
    ]));
}

#[test]
fn parses_simple_string_with_object_and_stop_strict_end_escaped_stop() {
    let mut parser = ASLANParser::with_settings(ASLANParserSettings {
        strict_end: true,
        ..Default::default()
    });
    let result = parser.parse("[asland_hi]Hello [asland_lo]World![aslane_test][aslans][aslane_test][asland_foo][aslano][asland_bar]Baz!");
    assert_eq!(result, Node::mapping(vec![
        ("_default", Node::Void),
        ("hi", Node::text("Hello ")),
        ("lo", Node::text("World![aslans]")),
        ("foo", Node::mapping(vec![
            ("bar", Node::text("Baz!")),
        ])),
    ]));
}
