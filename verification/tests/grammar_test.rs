use aslan::{ASLANParser, ASLANParserSettings, Node};

fn default_field_after(input: &str) -> Node {
    let mut parser = ASLANParser::new();
    match parser.parse(input) {
        Node::Mapping(mut entries) => {
            assert_eq!(entries.len(), 1);
            assert_eq!(entries[0].0, "_default");
            entries.remove(0).1
        }
        _ => panic!("the root is a mapping"),
    }
}

#[test]
fn a_reserved_delimiter_is_consumed() {
    assert_eq!(default_field_after("before[aslanq]"), Node::text("before"));
    assert_eq!(default_field_after("[aslanZ]"), Node::text(""));
}

#[test]
fn a_reserved_delimiter_takes_no_content() {
    assert_eq!(default_field_after("[aslanq_x]text"), Node::text("[aslanq_x]text"));
}

#[test]
fn a_digit_selects_no_delimiter() {
    assert_eq!(default_field_after("[aslan5]text"), Node::text("[aslan5]text"));
}

#[test]
fn a_content_must_not_be_empty() {
    assert_eq!(default_field_after("[asland_]text"), Node::text("[asland_]text"));
    assert_eq!(default_field_after("[aslani_]text"), Node::text("[aslani_]text"));
    assert_eq!(default_field_after("[aslane_]text"), Node::text("[aslane_]text"));
}

#[test]
fn a_content_must_not_start_with_an_underscore() {
    assert_eq!(default_field_after("[asland__a]text"), Node::text("[asland__a]text"));
}

#[test]
fn a_content_must_not_end_with_an_underscore() {
    assert_eq!(default_field_after("[asland_a_]text"), Node::text("[asland_a_]text"));
    assert_eq!(default_field_after("[asland_a_:f]text"), Node::text("[asland_a_:f]text"));
}

#[test]
fn a_content_holds_letters_digits_and_underscores_only() {
    assert_eq!(default_field_after("[asland_a-b]text"), Node::text("[asland_a-b]text"));
    let mut parser = ASLANParser::new();
    assert_eq!(parser.parse("[asland_a_1_B]text"), Node::mapping(vec![
        ("_default", Node::Void),
        ("a_1_B", Node::text("text")),
    ]));
}

#[test]
fn a_data_delimiter_needs_a_name_in_a_mapping() {
    assert_eq!(default_field_after("[asland]text"), Node::text("[asland]text"));
}

#[test]
fn an_instruction_needs_a_name() {
    assert_eq!(default_field_after("[aslani]text"), Node::text("[aslani]text"));
}

#[test]
fn a_bare_delimiter_takes_no_content() {
    assert_eq!(default_field_after("[aslano_x]text"), Node::text("[aslano_x]text"));
    assert_eq!(default_field_after("[aslanv:x]text"), Node::text("[aslanv:x]text"));
}

#[test]
fn a_bracket_that_opens_no_delimiter_is_text() {
    assert_eq!(default_field_after("a [b] c"), Node::text("a [b] c"));
    assert_eq!(default_field_after("[asl]an"), Node::text("[asl]an"));
}

#[test]
fn a_comment_ends_at_the_next_bracket() {
    let mut parser = ASLANParser::new();
    assert_eq!(parser.parse("[asland_a]x[aslanc]gone [a] kept[asland_b]y"), Node::mapping(vec![
        ("_default", Node::Void),
        ("a", Node::text("x[a] kept")),
        ("b", Node::text("y")),
    ]));
}

#[test]
fn the_prefix_can_be_chosen() {
    let mut parser = ASLANParser::with_settings(ASLANParserSettings {
        prefix: "x".to_string(),
        ..Default::default()
    });
    assert_eq!(parser.parse("[xd_a]1[asland_b]2"), Node::mapping(vec![
        ("_default", Node::Void),
        ("a", Node::text("1[asland_b]2")),
    ]));
}

#[test]
fn an_escape_region_can_be_closed_at_once() {
    let mut parser = ASLANParser::new();
    assert_eq!(parser.parse("[asland_x][aslane_T][aslane_T]y[asland_z]w"), Node::mapping(vec![
        ("_default", Node::Void),
        ("x", Node::text("y")),
        ("z", Node::text("w")),
    ]));
}

#[test]
fn no_other_delimiter_is_read_inside_an_escape_region() {
    let mut parser = ASLANParser::with_settings(ASLANParserSettings {
        strict_end: true,
        ..Default::default()
    });
    assert_eq!(
        parser.parse("[asland_x][aslane_T]a[aslanq]b[aslans]c[aslang]d[aslanc]e[aslane_T]"),
        Node::mapping(vec![
            ("_default", Node::Void),
            ("x", Node::text("a[aslanq]b[aslans]c[aslang]d[aslanc]e")),
        ])
    );
}

#[test]
fn text_given_up_inside_an_escape_region_is_kept() {
    let mut parser = ASLANParser::new();
    assert_eq!(parser.parse("[asland_x][aslane_T][aslan![aslane_U][aslane_T]"), Node::mapping(vec![
        ("_default", Node::Void),
        ("x", Node::text("[aslan![aslane_U]")),
    ]));
}

#[test]
fn a_locked_parser_keeps_nothing() {
    let mut parser = ASLANParser::with_settings(ASLANParserSettings {
        strict_start: true,
        ..Default::default()
    });
    assert_eq!(parser.parse("junk[x[aslan!"), Node::mapping(vec![("_default", Node::text(""))]));
}

#[test]
fn input_after_a_stop_is_dropped_until_the_next_go() {
    let mut parser = ASLANParser::with_settings(ASLANParserSettings {
        strict_start: true,
        strict_end: true,
        multi_aslan_output: true,
        ..Default::default()
    });
    assert_eq!(parser.parse("[aslang]ab[aslans]t"), Node::sequence(vec![
        Node::mapping(vec![("_default", Node::text("ab"))]),
        Node::mapping(vec![("_default", Node::text(""))]),
    ]));
}

#[test]
fn only_objects_count_for_the_object_depth() {
    let mut parser = ASLANParser::with_settings(ASLANParserSettings {
        max_object_depth: Some(1),
        ..Default::default()
    });
    assert_eq!(parser.parse("[asland_a][aslana][asland][aslano][asland_k]v"), Node::mapping(vec![
        ("_default", Node::Void),
        ("a", Node::sequence(vec![
            Node::mapping(vec![("k", Node::text("v"))]),
        ])),
    ]));
}

#[test]
fn white_space_counts_as_a_value_where_it_is_not_collapsed() {
    let mut collapsing = ASLANParser::new();
    assert_eq!(collapsing.parse("[asland_a] \n\t[aslano][asland_b]x"), Node::mapping(vec![
        ("_default", Node::Void),
        ("a", Node::mapping(vec![("b", Node::text("x"))])),
    ]));
    let mut keeping = ASLANParser::with_settings(ASLANParserSettings {
        collapse_object_start_whitespace: false,
        ..Default::default()
    });
    assert_eq!(keeping.parse("[asland_a] \n\t[aslano][asland_b]x"), Node::mapping(vec![
        ("_default", Node::Void),
        ("a", Node::text(" \n\t")),
        ("b", Node::text("x")),
    ]));
}

#[test]
fn below_the_object_depth_an_object_opens_over_a_text() {
    let input = "[asland_a]x[aslano][asland_b]y";
    let mut limited = ASLANParser::with_settings(ASLANParserSettings {
        max_object_depth: Some(2),
        ..Default::default()
    });
    assert_eq!(limited.parse(input), Node::mapping(vec![
        ("_default", Node::Void),
        ("a", Node::mapping(vec![("b", Node::text("y"))])),
    ]));
    let mut unlimited = ASLANParser::new();
    assert_eq!(unlimited.parse(input), Node::mapping(vec![
        ("_default", Node::Void),
        ("a", Node::text("x")),
        ("b", Node::text("y")),
    ]));
}

#[test]
fn below_the_object_depth_a_key_with_a_container_follows_the_usual_rules() {
    let mut parser = ASLANParser::with_settings(ASLANParserSettings {
        max_object_depth: Some(2),
        ..Default::default()
    });
    assert_eq!(
        parser.parse("[asland_a][aslano][asland_b][aslano][asland_c]1[aslano][aslano][asland_d]2"),
        Node::mapping(vec![
            ("_default", Node::Void),
            ("a", Node::mapping(vec![
                ("b", Node::mapping(vec![("c", Node::text("1"))])),
            ])),
            ("d", Node::text("2")),
        ])
    );
}

#[test]
fn below_the_object_depth_an_object_opens_at_the_default_field_too() {
    let mut parser = ASLANParser::with_settings(ASLANParserSettings {
        max_object_depth: Some(1),
        ..Default::default()
    });
    assert_eq!(parser.parse("[aslano][asland_k]v"), Node::mapping(vec![
        ("_default", Node::mapping(vec![("k", Node::text("v"))])),
    ]));
    let mut unlimited = ASLANParser::new();
    assert_eq!(unlimited.parse("[aslano][asland_k]v"), Node::mapping(vec![
        ("_default", Node::Void),
        ("k", Node::text("v")),
    ]));
}

#[test]
fn the_object_depth_leaves_array_delimiters_alone() {
    let mut parser = ASLANParser::with_settings(ASLANParserSettings {
        max_object_depth: Some(1),
        ..Default::default()
    });
    assert_eq!(parser.parse("[asland_a]x[aslana][asland_b]y"), Node::mapping(vec![
        ("_default", Node::Void),
        ("a", Node::text("x")),
        ("b", Node::text("y")),
    ]));
}
