use aslan::{ASLANEvent, ASLANParser, ASLANParserSettings, Node};

#[test]
fn plain_text_lands_in_the_default_field() {
    let mut parser = ASLANParser::new();
    let result = parser.parse("Hello, world. No delimiter here]");
    assert_eq!(result, Node::mapping(vec![
        ("_default", Node::text("Hello, world. No delimiter here]")),
    ]));
}

#[test]
fn a_single_character_is_stored_on_close() {
    let mut parser = ASLANParser::new();
    parser.parse_next("x");
    assert_eq!(parser.get_result(), Node::mapping(vec![("_default", Node::text(""))]));
    parser.close();
    assert_eq!(parser.get_result(), Node::mapping(vec![("_default", Node::text("x"))]));
}

#[test]
fn every_split_in_two_chunks_gives_the_same_result() {
    let input = "pre[asland_hi:l]Hello [asland_lo]World![asland_hi]Hel[lo[aslano][asland_x][aslana][asland]1[asland_3]2[aslana][asland_p][aslanp]a[aslani_b:c]b[aslanp]c[aslanv]";
    let whole = ASLANParser::new().parse(input);
    let characters: Vec<char> = input.chars().collect();
    for cut in 0..=characters.len() {
        let first: String = characters[..cut].iter().collect();
        let second: String = characters[cut..].iter().collect();
        let mut parser = ASLANParser::new();
        parser.parse_next(&first);
        parser.parse_next(&second);
        parser.close();
        assert_eq!(parser.get_result(), whole);
    }
}

#[test]
fn feeding_character_by_character_gives_the_same_result() {
    let input = "[asland_a][aslano][asland_b]x[aslano][asland_c][aslane_T][asland_d][aslane_T]y";
    let whole = ASLANParser::new().parse(input);
    let mut parser = ASLANParser::new();
    for character in input.chars() {
        parser.parse_next(&character.to_string());
    }
    parser.close();
    assert_eq!(parser.get_result(), whole);
    assert_eq!(whole, Node::mapping(vec![
        ("_default", Node::Void),
        ("a", Node::mapping(vec![("b", Node::text("x"))])),
        ("c", Node::text("[asland_d]y")),
    ]));
}

#[test]
fn the_default_field_is_always_there() {
    for input in ["", "text", "[asland_a]1", "[aslanv]", "[aslano]", "[aslana]x", "[aslang][aslans]"] {
        let mut parser = ASLANParser::new();
        match parser.parse(input) {
            Node::Mapping(entries) => {
                assert_eq!(entries[0].0, "_default");
                assert!(matches!(entries[0].1, Node::Text(_) | Node::Void));
            }
            _ => panic!("the root is a mapping"),
        }
    }
}

#[test]
fn a_preamble_stays_in_the_default_field() {
    let mut parser = ASLANParser::new();
    let result = parser.parse("preamble[asland_a]1");
    assert_eq!(result, Node::mapping(vec![
        ("_default", Node::text("preamble")),
        ("a", Node::text("1")),
    ]));
}

#[test]
fn a_void_default_field_is_void() {
    let mut parser = ASLANParser::new();
    let result = parser.parse("[aslanv]dropped");
    assert_eq!(result, Node::mapping(vec![("_default", Node::Void)]));
}

#[test]
fn a_part_delimiter_at_the_default_field_gives_it_parts() {
    let mut parser = ASLANParser::new();
    let result = parser.parse("[aslanp]x");
    assert_eq!(result, Node::mapping(vec![
        ("_default", Node::sequence(vec![Node::text("x")])),
    ]));
}

#[test]
fn closing_at_the_root_changes_nothing() {
    let mut parser = ASLANParser::new();
    let result = parser.parse("[asland_a]x[aslano][aslano][aslana][asland_b]y");
    assert_eq!(result, Node::mapping(vec![
        ("_default", Node::Void),
        ("a", Node::text("x")),
        ("b", Node::text("y")),
    ]));
}

#[test]
fn the_root_shows_what_the_innermost_frame_holds() {
    let mut parser = ASLANParser::new();
    parser.parse_next("[asland_a][aslano][asland_b][aslana][asland]x");
    assert_eq!(parser.get_result(), Node::mapping(vec![
        ("_default", Node::Void),
        ("a", Node::mapping(vec![
            ("b", Node::sequence(vec![Node::text("x")])),
        ])),
    ]));
}

#[test]
fn a_new_container_shows_at_the_root_at_once() {
    let mut parser = ASLANParser::new();
    parser.parse_next("[asland_a][aslano][asland_b][aslano]");
    assert_eq!(parser.get_result(), Node::mapping(vec![
        ("_default", Node::Void),
        ("a", Node::mapping(vec![
            ("b", Node::mapping(vec![])),
        ])),
    ]));
    assert_eq!(parser.get_results(), vec![parser.get_result()]);
}

#[test]
fn a_void_key_shows_at_once() {
    let mut parser = ASLANParser::new();
    parser.parse_next("[asland_a][aslanv]");
    assert_eq!(parser.get_result(), Node::mapping(vec![
        ("_default", Node::Void),
        ("a", Node::Void),
    ]));
}

#[test]
fn explicit_indices_fill_up_with_void() {
    let mut parser = ASLANParser::new();
    let result = parser.parse("[asland_a][aslana][asland_3]x[asland]y[asland_1]z");
    assert_eq!(result, Node::mapping(vec![
        ("_default", Node::Void),
        ("a", Node::sequence(vec![
            Node::Void,
            Node::text("z"),
            Node::Void,
            Node::text("x"),
            Node::text("y"),
        ])),
    ]));
}

#[test]
fn a_name_in_a_sequence_takes_the_next_free_index() {
    let mut parser = ASLANParser::new();
    let result = parser.parse("[asland_a][aslana][asland_foo]x[asland_bar]y");
    assert_eq!(result, Node::mapping(vec![
        ("_default", Node::Void),
        ("a", Node::sequence(vec![Node::text("x"), Node::text("y")])),
    ]));
}

#[test]
fn an_index_too_large_to_count_on_takes_the_next_free_index() {
    let mut parser = ASLANParser::new();
    let result = parser.parse("[asland_a][aslana][asland_9223372036854775807]x[asland]y");
    assert_eq!(result, Node::mapping(vec![
        ("_default", Node::Void),
        ("a", Node::sequence(vec![Node::text("x"), Node::text("y")])),
    ]));
}

#[test]
fn instructions_are_reported_in_the_order_of_the_input() {
    let mut parser = ASLANParser::new();
    let key = parser.add_end_data_listener();
    parser.parse("[asland_k][aslani_c][aslani_a][aslani_b:1:2]x");
    let deliveries = parser.take_deliveries();
    let last = deliveries.last().expect("closing reports the last key");
    assert_eq!(last.listener, key);
    match &last.event {
        ASLANEvent::EndData(event) => {
            let names: Vec<&str> = event.content[0]
                .instructions
                .iter()
                .map(|instruction| instruction.name.as_str())
                .collect();
            assert_eq!(names, vec!["c", "a", "b"]);
            assert_eq!(
                event.content[0].instructions[2].args,
                vec!["1".to_string(), "2".to_string()]
            );
            assert_eq!(event.content[0].value, "x");
        }
        _ => panic!("the last delivery is an end-data event"),
    }
}

#[test]
fn keep_last_drops_the_instructions_of_the_key() {
    let mut parser = ASLANParser::new();
    let key = parser.add_end_data_listener();
    parser.parse("[asland_k:l][aslani_a]x[asland_o][aslani_z]y[asland_k][aslani_b]w");
    let deliveries = parser.take_deliveries();
    let last = deliveries.last().expect("closing reports the last key");
    assert_eq!(last.listener, key);
    match &last.event {
        ASLANEvent::EndData(event) => {
            assert_eq!(event.field_name, "k");
            assert_eq!(event.content.len(), 1);
            assert_eq!(event.content[0].value, "w");
            assert_eq!(event.content[0].instructions.len(), 1);
            assert_eq!(event.content[0].instructions[0].name, "b");
            assert_eq!(event.content[0].instructions[0].index, 0);
        }
        _ => panic!("the last delivery is an end-data event"),
    }
}

#[test]
fn the_separator_comes_between_appended_values_only() {
    let mut parser = ASLANParser::with_settings(ASLANParserSettings {
        append_separator: ", ".to_string(),
        ..Default::default()
    });
    let result = parser.parse("[asland_a:a]1[asland_l:l]1[asland_f:f]1[asland_a]2[asland_l]2[asland_f]2");
    assert_eq!(result, Node::mapping(vec![
        ("_default", Node::Void),
        ("a", Node::text("1, 2")),
        ("l", Node::text("2")),
        ("f", Node::text("1")),
    ]));
}
