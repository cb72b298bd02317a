use aslan::{ASLANEvent, ASLANParser, ASLANParserSettings, Node};

#[test]
fn scenario_two_named_fields() {
    let mut parser = ASLANParser::new();
    let result = parser.parse("[asland_hi]Hello [asland_lo]World!");
    assert_eq!(result, Node::mapping(vec![
        ("_default", Node::Void),
        ("hi", Node::text("Hello ")),
        ("lo", Node::text("World!")),
    ]));
}

#[test]
fn scenario_keep_last_replaces_the_first_value() {
    let mut parser = ASLANParser::new();
    let result = parser.parse("[asland_hi:l]Hello [asland_lo]World![asland_hi]Hello");
    assert_eq!(result, Node::mapping(vec![
        ("_default", Node::Void),
        ("hi", Node::text("Hello")),
        ("lo", Node::text("World!")),
    ]));
}

#[test]
fn scenario_array_of_three_items() {
    let mut parser = ASLANParser::new();
    let result = parser.parse("[asland_fruits][aslana][asland]Apple[asland]Banana[asland]Cherry");
    assert_eq!(result, Node::mapping(vec![
        ("_default", Node::Void),
        ("fruits", Node::sequence(vec![
            Node::text("Apple"),
            Node::text("Banana"),
            Node::text("Cherry"),
        ])),
    ]));
}

#[test]
fn scenario_two_instructions_on_the_first_part() {
    let mut parser = ASLANParser::new();
    let key = parser.add_end_data_listener();
    let result = parser.parse(
        "[asland_styled_text][aslanp][aslani_bold][aslani_color:red]This is bold and red text.[aslanp]second",
    );
    assert_eq!(result, Node::mapping(vec![
        ("_default", Node::Void),
        ("styled_text", Node::sequence(vec![
            Node::text("This is bold and red text."),
            Node::text("second"),
        ])),
    ]));

    let deliveries = parser.take_deliveries();
    let last = deliveries.last().expect("closing reports the last key");
    assert_eq!(last.listener, key);
    match &last.event {
        ASLANEvent::EndData(event) => {
            assert_eq!(event.field_name, "styled_text");
            assert_eq!(event.tag, "end_data");
            assert_eq!(event.content.len(), 2);
            assert_eq!(event.content[0].value, "This is bold and red text.");
            assert_eq!(event.content[0].part_index, 0);
            assert_eq!(event.content[0].instructions.len(), 2);
            assert_eq!(event.content[0].instructions[0].name, "bold");
            assert_eq!(event.content[0].instructions[0].args, Vec::<String>::new());
            assert_eq!(event.content[0].instructions[0].index, 0);
            assert_eq!(event.content[0].instructions[1].name, "color");
            assert_eq!(event.content[0].instructions[1].args, vec!["red".to_string()]);
            assert_eq!(event.content[1].value, "second");
            assert_eq!(event.content[1].part_index, 1);
            assert_eq!(event.content[1].instructions.len(), 0);
        }
        _ => panic!("the last delivery is an end-data event"),
    }
}

#[test]
fn scenario_two_documents_and_a_fresh_one() {
    let mut parser = ASLANParser::with_settings(ASLANParserSettings {
        strict_start: true,
        strict_end: true,
        multi_aslan_output: true,
        ..Default::default()
    });
    let result = parser.parse("[aslang][asland_hi]A[aslans][aslang][asland_hi]B[aslans]");
    assert_eq!(result, Node::sequence(vec![
        Node::mapping(vec![("_default", Node::Void), ("hi", Node::text("A"))]),
        Node::mapping(vec![("_default", Node::Void), ("hi", Node::text("B"))]),
        Node::mapping(vec![("_default", Node::text(""))]),
    ]));
    assert_eq!(parser.get_results().len(), 3);
}

#[test]
fn scenario_escape_region_is_literal() {
    let mut parser = ASLANParser::new();
    let result = parser.parse(
        "[asland_x][aslane_T]literal [asland_y]still literal[aslane_T][asland_z]parsed",
    );
    assert_eq!(result, Node::mapping(vec![
        ("_default", Node::Void),
        ("x", Node::text("literal [asland_y]still literal")),
        ("z", Node::text("parsed")),
    ]));
}
