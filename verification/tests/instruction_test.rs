use aslan::{ASLANDelivery, ASLANEvent, ASLANInstruction, ASLANParser, Node};

#[test]
fn parses_simple_string_with_instructions() {
    let mut parser = ASLANParser::new();
    let content_key = parser.add_content_listener();
    let end_key = parser.add_end_listener();

    let result = parser.parse(
        "[asland_styled_text][aslanp][aslani_bold][aslani_color:red]This is bold and red text.[aslanp][aslani_italic][aslani_underline]This is italic and underlined text.[aslanp][aslani_size:large][aslani_font:monospace]This is large monospace text.",
    );

    assert_eq!(
        result,
        Node::mapping(vec![
            ("_default", Node::Void),
            ("styled_text", Node::sequence(vec![
                Node::text("This is bold and red text."),
                Node::text("This is italic and underlined text."),
                Node::text("This is large monospace text."),
            ])),
        ])
    );

    let deliveries: Vec<ASLANDelivery> = parser.take_deliveries();
    let mut content_events: Vec<ASLANInstruction> = Vec::new();
    let mut end_events: Vec<ASLANInstruction> = Vec::new();
    for delivery in deliveries.iter() {
        match &delivery.event {
            ASLANEvent::Content(event) if delivery.listener == content_key => {
                content_events.push(event.clone());
            }
            ASLANEvent::End(event) if delivery.listener == end_key => {
                end_events.push(event.clone());
            }
            _ => {}
        }
    }

    // Verify we got content events
    assert!(content_events.len() > 0, "Should have content events");

    // Verify we got end events
    assert!(end_events.len() > 0, "Should have end events");

    // Check first content event instruction
    let first_event = &content_events[0];
    assert_eq!(first_event.instruction, "bold");
    assert_eq!(first_event.field_name, "styled_text");
}

#[test]
fn parses_simple_string_with_instructions_and_data_with_l_arg() {
    let mut parser = ASLANParser::new();
    let result = parser.parse(
        "[asland_styled_text:l][aslanp][aslani_bold][aslani_color:red]This is bold and red text.[asland_styled_text][aslanp][aslani_italic][aslani_color:blue]This is italic and blue text.",
    );

    assert_eq!(
        result,
        Node::mapping(vec![
            ("_default", Node::Void),
            ("styled_text", Node::sequence(vec![
                Node::text("This is italic and blue text."),
            ])),
        ])
    );
}

#[test]
fn parses_simple_string_with_instructions_and_data_with_f_arg() {
    let mut parser = ASLANParser::new();
    let result = parser.parse(
        "[asland_styled_text:f][aslanp][aslani_bold][aslani_color:red]This is bold and red text.[asland_styled_text][aslanp][aslani_italic][aslani_color:blue]This is italic and blue text.",
    );

    assert_eq!(
        result,
        Node::mapping(vec![
            ("_default", Node::Void),
            ("styled_text", Node::sequence(vec![
                Node::text("This is bold and red text."),
            ])),
        ])
    );
}

#[test]
fn parses_simple_string_with_instructions_no_part() {
    let mut parser = ASLANParser::new();
    let result = parser.parse(
        "[asland_test][aslana][asland][aslano][asland_styled_text][aslani_bold][aslani_color:red]This is bold and red text.[asland_next]Next item",
    );

    assert_eq!(
        result,
        Node::mapping(vec![
            ("_default", Node::Void),
            ("test", Node::sequence(vec![
                Node::mapping(vec![
                    ("styled_text", Node::text("This is bold and red text.")),
                    ("next", Node::text("Next item")),
                ]),
            ])),
        ])
    );
}

#[test]
fn event_listener_removal_works() {
    let mut parser = ASLANParser::new();
    let key = parser.add_content_listener();

    parser.parse_next("[asland_test][aslani_x]a");
    let count_before = parser
        .take_deliveries()
        .iter()
        .filter(|delivery| delivery.listener == key)
        .count();
    assert!(count_before > 0);

    parser.remove_content_listener(&key);
    parser.parse_next("[aslani_y]b");
    let count_after = count_before
        + parser
            .take_deliveries()
            .iter()
            .filter(|delivery| delivery.listener == key)
            .count();

    // After removal, no new events should be counted
    assert_eq!(count_before, count_after);
}

#[test]
fn clear_event_listeners_works() {
    let mut parser = ASLANParser::new();
    let key = parser.add_content_listener();

    parser.parse_next("[asland_test][aslani_x]a");
    let count_before = parser
        .take_deliveries()
        .iter()
        .filter(|delivery| delivery.listener == key)
        .count();
    assert!(count_before > 0);

    parser.clear_event_listeners();
    parser.parse_next("[aslani_y]b");
    let count_after = count_before + parser.take_deliveries().len();

    assert_eq!(count_before, count_after);
}
