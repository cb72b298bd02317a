use aslan::{ASLANEvent, ASLANParser, ASLANParserSettings, EmittableEvents, Node};

#[test]
fn content_events_grow_with_the_text() {
    let mut parser = ASLANParser::new();
    let key = parser.add_content_listener();
    parser.parse_next("[asland_msg][aslani_bold:x]Hi");
    let deliveries = parser.take_deliveries();
    assert_eq!(deliveries.len(), 3);
    let mut contents: Vec<String> = Vec::new();
    for delivery in &deliveries {
        assert_eq!(delivery.listener, key);
        match &delivery.event {
            ASLANEvent::Content(event) => {
                assert_eq!(event.tag, "content");
                assert_eq!(event.field_name, "msg");
                assert_eq!(event.instruction, "bold");
                assert_eq!(event.args, vec!["x".to_string()]);
                assert_eq!(event.index, 0);
                assert_eq!(event.part_index, 0);
                assert_eq!(event.path, vec!["msg".to_string()]);
                assert_eq!(event.multi_aslan_index, 0);
                contents.push(event.content.clone());
            }
            _ => panic!("only content events are expected"),
        }
    }
    assert_eq!(contents, vec!["".to_string(), "H".to_string(), "Hi".to_string()]);
    match &deliveries[2].event {
        ASLANEvent::Content(event) => {
            assert_eq!(event.structure, Node::mapping(vec![
                ("_default", Node::Void),
                ("msg", Node::text("Hi")),
            ]));
        }
        _ => panic!("only content events are expected"),
    }
    assert_eq!(parser.take_deliveries().len(), 0);
}

#[test]
fn an_instruction_records_where_it_stands() {
    let mut parser = ASLANParser::new();
    parser.add_content_listener_with_key("k".to_string());
    parser.parse_next("[asland_msg]Hello[aslani_bold]!");
    let deliveries = parser.take_deliveries();
    match &deliveries.last().expect("a content event").event {
        ASLANEvent::Content(event) => {
            assert_eq!(event.index, 5);
            assert_eq!(event.content, "Hello!");
        }
        _ => panic!("only content events are expected"),
    }
}

#[test]
fn listeners_are_called_in_the_order_of_registration() {
    let mut parser = ASLANParser::new();
    parser.add_content_listener_with_key("second".to_string());
    parser.add_content_listener_with_key("first".to_string());
    parser.add_content_listener_with_key("second".to_string());
    parser.parse_next("[asland_msg][aslani_bold]");
    let listeners: Vec<String> = parser
        .take_deliveries()
        .iter()
        .map(|delivery| delivery.listener.clone())
        .collect();
    assert_eq!(listeners, vec!["second".to_string(), "first".to_string()]);
}

#[test]
fn a_key_in_use_registers_nothing() {
    let mut parser = ASLANParser::new();
    parser.add_content_listener_with_key("k".to_string());
    parser.add_end_listener_with_key("k".to_string());
    assert!(parser.has_listener_key("k"));
    parser.parse("[asland_msg][aslani_bold]x");
    for delivery in parser.take_deliveries() {
        assert!(matches!(delivery.event, ASLANEvent::Content(_)));
    }
    parser.remove_content_listener("k");
    assert!(!parser.has_listener_key("k"));
}

#[test]
fn an_end_event_comes_when_the_key_changes() {
    let mut parser = ASLANParser::new();
    let key = parser.add_end_listener();
    parser.parse_next("[asland_a][aslani_x]alpha");
    assert_eq!(parser.take_deliveries().len(), 0);
    parser.parse_next("[asland_b]");
    let deliveries = parser.take_deliveries();
    assert_eq!(deliveries.len(), 1);
    assert_eq!(deliveries[0].listener, key);
    match &deliveries[0].event {
        ASLANEvent::End(event) => {
            assert_eq!(event.tag, "end");
            assert_eq!(event.field_name, "a");
            assert_eq!(event.content, "alpha");
            assert_eq!(event.instruction, "x");
        }
        _ => panic!("an end event is expected"),
    }
}

#[test]
fn an_end_data_event_carries_the_value_of_the_key() {
    let mut parser = ASLANParser::new();
    let key = parser.add_end_data_listener();
    parser.parse_next("[asland_a]alpha[asland_b]");
    let deliveries = parser.take_deliveries();
    assert_eq!(deliveries.len(), 2);
    assert_eq!(deliveries[1].listener, key);
    match &deliveries[0].event {
        ASLANEvent::EndData(event) => {
            assert_eq!(event.field_name, "_default");
            assert_eq!(event.content[0].value, "");
            assert_eq!(event.path, Vec::<String>::new());
        }
        _ => panic!("an end-data event is expected"),
    }
    match &deliveries[1].event {
        ASLANEvent::EndData(event) => {
            assert_eq!(event.tag, "end_data");
            assert_eq!(event.field_name, "a");
            assert_eq!(event.path, vec!["a".to_string()]);
            assert_eq!(event.content.len(), 1);
            assert_eq!(event.content[0].value, "alpha");
            assert_eq!(event.content[0].part_index, 0);
        }
        _ => panic!("an end-data event is expected"),
    }
}

#[test]
fn the_path_names_the_keys_from_the_root() {
    let mut parser = ASLANParser::new();
    parser.add_content_listener_with_key("k".to_string());
    parser.parse_next("[asland_a][aslano][asland_b][aslana][asland][aslani_i]x");
    let deliveries = parser.take_deliveries();
    match &deliveries.last().expect("a content event").event {
        ASLANEvent::Content(event) => {
            assert_eq!(event.path, vec!["a".to_string(), "b".to_string(), "0".to_string()]);
            assert_eq!(event.field_name, "0");
            assert_eq!(event.content, "x");
        }
        _ => panic!("only content events are expected"),
    }
}

#[test]
fn events_that_are_switched_off_are_not_made() {
    let mut parser = ASLANParser::with_settings(ASLANParserSettings {
        emittable_events: EmittableEvents { content: false, end: true, end_data: false },
        ..Default::default()
    });
    parser.add_content_listener_with_key("c".to_string());
    parser.add_end_listener_with_key("e".to_string());
    parser.add_end_data_listener_with_key("d".to_string());
    parser.parse("[asland_a][aslani_x]alpha");
    let deliveries = parser.take_deliveries();
    assert_eq!(deliveries.len(), 1);
    assert_eq!(deliveries[0].listener, "e");
}

#[test]
fn the_document_index_counts_the_documents() {
    let mut parser = ASLANParser::with_settings(ASLANParserSettings {
        strict_end: true,
        multi_aslan_output: true,
        ..Default::default()
    });
    parser.add_content_listener_with_key("k".to_string());
    parser.parse("[asland_a][aslani_x]1[aslans][asland_a][aslani_x]2");
    let indices: Vec<usize> = parser
        .take_deliveries()
        .iter()
        .filter_map(|delivery| match &delivery.event {
            ASLANEvent::Content(event) => Some(event.multi_aslan_index),
            _ => None,
        })
        .collect();
    assert_eq!(indices, vec![0, 0, 1, 1]);
}
