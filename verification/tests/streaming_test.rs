use aslan::{ASLANEvent, ASLANParser, Node};

#[test]
fn parse_next_streams_incrementally() {
    let mut parser = ASLANParser::new();

    // Parse in chunks to simulate streaming
    parser.parse_next("[asland_");
    parser.parse_next("greeting]");
    parser.parse_next("Hello, ");
    parser.parse_next("World!");
    parser.parse_next("[asland_name]");
    parser.parse_next("Alice");

    parser.close();

    let result = parser.get_result();
    assert_eq!(result, Node::mapping(vec![
        ("_default", Node::Void),
        ("greeting", Node::text("Hello, World!")),
        ("name", Node::text("Alice")),
    ]));
}

#[test]
fn parse_next_emits_events_during_streaming() {
    let mut parser = ASLANParser::new();
    let mut events: Vec<String> = Vec::new();
    let key = parser.add_content_listener();

    // Stream input character by character for the instruction part
    parser.parse_next("[asland_msg][aslani_bold]");
    for delivery in parser.take_deliveries() {
        if let ASLANEvent::Content(event) = &delivery.event {
            if delivery.listener == key {
                events.push(format!(
                    "content:{}:{}:{}",
                    event.field_name, event.instruction, event.content
                ));
            }
        }
    }

    // At this point, instruction is registered but no content yet
    let events_so_far = events.len();

    // Now stream content
    for chunk in ["H", "e", "l", "l", "o"] {
        parser.parse_next(chunk);
        for delivery in parser.take_deliveries() {
            if let ASLANEvent::Content(event) = &delivery.event {
                if delivery.listener == key {
                    events.push(format!(
                        "content:{}:{}:{}",
                        event.field_name, event.instruction, event.content
                    ));
                }
            }
        }
    }

    parser.close();

    // We should have received content events as characters were added
    assert!(events.len() > events_so_far, "Should have emitted events during streaming");
    assert_eq!(events[events.len() - 1], "content:msg:bold:Hello");

    // Check the final result
    let result = parser.get_result();
    assert_eq!(result, Node::mapping(vec![
        ("_default", Node::Void),
        ("msg", Node::text("Hello")),
    ]));
}

#[test]
fn parse_next_handles_split_delimiters() {
    let mut parser = ASLANParser::new();

    // Split a delimiter across multiple parse_next calls
    parser.parse_next("[asl");
    parser.parse_next("and_");
    parser.parse_next("test]");
    parser.parse_next("value");

    parser.close();

    let result = parser.get_result();
    assert_eq!(result, Node::mapping(vec![
        ("_default", Node::Void),
        ("test", Node::text("value")),
    ]));
}

#[test]
fn parse_next_handles_nested_structures_incrementally() {
    let mut parser = ASLANParser::new();

    // Build a nested structure piece by piece
    parser.parse_next("[asland_user]");
    parser.parse_next("[aslano]");
    parser.parse_next("[asland_name]");
    parser.parse_next("Bob");
    parser.parse_next("[asland_age]");
    parser.parse_next("30");
    parser.parse_next("[aslano]");
    parser.parse_next("[asland_active]");
    parser.parse_next("true");

    parser.close();

    let result = parser.get_result();
    assert_eq!(result, Node::mapping(vec![
        ("_default", Node::Void),
        ("user", Node::mapping(vec![
            ("name", Node::text("Bob")),
            ("age", Node::text("30")),
        ])),
        ("active", Node::text("true")),
    ]));
}

#[test]
fn parse_next_can_get_intermediate_results() {
    let mut parser = ASLANParser::new();

    // Parse first field
    parser.parse_next("[asland_first]one");

    // Check intermediate result
    let intermediate = parser.get_result();
    assert_eq!(intermediate, Node::mapping(vec![
        ("_default", Node::Void),
        ("first", Node::text("one")),
    ]));

    // Parse second field
    parser.parse_next("[asland_second]two");
    parser.close();

    let final_result = parser.get_result();
    assert_eq!(final_result, Node::mapping(vec![
        ("_default", Node::Void),
        ("first", Node::text("one")),
        ("second", Node::text("two")),
    ]));
}

#[test]
fn parse_next_with_end_events_shows_completed_fields() {
    let mut parser = ASLANParser::new();
    let key = parser.add_end_listener();

    // Stream and watch for completion events
    parser.parse_next("[asland_a][aslani_x]alpha");
    parser.parse_next("[asland_b][aslani_y]beta");
    parser.parse_next("[asland_c][aslani_z]gamma");
    parser.close();

    let mut fields: Vec<String> = Vec::new();
    for delivery in parser.take_deliveries() {
        if let ASLANEvent::End(event) = &delivery.event {
            if delivery.listener == key {
                fields.push(format!("{}={}", event.field_name, event.content));
            }
        }
    }

    // End events should have been emitted as each field completed
    assert!(fields.iter().any(|f| f.contains("a=alpha")));
    assert!(fields.iter().any(|f| f.contains("b=beta")));
    assert!(fields.iter().any(|f| f.contains("c=gamma")));
}

#[test]
fn parse_next_simulates_llm_token_streaming() {
    let mut parser = ASLANParser::new();
    let key = parser.add_content_listener();

    // Simulate tokens coming from an LLM
    let tokens = vec![
        "[asland_",
        "response]",
        "[aslani_",
        "markdown]",
        "Here ",
        "is ",
        "the ",
        "answer",
        ".",
    ];

    for token in tokens {
        parser.parse_next(token);
    }

    parser.close();

    let result = parser.get_result();
    assert_eq!(result, Node::mapping(vec![
        ("_default", Node::Void),
        ("response", Node::text("Here is the answer.")),
    ]));

    // Verify we got progressive content updates
    let updates: Vec<String> = parser
        .take_deliveries()
        .iter()
        .filter(|delivery| delivery.listener == key)
        .filter_map(|delivery| match &delivery.event {
            ASLANEvent::Content(event) => Some(event.content.clone()),
            _ => None,
        })
        .collect();
    assert!(updates.len() >= 1, "Should have received content updates");
}
