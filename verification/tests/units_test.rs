use aslan::text::{decimal_string, parse_index_text, text_is_blank};
use aslan::utils::idempotency_char;
use aslan::{ASLANKey, Node, RecentItems};
use std::collections::HashSet;

#[test]
fn an_index_is_written_in_decimal() {
    assert_eq!(decimal_string(0), "0");
    assert_eq!(decimal_string(42), "42");
    assert_eq!(decimal_string(-12), "-12");
    assert_eq!(decimal_string(i64::MAX), "9223372036854775807");
    assert_eq!(decimal_string(i64::MIN), "-9223372036854775808");
}

#[test]
fn a_key_is_its_name_or_its_index() {
    assert_eq!(ASLANKey::String("name".to_string()).as_string(), "name");
    assert_eq!(ASLANKey::Index(-1).as_string(), "-1");
    assert_eq!(ASLANKey::Index(7).as_string(), "7");
}

#[test]
fn digits_are_read_as_an_index() {
    assert_eq!(parse_index_text("0"), Some(0));
    assert_eq!(parse_index_text("007"), Some(7));
    assert_eq!(parse_index_text("9223372036854775806"), Some(9223372036854775806));
    assert_eq!(parse_index_text("9223372036854775807"), None);
    assert_eq!(parse_index_text("99999999999999999999"), None);
    assert_eq!(parse_index_text(""), None);
    assert_eq!(parse_index_text("1a"), None);
    assert_eq!(parse_index_text("-1"), None);
}

#[test]
fn a_blank_text_holds_white_space_only() {
    assert!(text_is_blank(""));
    assert!(text_is_blank(" \t\r\n\u{a0}\u{3000}"));
    assert!(!text_is_blank(" x "));
    assert!(!text_is_blank("\u{200b}"));
}

#[test]
fn a_key_character_is_a_digit_or_a_small_letter() {
    assert_eq!(idempotency_char(0), '0');
    assert_eq!(idempotency_char(9), '9');
    assert_eq!(idempotency_char(10), 'a');
    assert_eq!(idempotency_char(35), 'z');
}

#[test]
fn a_mapping_keeps_the_place_of_a_key() {
    let mut tree = Node::mapping(vec![("a", Node::text("1")), ("b", Node::text("2"))]);
    tree.set(&ASLANKey::String("a".to_string()), Node::Void);
    tree.set(&ASLANKey::String("c".to_string()), Node::text("3"));
    assert_eq!(tree, Node::mapping(vec![
        ("a", Node::Void),
        ("b", Node::text("2")),
        ("c", Node::text("3")),
    ]));
    assert_eq!(tree.get(&ASLANKey::String("b".to_string())), Some(&Node::text("2")));
    assert_eq!(tree.get(&ASLANKey::String("d".to_string())), None);
    assert_eq!(tree.get(&ASLANKey::Index(0)), None);
}

#[test]
fn a_sequence_is_filled_up_to_the_index() {
    let mut tree = Node::sequence(vec![Node::text("a")]);
    tree.set(&ASLANKey::Index(2), Node::text("c"));
    tree.set(&ASLANKey::Index(-1), Node::text("nowhere"));
    tree.set(&ASLANKey::String("0".to_string()), Node::text("nowhere"));
    assert_eq!(tree, Node::sequence(vec![Node::text("a"), Node::Void, Node::text("c")]));
    assert_eq!(tree.get(&ASLANKey::Index(2)), Some(&Node::text("c")));
    assert_eq!(tree.get(&ASLANKey::Index(3)), None);
    assert_eq!(tree.get(&ASLANKey::Index(-1)), None);
}

#[test]
fn a_text_holds_no_entries() {
    let mut tree = Node::text("a");
    tree.set(&ASLANKey::Index(0), Node::Void);
    assert_eq!(tree, Node::text("a"));
    assert_eq!(tree.get(&ASLANKey::Index(0)), None);
}

#[test]
fn a_list_without_room_keeps_nothing() {
    let mut recent: RecentItems<i32> = RecentItems::new(0);
    recent.add(1);
    assert_eq!(recent.get_items(), Vec::<i32>::new());
    assert_eq!(recent.get_most_recent(), None);
}

#[test]
fn the_default_list_has_room_for_five() {
    let mut recent: RecentItems<i32> = RecentItems::default();
    for item in 1..=7 {
        recent.add(item);
    }
    assert_eq!(recent.get_items(), vec![7, 6, 5, 4, 3]);
}

#[test]
fn the_most_recent_item_outside_a_set() {
    let mut recent: RecentItems<i32> = RecentItems::new(5);
    recent.add(1);
    recent.add(2);
    recent.add(3);
    let mut excluded = HashSet::new();
    excluded.insert(3);
    assert_eq!(recent.get_most_recent_not_in(&excluded), Some(&2));
    excluded.insert(2);
    excluded.insert(1);
    assert_eq!(recent.get_most_recent_not_in(&excluded), None);
    assert_eq!(recent.get_nth_most_recent_not_in(0, &excluded), None);
}
