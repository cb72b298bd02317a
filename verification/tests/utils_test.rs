use aslan::{deep_copy, generate_random_idempotency_key, Node};

#[test]
fn test_generate_random_idempotency_key() {
    let key1 = generate_random_idempotency_key();
    let key2 = generate_random_idempotency_key();
    assert_eq!(key1.len(), 24);
    assert_eq!(key2.len(), 24);
    assert_ne!(key1, key2);
}

#[test]
fn generated_key_holds_digits_and_small_letters() {
    let key = generate_random_idempotency_key();
    assert!(key.chars().all(|c| c.is_ascii_digit() || c.is_ascii_lowercase()));
}

#[test]
fn deep_copy_gives_an_equal_tree() {
    let tree = Node::mapping(vec![
        ("a", Node::text("x")),
        ("b", Node::sequence(vec![Node::Void, Node::mapping(vec![("c", Node::text(""))])])),
    ]);
    assert_eq!(deep_copy(&tree), tree);
}
