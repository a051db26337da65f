use bevy_forms::list::{find_duplicate, ChildBinding, DuplicateKeyError, FormListComponent, ItemDescriptor, Mutation};

fn items(pairs: &[(&str, &str)]) -> Vec<ItemDescriptor> {
    pairs.iter().map(|(k, p)| ItemDescriptor::new(k, p)).collect()
}

fn keys(list: &FormListComponent) -> Vec<String> {
    list.bindings().iter().map(|b| b.key.clone()).collect()
}

fn nodes(list: &FormListComponent) -> Vec<u64> {
    list.bindings().iter().map(|b| b.node).collect()
}

#[test]
fn new_list_is_empty_and_at_top() {
    let list = FormListComponent::new(7);
    assert!(list.bindings().is_empty());
    assert_eq!(list.scroll_position(), 0);
    assert_eq!(list.next_node(), 0);
}

#[test]
fn new_list_keeps_its_id() {
    let a = FormListComponent::new(0x936DA01F9ABD4D9D80C702AF85C822A8);
    assert_eq!(a.id(), 0x936DA01F9ABD4D9D80C702AF85C822A8);
}

#[test]
fn find_duplicate_reports_first_repeat_position() {
    assert_eq!(find_duplicate(&items(&[("a", ""), ("b", ""), ("b", ""), ("a", "")])), Some(2));
    assert_eq!(find_duplicate(&items(&[("a", ""), ("b", "")])), None);
    assert_eq!(find_duplicate(&Vec::new()), None);
}

#[test]
fn first_pass_spawns_every_item_in_order() {
    let mut list = FormListComponent::new(7);
    let ms = list.set_items(&items(&[("a", "A"), ("b", "B")])).unwrap();
    assert_eq!(
        ms,
        vec![
            Mutation::Spawn { node: 0, key: "a".to_string(), payload: "A".to_string() },
            Mutation::Spawn { node: 1, key: "b".to_string(), payload: "B".to_string() },
        ]
    );
    assert_eq!(keys(&list), vec!["a", "b"]);
    assert_eq!(list.next_node(), 2);
    assert_eq!(
        list.bindings()[1],
        ChildBinding { key: "b".to_string(), node: 1, payload: "B".to_string() }
    );
}

#[test]
fn child_order_follows_descriptor_order() {
    let mut list = FormListComponent::new(7);
    list.set_items(&items(&[("a", "1"), ("b", "2"), ("c", "3")])).unwrap();
    let ms = list.set_items(&items(&[("c", "3"), ("a", "1"), ("b", "2")])).unwrap();
    assert_eq!(ms, vec![Mutation::Reorder { order: vec![2, 0, 1] }]);
    assert_eq!(keys(&list), vec!["c", "a", "b"]);
    assert_eq!(nodes(&list), vec![2, 0, 1]);
}

#[test]
fn reconciling_twice_is_a_noop() {
    let mut list = FormListComponent::new(7);
    let descs = items(&[("x", "1"), ("y", "2"), ("z", "3")]);
    let first = list.set_items(&descs).unwrap();
    assert_eq!(first.len(), 3);
    let second = list.set_items(&descs).unwrap();
    assert!(second.is_empty());
    assert_eq!(keys(&list), vec!["x", "y", "z"]);
}

#[test]
fn duplicate_key_is_rejected_without_change() {
    let mut list = FormListComponent::new(7);
    list.set_items(&items(&[("q", "1")])).unwrap();
    let before = list.bindings().clone();
    let r = list.set_items(&items(&[("a", "1"), ("a", "2")]));
    assert_eq!(r, Err(DuplicateKeyError { key: "a".to_string() }));
    assert_eq!(list.bindings(), &before);
    assert_eq!(list.next_node(), 1);
}

#[test]
fn first_repeated_key_is_reported() {
    let mut list = FormListComponent::new(7);
    let r = list.set_items(&items(&[("a", ""), ("b", ""), ("c", ""), ("b", ""), ("a", "")]));
    assert_eq!(r, Err(DuplicateKeyError { key: "b".to_string() }));
    assert!(list.bindings().is_empty());
}

#[test]
fn removal_despawns_exactly_the_missing_item() {
    let mut list = FormListComponent::new(7);
    list.set_items(&items(&[("a", "1"), ("b", "2"), ("c", "3")])).unwrap();
    let b_node = list.bindings()[1].node;
    let ms = list.set_items(&items(&[("a", "1"), ("c", "3")])).unwrap();
    assert_eq!(ms, vec![Mutation::Despawn { node: b_node }]);
    assert_eq!(keys(&list), vec!["a", "c"]);
    assert_eq!(nodes(&list), vec![0, 2]);
}

#[test]
fn changed_payload_is_updated_in_place() {
    let mut list = FormListComponent::new(7);
    list.set_items(&items(&[("a", "old"), ("b", "same")])).unwrap();
    let ms = list.set_items(&items(&[("a", "new"), ("b", "same")])).unwrap();
    assert_eq!(ms, vec![Mutation::Update { node: 0, payload: "new".to_string() }]);
    assert_eq!(list.bindings()[0].payload, "new");
}

#[test]
fn new_key_in_the_middle_spawns_and_reorders() {
    let mut list = FormListComponent::new(7);
    list.set_items(&items(&[("a", "1"), ("c", "3")])).unwrap();
    let ms = list.set_items(&items(&[("a", "1"), ("b", "2"), ("c", "3")])).unwrap();
    assert_eq!(
        ms,
        vec![
            Mutation::Spawn { node: 2, key: "b".to_string(), payload: "2".to_string() },
            Mutation::Reorder { order: vec![0, 2, 1] },
        ]
    );
}

#[test]
fn new_key_at_the_end_needs_no_reorder() {
    let mut list = FormListComponent::new(7);
    list.set_items(&items(&[("a", "1")])).unwrap();
    let ms = list.set_items(&items(&[("a", "1"), ("b", "2")])).unwrap();
    assert_eq!(ms, vec![Mutation::Spawn { node: 1, key: "b".to_string(), payload: "2".to_string() }]);
}

#[test]
fn emptying_the_list_despawns_everything() {
    let mut list = FormListComponent::new(7);
    list.set_items(&items(&[("a", "1"), ("b", "2")])).unwrap();
    let ms = list.set_items(&Vec::new()).unwrap();
    assert_eq!(ms, vec![Mutation::Despawn { node: 0 }, Mutation::Despawn { node: 1 }]);
    assert!(list.bindings().is_empty());
    assert_eq!(list.next_node(), 2);
}

#[test]
fn removed_key_that_returns_gets_a_fresh_node() {
    let mut list = FormListComponent::new(7);
    list.set_items(&items(&[("a", "1")])).unwrap();
    list.set_items(&Vec::new()).unwrap();
    let ms = list.set_items(&items(&[("a", "1")])).unwrap();
    assert_eq!(ms, vec![Mutation::Spawn { node: 1, key: "a".to_string(), payload: "1".to_string() }]);
}
