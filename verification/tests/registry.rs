use chat_relay::envelope::ClientId;
use chat_relay::registry::Registry;

fn three() -> Registry<&'static str> {
    let mut registry = Registry::new();
    assert!(registry.insert(ClientId(1), "one"));
    assert!(registry.insert(ClientId(2), "two"));
    assert!(registry.insert(ClientId(3), "three"));
    registry
}

#[test]
fn new_registry_is_empty() {
    let registry: Registry<u8> = Registry::new();
    assert!(registry.is_empty());
    assert_eq!(registry.len(), 0);
    assert!(!registry.contains(ClientId(0)));
    assert_eq!(registry.client_ids(), Vec::<ClientId>::new());
}

#[test]
fn insert_registers_in_order() {
    let registry = three();
    assert_eq!(registry.len(), 3);
    assert!(!registry.is_empty());
    assert_eq!(registry.client_ids(), vec![ClientId(1), ClientId(2), ClientId(3)]);
    assert!(registry.contains(ClientId(2)));
    assert!(!registry.contains(ClientId(4)));
}

#[test]
fn insert_refuses_a_registered_identifier() {
    let mut registry = three();
    assert!(!registry.insert(ClientId(2), "again"));
    assert_eq!(registry.len(), 3);
    assert_eq!(registry.get(ClientId(2)), Some(&"two"));
    assert_eq!(registry.client_ids(), vec![ClientId(1), ClientId(2), ClientId(3)]);
}

#[test]
fn get_finds_the_handle() {
    let registry = three();
    assert_eq!(registry.get(ClientId(1)), Some(&"one"));
    assert_eq!(registry.get(ClientId(3)), Some(&"three"));
    assert_eq!(registry.get(ClientId(9)), None);
}

#[test]
fn remove_hands_back_the_handle_and_keeps_the_order() {
    let mut registry = three();
    assert_eq!(registry.remove(ClientId(2)), Some("two"));
    assert_eq!(registry.client_ids(), vec![ClientId(1), ClientId(3)]);
    assert!(!registry.contains(ClientId(2)));
    assert_eq!(registry.get(ClientId(3)), Some(&"three"));
}

#[test]
fn remove_of_an_unknown_identifier_changes_nothing() {
    let mut registry = three();
    assert_eq!(registry.remove(ClientId(7)), None);
    assert_eq!(registry.client_ids(), vec![ClientId(1), ClientId(2), ClientId(3)]);
}

#[test]
fn an_identifier_can_be_registered_again_after_removal() {
    let mut registry = three();
    assert_eq!(registry.remove(ClientId(1)), Some("one"));
    assert!(registry.insert(ClientId(1), "uno"));
    assert_eq!(registry.client_ids(), vec![ClientId(2), ClientId(3), ClientId(1)]);
    assert_eq!(registry.get(ClientId(1)), Some(&"uno"));
}

#[test]
fn for_each_except_visits_all_but_one() {
    let registry = three();
    let seen = registry.for_each_except(ClientId(2), |id, handle| (id, handle.len()));
    assert_eq!(seen, vec![(ClientId(1), 3), (ClientId(3), 5)]);
}

#[test]
fn for_each_except_with_an_unknown_identifier_visits_all() {
    let registry = three();
    let seen = registry.for_each_except(ClientId(9), |id, _handle| id);
    assert_eq!(seen, vec![ClientId(1), ClientId(2), ClientId(3)]);
}

#[test]
fn for_each_except_on_an_empty_registry_visits_nothing() {
    let registry: Registry<u8> = Registry::new();
    let seen = registry.for_each_except(ClientId(0), |id, _handle| id);
    assert!(seen.is_empty());
}

#[test]
fn for_each_except_on_the_only_client_visits_nothing() {
    let mut registry = Registry::new();
    assert!(registry.insert(ClientId(5), 'x'));
    let seen = registry.for_each_except(ClientId(5), |id, _handle| id);
    assert!(seen.is_empty());
}

#[test]
fn snapshot_except_copies_the_other_entries() {
    let mut registry = three();
    let snapshot = registry.snapshot_except(ClientId(1));
    assert_eq!(snapshot, vec![(ClientId(2), "two"), (ClientId(3), "three")]);
    // The copy does not follow the registry.
    assert_eq!(registry.remove(ClientId(3)), Some("three"));
    assert_eq!(snapshot, vec![(ClientId(2), "two"), (ClientId(3), "three")]);
}
