use chat_relay::envelope::{ClientId, Envelope};
use chat_relay::queue::IngestQueue;

fn message(sender: u64, text: &str) -> Envelope {
    Envelope::new(ClientId(sender), text.as_bytes().to_vec()).expect("a short text is carried")
}

#[test]
fn new_queue_is_open_and_empty() {
    let mut queue = IngestQueue::new();
    assert!(queue.is_empty());
    assert_eq!(queue.len(), 0);
    assert!(!queue.is_closed());
    assert!(queue.pop().is_none());
}

#[test]
fn envelopes_leave_in_the_order_of_arrival() {
    let mut queue = IngestQueue::new();
    assert!(queue.push(message(1, "m1")).is_ok());
    assert!(queue.push(message(2, "other")).is_ok());
    assert!(queue.push(message(1, "m2")).is_ok());
    assert_eq!(queue.len(), 3);
    assert_eq!(queue.pop(), Some(message(1, "m1")));
    assert_eq!(queue.pop(), Some(message(2, "other")));
    assert_eq!(queue.pop(), Some(message(1, "m2")));
    assert_eq!(queue.pop(), None);
    assert!(queue.is_empty());
}

#[test]
fn pop_between_pushes_keeps_the_order() {
    let mut queue = IngestQueue::new();
    assert!(queue.push(message(1, "a")).is_ok());
    assert!(queue.push(message(1, "b")).is_ok());
    assert_eq!(queue.pop(), Some(message(1, "a")));
    assert!(queue.push(message(1, "c")).is_ok());
    assert_eq!(queue.pop(), Some(message(1, "b")));
    assert_eq!(queue.pop(), Some(message(1, "c")));
}

#[test]
fn closed_queue_hands_the_envelope_back() {
    let mut queue = IngestQueue::new();
    queue.close();
    assert!(queue.is_closed());
    assert_eq!(queue.push(message(4, "late")), Err(message(4, "late")));
    assert!(queue.is_empty());
}

#[test]
fn closed_queue_still_gives_what_waits() {
    let mut queue = IngestQueue::new();
    assert!(queue.push(message(1, "early")).is_ok());
    queue.close();
    assert_eq!(queue.len(), 1);
    assert_eq!(queue.pop(), Some(message(1, "early")));
    assert_eq!(queue.pop(), None);
    assert!(queue.is_closed());
}
