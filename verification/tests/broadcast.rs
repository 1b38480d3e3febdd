use std::cell::RefCell;
use std::rc::Rc;

use chat_relay::broadcast::{fan_out, plan, Delivery};
use chat_relay::envelope::{ClientId, Envelope};
use chat_relay::registry::Registry;

/// A connection that records what is written to it, or refuses every write.
#[derive(Clone)]
struct Peer {
    inbox: Rc<RefCell<Vec<Vec<u8>>>>,
    broken: bool,
}

impl Peer {
    fn new() -> Peer {
        Peer { inbox: Rc::new(RefCell::new(Vec::new())), broken: false }
    }

    fn broken() -> Peer {
        Peer { inbox: Rc::new(RefCell::new(Vec::new())), broken: true }
    }

    fn received(&self) -> Vec<Vec<u8>> {
        self.inbox.borrow().clone()
    }
}

fn write(peer: &Peer, envelope: &Envelope) -> bool {
    if peer.broken {
        false
    } else {
        peer.inbox.borrow_mut().push(envelope.payload().to_vec());
        true
    }
}

fn message(sender: u64, text: &str) -> Envelope {
    Envelope::new(ClientId(sender), text.as_bytes().to_vec()).expect("a short text is carried")
}

#[test]
fn fan_out_reaches_everyone_but_the_sender() {
    let (a, b, c) = (Peer::new(), Peer::new(), Peer::new());
    let mut registry = Registry::new();
    assert!(registry.insert(ClientId(1), a.clone()));
    assert!(registry.insert(ClientId(2), b.clone()));
    assert!(registry.insert(ClientId(3), c.clone()));
    let report = fan_out(&registry, &message(2, "hi"), write);
    assert_eq!(
        report,
        vec![
            Delivery { recipient: ClientId(1), delivered: true },
            Delivery { recipient: ClientId(3), delivered: true },
        ]
    );
    assert_eq!(a.received(), vec![b"hi".to_vec()]);
    assert!(b.received().is_empty());
    assert_eq!(c.received(), vec![b"hi".to_vec()]);
}

#[test]
fn fan_out_with_no_clients_does_nothing() {
    let registry: Registry<Peer> = Registry::new();
    let report = fan_out(&registry, &message(1, "anyone?"), write);
    assert!(report.is_empty());
}

#[test]
fn fan_out_to_the_sender_alone_does_nothing() {
    let a = Peer::new();
    let mut registry = Registry::new();
    assert!(registry.insert(ClientId(1), a.clone()));
    let report = fan_out(&registry, &message(1, "echo?"), write);
    assert!(report.is_empty());
    assert!(a.received().is_empty());
}

#[test]
fn fan_out_from_an_unknown_sender_reaches_everyone() {
    let (a, b) = (Peer::new(), Peer::new());
    let mut registry = Registry::new();
    assert!(registry.insert(ClientId(1), a.clone()));
    assert!(registry.insert(ClientId(2), b.clone()));
    let report = fan_out(&registry, &message(9, "news"), write);
    assert_eq!(report.len(), 2);
    assert_eq!(a.received(), vec![b"news".to_vec()]);
    assert_eq!(b.received(), vec![b"news".to_vec()]);
}

#[test]
fn failed_write_does_not_stop_the_others() {
    let (a, b, c, d) = (Peer::new(), Peer::broken(), Peer::new(), Peer::new());
    let mut registry = Registry::new();
    assert!(registry.insert(ClientId(1), a.clone()));
    assert!(registry.insert(ClientId(2), b.clone()));
    assert!(registry.insert(ClientId(3), c.clone()));
    assert!(registry.insert(ClientId(4), d.clone()));
    let report = fan_out(&registry, &message(1, "still there"), write);
    assert_eq!(
        report,
        vec![
            Delivery { recipient: ClientId(2), delivered: false },
            Delivery { recipient: ClientId(3), delivered: true },
            Delivery { recipient: ClientId(4), delivered: true },
        ]
    );
    assert!(b.received().is_empty());
    assert_eq!(c.received(), vec![b"still there".to_vec()]);
    assert_eq!(d.received(), vec![b"still there".to_vec()]);
    // The client whose write failed stays registered.
    assert!(registry.contains(ClientId(2)));
    assert_eq!(registry.len(), 4);
}

#[test]
fn failed_write_is_tried_once() {
    let attempts = Rc::new(RefCell::new(0u32));
    let mut registry = Registry::new();
    assert!(registry.insert(ClientId(1), ()));
    assert!(registry.insert(ClientId(2), ()));
    let counter = attempts.clone();
    let report = fan_out(&registry, &message(1, "once"), move |_handle: &(), _envelope: &Envelope| {
        *counter.borrow_mut() += 1;
        false
    });
    assert_eq!(report, vec![Delivery { recipient: ClientId(2), delivered: false }]);
    assert_eq!(*attempts.borrow(), 1);
}

#[test]
fn plan_fixes_the_recipients() {
    let (a, b, c) = (Peer::new(), Peer::new(), Peer::new());
    let mut registry = Registry::new();
    assert!(registry.insert(ClientId(1), a.clone()));
    assert!(registry.insert(ClientId(2), b.clone()));
    assert!(registry.insert(ClientId(3), c.clone()));
    let round = plan(&registry, message(3, "plan"));
    assert_eq!(round.len(), 2);
    assert_eq!(round.recipients(), vec![ClientId(1), ClientId(2)]);
    assert_eq!(round.envelope().sender(), ClientId(3));
    assert_eq!(round.envelope().payload(), b"plan");
}

#[test]
fn deliver_writes_to_every_recipient_of_the_round() {
    let (a, b, c) = (Peer::new(), Peer::new(), Peer::new());
    let mut registry = Registry::new();
    assert!(registry.insert(ClientId(1), a.clone()));
    assert!(registry.insert(ClientId(2), b.clone()));
    assert!(registry.insert(ClientId(3), c.clone()));
    let round = plan(&registry, message(1, "go"));
    let report = round.deliver(write);
    assert_eq!(
        report,
        vec![
            Delivery { recipient: ClientId(2), delivered: true },
            Delivery { recipient: ClientId(3), delivered: true },
        ]
    );
    assert!(a.received().is_empty());
    assert_eq!(b.received(), vec![b"go".to_vec()]);
    assert_eq!(c.received(), vec![b"go".to_vec()]);
}

#[test]
fn client_removed_after_planning_is_still_written_to() {
    let (a, b, c) = (Peer::new(), Peer::new(), Peer::new());
    let mut registry = Registry::new();
    assert!(registry.insert(ClientId(1), a.clone()));
    assert!(registry.insert(ClientId(2), b.clone()));
    assert!(registry.insert(ClientId(3), c.clone()));
    let round = plan(&registry, message(1, "in flight"));
    assert!(registry.remove(ClientId(2)).is_some());
    let report = round.deliver(write);
    assert_eq!(report.len(), 2);
    assert_eq!(b.received(), vec![b"in flight".to_vec()]);
    assert_eq!(c.received(), vec![b"in flight".to_vec()]);
    // The next round no longer goes to it.
    let next = plan(&registry, message(1, "after"));
    assert_eq!(next.recipients(), vec![ClientId(3)]);
}

#[test]
fn client_that_fails_mid_round_does_not_stop_the_round() {
    let (a, b, c) = (Peer::new(), Peer::broken(), Peer::new());
    let mut registry = Registry::new();
    assert!(registry.insert(ClientId(1), a.clone()));
    assert!(registry.insert(ClientId(2), b.clone()));
    assert!(registry.insert(ClientId(3), c.clone()));
    let round = plan(&registry, message(1, "carry on"));
    let report = round.deliver(write);
    assert_eq!(
        report,
        vec![
            Delivery { recipient: ClientId(2), delivered: false },
            Delivery { recipient: ClientId(3), delivered: true },
        ]
    );
    assert_eq!(c.received(), vec![b"carry on".to_vec()]);
}

#[test]
fn plan_with_no_clients_is_empty() {
    let registry: Registry<Peer> = Registry::new();
    let round = plan(&registry, message(1, "nobody"));
    assert_eq!(round.len(), 0);
    assert!(round.recipients().is_empty());
    assert!(round.deliver(write).is_empty());
}
