//! The relay itself: registry, ingestion queue and identifier counter behind
//! one value that the acceptor, the readers and the broadcaster share.

use vstd::prelude::*;
use crate::broadcast::{Round, copies_of, plan};
use crate::envelope::ClientId;
use crate::model::{
    RelayView,
    after_connect,
    after_leave,
    after_read,
    after_round,
    after_shutdown,
    can_connect,
    coherent,
    initial,
    read_verdict,
    round_recipients,
};
use crate::queue::IngestQueue;
use crate::reader::{Disconnect, Framing, ReadOutcome, frame};
use crate::registry::{
    Registry,
    ids_of,
    lemma_all_but_absent,
    lemma_all_but_members,
    lemma_distinct_ids,
    lemma_ids_without,
    lemma_registered_ids,
    lemma_without_absent,
    without,
};

verus! {

/// A relay for clients reached through handles of type `H`.
///
/// Every operation is one step of the state machine that the module `model`
/// describes. The program around the relay keeps it behind a lock, so that the
/// steps of its tasks happen one after the other.
pub struct Relay<H> {
    framing: Framing,
    registry: Registry<H>,
    queue: IngestQueue,
    next_id: u64,
}

impl<H> View for Relay<H> {
    type V = RelayView;

    closed spec fn view(&self) -> RelayView {
        RelayView {
            framing: self.framing,
            members: self.registry.ids(),
            pending: self.queue@,
            issued: self.next_id as nat,
            closed: self.queue.shut(),
        }
    }
}

impl<H> Relay<H> {
    /// The registered clients, each with its handle, oldest registration
    /// first.
    pub closed spec fn entries(&self) -> Seq<(ClientId, H)> {
        self.registry@
    }

    /// The relay's invariant: its value is coherent, and its members are the
    /// clients that have an entry.
    pub open spec fn wf(&self) -> bool {
        &&& coherent(self@)
        &&& self@.members == ids_of(self.entries())
    }

    /// A relay before anything happened, framing reads as `framing` says.
    pub fn new(framing: Framing) -> (relay: Relay<H>)
        ensures
            relay.wf(),
            relay@ == initial(framing),
            relay.entries() == Seq::<(ClientId, H)>::empty(),
    {
        let relay = Relay { framing, registry: Registry::new(), queue: IngestQueue::new(), next_id: 0 };
        assert(relay@.members =~= Seq::<ClientId>::empty());
        relay
    }

    /// Registers an accepted connection under the next identifier and returns
    /// that identifier. Where the identifiers are used up it registers nothing,
    /// gives the handle up and returns `None`.
    pub fn connect(&mut self, handle: H) -> (id: Option<ClientId>)
        requires
            old(self).wf(),
        ensures
            final(self).wf(),
            final(self)@ == after_connect(old(self)@),
            match id {
                Some(id) => {
                    &&& can_connect(old(self)@)
                    &&& id == ClientId(old(self)@.issued as u64)
                    &&& final(self).entries() == old(self).entries().push((id, handle))
                },
                None => !can_connect(old(self)@) && final(self).entries() == old(self).entries(),
            },
    {
        if self.next_id == u64::MAX {
            return None;
        }
        let id = ClientId(self.next_id);
        proof {
            lemma_distinct_ids(self.registry@);
            lemma_registered_ids(self.registry@, id);
            if self@.members.contains(id) {
                let at = choose|i: int| 0 <= i < self@.members.len() && self@.members[i] == id;
                assert(self@.members[at].0 < self@.issued);
            }
        }
        let inserted = self.registry.insert(id, handle);
        self.next_id = self.next_id + 1;
        proof {
            assert(inserted);
            assert(self@.members =~= old(self)@.members.push(id));
            lemma_distinct_ids(self.registry@);
        }
        Some(id)
    }

    /// Takes `id` out of the registry and hands back its handle, or `None`
    /// where `id` was not registered. What waits in the queue stays.
    pub fn disconnect(&mut self, id: ClientId) -> (removed: Option<H>)
        requires
            old(self).wf(),
        ensures
            final(self).wf(),
            final(self)@ == after_leave(old(self)@, id),
            final(self).entries() == without(old(self).entries(), id),
            match removed {
                Some(handle) => old(self).entries().contains((id, handle)),
                None => !old(self)@.members.contains(id),
            },
    {
        proof {
            lemma_distinct_ids(self.registry@);
            lemma_registered_ids(self.registry@, id);
            lemma_ids_without(self.registry@, id);
            lemma_all_but_members(self@.members, id);
        }
        let removed = self.registry.remove(id);
        proof {
            assert forall|i: int| 0 <= i < self@.members.len() implies (#[trigger] self@.members[i]).0
                < self@.issued by {
                assert(self@.members.contains(self@.members[i]));
                assert(old(self)@.members.contains(self@.members[i]));
            }
        }
        removed
    }

    /// One step of the reader of `id`, after a read into `buf` that ended as
    /// `outcome` says.
    ///
    /// Where the read gave a message, it is put behind all that wait and the
    /// reader goes on. In every other case the reader is told to stop, with
    /// the reason, and `id` is taken out of the registry: after an end of
    /// stream, a failed read, a message that is too long or malformed, or
    /// where the queue is closed. No other client is touched.
    pub fn on_read(&mut self, id: ClientId, buf: &[u8], outcome: ReadOutcome) -> (verdict: Result<
        (),
        Disconnect,
    >)
        requires
            old(self).wf(),
        ensures
            final(self).wf(),
            verdict == read_verdict(old(self)@, id, buf@, outcome),
            final(self)@ == after_read(old(self)@, id, buf@, outcome),
            final(self).entries() == if verdict.is_ok() {
                old(self).entries()
            } else {
                without(old(self).entries(), id)
            },
    {
        proof {
            lemma_registered_ids(self.registry@, id);
        }
        if !self.registry.contains(id) {
            proof {
                lemma_all_but_absent(self@.members, id);
                lemma_without_absent(self.registry@, id);
            }
            return Err(Disconnect::NotRegistered);
        }
        let reason = match frame(id, self.framing, buf, outcome) {
            Ok(envelope) => match self.queue.push(envelope) {
                Ok(_) => {
                    return Ok(());
                },
                Err(_) => Disconnect::QueueClosed,
            },
            Err(reason) => reason,
        };
        self.disconnect(id);
        Err(reason)
    }

    /// Takes the oldest envelope out of the queue and plans its round: the
    /// clients registered right now, all but the sender. Returns `None` where
    /// nothing waits.
    pub fn next_round(&mut self) -> (round: Option<Round<H>>) where H: Clone
        requires
            old(self).wf(),
        ensures
            final(self).wf(),
            final(self)@ == after_round(old(self)@),
            final(self).entries() == old(self).entries(),
            match round {
                Some(round) => {
                    &&& old(self)@.pending.len() > 0
                    &&& round.message()@ == old(self)@.pending[0]
                    &&& copies_of(
                        round.targets(),
                        without(old(self).entries(), old(self)@.pending[0].sender),
                    )
                    &&& ids_of(round.targets()) == round_recipients(old(self)@)
                },
                None => old(self)@.pending.len() == 0,
            },
    {
        proof {
            lemma_distinct_ids(self.registry@);
        }
        match self.queue.pop() {
            Some(envelope) => {
                let round = plan(&self.registry, envelope);
                proof {
                    let kept = without(self.registry@, envelope@.sender);
                    lemma_ids_without(self.registry@, envelope@.sender);
                    assert(ids_of(round.targets()) =~= ids_of(kept));
                }
                Some(round)
            },
            None => None,
        }
    }

    /// Closes the queue, as when the broadcaster goes away: every reader is
    /// told to stop at its next message.
    pub fn shutdown(&mut self)
        requires
            old(self).wf(),
        ensures
            final(self).wf(),
            final(self)@ == after_shutdown(old(self)@),
            final(self).entries() == old(self).entries(),
    {
        self.queue.close();
    }

    /// How reads become payloads.
    pub fn framing(&self) -> (framing: Framing)
        ensures
            framing == self@.framing,
    {
        self.framing
    }

    /// The registry, for reading.
    pub fn registry(&self) -> (registry: &Registry<H>)
        ensures
            registry@ == self.entries(),
            self.wf() ==> registry.wf(),
    {
        proof {
            lemma_distinct_ids(self.registry@);
        }
        &self.registry
    }

    /// Whether `id` is registered.
    pub fn is_registered(&self, id: ClientId) -> (found: bool)
        ensures
            found == self@.members.contains(id),
    {
        proof {
            lemma_registered_ids(self.registry@, id);
        }
        self.registry.contains(id)
    }

    /// How many clients are registered.
    pub fn client_count(&self) -> (n: usize)
        ensures
            n == self@.members.len(),
    {
        self.registry.len()
    }

    /// How many envelopes wait for the broadcaster.
    pub fn pending_count(&self) -> (n: usize)
        ensures
            n == self@.pending.len(),
    {
        self.queue.len()
    }

    /// Whether the queue has been closed.
    pub fn is_closed(&self) -> (closed: bool)
        ensures
            closed == self@.closed,
    {
        self.queue.is_closed()
    }
}

} // verus!
