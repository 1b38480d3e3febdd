//! The ingestion queue: the one path from all readers to the broadcaster.
//! Envelopes leave it in the order in which they entered.

use std::collections::VecDeque;
use vstd::prelude::*;
use crate::envelope::{Envelope, EnvelopeView};

verus! {

/// First-in, first-out queue of envelopes, without an upper bound. Once closed
/// it takes no more envelopes; those already in it can still be taken out.
pub struct IngestQueue {
    pending: VecDeque<Envelope>,
    closed: bool,
}

impl View for IngestQueue {
    type V = Seq<EnvelopeView>;

    /// The envelopes waiting, the one that entered first in front.
    closed spec fn view(&self) -> Seq<EnvelopeView> {
        self.pending@.map_values(|envelope: Envelope| envelope@)
    }
}

impl IngestQueue {
    /// Whether the queue has been closed.
    pub closed spec fn shut(&self) -> bool {
        self.closed
    }

    /// An open queue with nothing in it.
    pub fn new() -> (queue: IngestQueue)
        ensures
            queue@ == Seq::<EnvelopeView>::empty(),
            !queue.shut(),
    {
        let queue = IngestQueue { pending: VecDeque::new(), closed: false };
        assert(queue@ =~= Seq::<EnvelopeView>::empty());
        queue
    }

    /// How many envelopes are waiting.
    pub fn len(&self) -> (n: usize)
        ensures
            n == self@.len(),
    {
        self.pending.len()
    }

    /// Whether no envelope is waiting.
    pub fn is_empty(&self) -> (empty: bool)
        ensures
            empty == (self@.len() == 0),
    {
        self.pending.len() == 0
    }

    /// Whether the queue has been closed.
    pub fn is_closed(&self) -> (closed: bool)
        ensures
            closed == self.shut(),
    {
        self.closed
    }

    /// Puts `envelope` behind everything that waits. A closed queue refuses it
    /// and hands it back.
    pub fn push(&mut self, envelope: Envelope) -> (refused: Result<(), Envelope>)
        ensures
            final(self).shut() == old(self).shut(),
            match refused {
                Ok(_) => !old(self).shut() && final(self)@ == old(self)@.push(envelope@),
                Err(back) => old(self).shut() && back == envelope && final(self)@ == old(self)@,
            },
    {
        if self.closed {
            return Err(envelope);
        }
        let ghost pushed = envelope@;
        self.pending.push_back(envelope);
        assert(self@ =~= old(self)@.push(pushed));
        Ok(())
    }

    /// Takes out the envelope that has waited longest, or returns `None` where
    /// nothing waits.
    pub fn pop(&mut self) -> (taken: Option<Envelope>)
        ensures
            final(self).shut() == old(self).shut(),
            match taken {
                Some(envelope) => {
                    &&& old(self)@.len() > 0
                    &&& envelope@ == old(self)@[0]
                    &&& final(self)@ == old(self)@.drop_first()
                },
                None => old(self)@.len() == 0 && final(self)@ == old(self)@,
            },
    {
        let taken = self.pending.pop_front();
        assert(taken.is_some() ==> self@ =~= old(self)@.drop_first());
        taken
    }

    /// Closes the queue: from now on `push` refuses. What waits stays.
    pub fn close(&mut self)
        ensures
            final(self).shut(),
            final(self)@ == old(self)@,
    {
        self.closed = true;
    }
}

} // verus!
