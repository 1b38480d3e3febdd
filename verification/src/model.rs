//! The relay as a state machine over plain mathematical values: who is
//! registered, what waits in the queue, and how each event changes both.

use vstd::prelude::*;
use crate::envelope::{ClientId, EnvelopeView};
use crate::reader::{Disconnect, Framing, ReadOutcome, framed};
use crate::registry::all_but;

verus! {

/// Mathematical value of a relay.
pub ghost struct RelayView {
    /// How reads become payloads.
    pub framing: Framing,
    /// The registered clients, oldest registration first.
    pub members: Seq<ClientId>,
    /// The envelopes waiting for the broadcaster, oldest arrival first.
    pub pending: Seq<EnvelopeView>,
    /// How many identifiers have been given out; the next one is this number.
    pub issued: nat,
    /// Whether the queue has been closed.
    pub closed: bool,
}

/// What happens to a relay, one event at a time.
pub ghost enum Event {
    /// A connection was accepted.
    Connect,
    /// The reader of `id` finished one read into `buf`.
    Read { id: ClientId, buf: Seq<u8>, outcome: ReadOutcome },
    /// The connection of `id` was given up from outside its reader.
    Leave { id: ClientId },
    /// The broadcaster took the oldest envelope and handed it out.
    Round,
    /// The broadcaster went away: the queue was closed.
    Shutdown,
}

/// The invariant of every relay: no client is registered twice, and every
/// registered identifier is one that was given out.
pub open spec fn coherent(s: RelayView) -> bool {
    &&& s.members.no_duplicates()
    &&& forall|i: int| 0 <= i < s.members.len() ==> (#[trigger] s.members[i]).0 < s.issued
    &&& s.issued <= u64::MAX
}

/// A relay before anything happened.
pub open spec fn initial(framing: Framing) -> RelayView {
    RelayView {
        framing,
        members: Seq::empty(),
        pending: Seq::empty(),
        issued: 0,
        closed: false,
    }
}

/// Whether one more identifier can be given out.
pub open spec fn can_connect(s: RelayView) -> bool {
    s.issued < u64::MAX
}

/// The relay after a connection was accepted: the next identifier is given
/// out and registered behind the others. Where the identifiers are used up,
/// nothing changes.
pub open spec fn after_connect(s: RelayView) -> RelayView {
    if can_connect(s) {
        RelayView { members: s.members.push(ClientId(s.issued as u64)), issued: s.issued + 1, ..s }
    } else {
        s
    }
}

/// What the reader of `id` is told after one read: to go on, or to stop and
/// why.
pub open spec fn read_verdict(
    s: RelayView,
    id: ClientId,
    buf: Seq<u8>,
    outcome: ReadOutcome,
) -> Result<(), Disconnect> {
    if !s.members.contains(id) {
        Err(Disconnect::NotRegistered)
    } else {
        match framed(s.framing, buf, outcome) {
            Err(reason) => Err(reason),
            Ok(_) => if s.closed {
                Err(Disconnect::QueueClosed)
            } else {
                Ok(())
            },
        }
    }
}

/// The envelope that a read of `id` gives, where it gives one.
pub open spec fn message_of(
    s: RelayView,
    id: ClientId,
    buf: Seq<u8>,
    outcome: ReadOutcome,
) -> EnvelopeView {
    EnvelopeView { sender: id, payload: framed(s.framing, buf, outcome)->Ok_0 }
}

/// The relay after the reader of `id` finished one read: where the reader goes
/// on, its message waits behind all others; where it stops, `id` is no longer
/// registered. Nothing else changes.
pub open spec fn after_read(
    s: RelayView,
    id: ClientId,
    buf: Seq<u8>,
    outcome: ReadOutcome,
) -> RelayView {
    match read_verdict(s, id, buf, outcome) {
        Ok(_) => RelayView { pending: s.pending.push(message_of(s, id, buf, outcome)), ..s },
        Err(_) => RelayView { members: all_but(s.members, id), ..s },
    }
}

/// The relay after `id` was taken out of the registry.
pub open spec fn after_leave(s: RelayView, id: ClientId) -> RelayView {
    RelayView { members: all_but(s.members, id), ..s }
}

/// The clients that the next round goes to: all that are registered but the
/// sender of the oldest envelope. Empty where nothing waits.
pub open spec fn round_recipients(s: RelayView) -> Seq<ClientId> {
    if s.pending.len() > 0 {
        all_but(s.members, s.pending[0].sender)
    } else {
        Seq::empty()
    }
}

/// The relay after one round: the oldest envelope has left the queue. Where
/// nothing waited, nothing changes.
pub open spec fn after_round(s: RelayView) -> RelayView {
    if s.pending.len() > 0 {
        RelayView { pending: s.pending.drop_first(), ..s }
    } else {
        s
    }
}

/// The relay after the queue was closed.
pub open spec fn after_shutdown(s: RelayView) -> RelayView {
    RelayView { closed: true, ..s }
}

/// The relay after one event.
pub open spec fn step(s: RelayView, event: Event) -> RelayView {
    match event {
        Event::Connect => after_connect(s),
        Event::Read { id, buf, outcome } => after_read(s, id, buf, outcome),
        Event::Leave { id } => after_leave(s, id),
        Event::Round => after_round(s),
        Event::Shutdown => after_shutdown(s),
    }
}

/// The relay after a sequence of events, the first of them first.
pub open spec fn run(s: RelayView, events: Seq<Event>) -> RelayView
    decreases events.len(),
{
    if events.len() == 0 {
        s
    } else {
        step(run(s, events.drop_last()), events.last())
    }
}

/// Whether `event`, happening to `s`, starts the reader of `c`: a connection
/// is accepted and `c` is the identifier given to it.
pub open spec fn reader_starts(s: RelayView, event: Event, c: ClientId) -> bool {
    event is Connect && can_connect(s) && c == ClientId(s.issued as u64)
}

/// Whether `event`, happening to `s`, ends the reader of `c`: a read of `c`
/// after which its reader is told to stop, or `c` is given up from outside.
pub open spec fn reader_stops(s: RelayView, event: Event, c: ClientId) -> bool {
    match event {
        Event::Read { id, buf, outcome } => id == c && read_verdict(s, id, buf, outcome).is_err(),
        Event::Leave { id } => id == c,
        _ => false,
    }
}

/// Whether the event at place `j` of `events`, which happen to `s` in turn,
/// starts the reader of `c`.
pub open spec fn starts_at(s: RelayView, events: Seq<Event>, j: int, c: ClientId) -> bool {
    reader_starts(run(s, events.take(j)), events[j], c)
}

/// Whether the event at place `j` of `events`, which happen to `s` in turn,
/// ends the reader of `c`.
pub open spec fn stops_at(s: RelayView, events: Seq<Event>, j: int, c: ClientId) -> bool {
    reader_stops(run(s, events.take(j)), events[j], c)
}

/// Whether the reader of `c` was started by the event at place `i` of
/// `events`, and no later one of them ended it.
pub open spec fn lives_since(s: RelayView, events: Seq<Event>, i: int, c: ClientId) -> bool {
    &&& 0 <= i < events.len()
    &&& starts_at(s, events, i, c)
    &&& forall|j: int| i < j < events.len() ==> !#[trigger] stops_at(s, events, j, c)
}

/// `n` rounds of the broadcaster and nothing in between.
pub open spec fn rounds(n: nat) -> Seq<Event> {
    Seq::new(n, |i: int| Event::Round)
}

/// The payloads that `c` is owed from `envelopes`: those of every envelope
/// that `c` did not send, in their order.
pub open spec fn payloads_for(envelopes: Seq<EnvelopeView>, c: ClientId) -> Seq<Seq<u8>> {
    envelopes.filter(|envelope: EnvelopeView| envelope.sender != c).map_values(
        |envelope: EnvelopeView| envelope.payload,
    )
}

/// The envelope that `event` puts into the queue of `s`, if it puts one.
pub open spec fn accepted_by(s: RelayView, event: Event) -> Seq<EnvelopeView> {
    match event {
        Event::Read { id, buf, outcome } => if read_verdict(s, id, buf, outcome).is_ok() {
            seq![message_of(s, id, buf, outcome)]
        } else {
            Seq::empty()
        },
        _ => Seq::empty(),
    }
}

/// The envelope that `event` takes out of the queue of `s`, if it takes one.
pub open spec fn handled_by(s: RelayView, event: Event) -> Seq<EnvelopeView> {
    if event is Round && s.pending.len() > 0 {
        seq![s.pending[0]]
    } else {
        Seq::empty()
    }
}

/// The payload that `event`, happening to `s`, hands to `c`, if it hands one:
/// that of the oldest envelope, where the event is a round and `c` is among
/// its recipients.
pub open spec fn handed_by(s: RelayView, event: Event, c: ClientId) -> Seq<Seq<u8>> {
    if event is Round && round_recipients(s).contains(c) {
        seq![s.pending[0].payload]
    } else {
        Seq::empty()
    }
}

/// All envelopes put into the queue while `events` happen to `s`, in the
/// order in which they were put there.
pub open spec fn accepted(s: RelayView, events: Seq<Event>) -> Seq<EnvelopeView>
    decreases events.len(),
{
    if events.len() == 0 {
        Seq::empty()
    } else {
        accepted(s, events.drop_last()) + accepted_by(run(s, events.drop_last()), events.last())
    }
}

/// All envelopes taken out of the queue while `events` happen to `s`, in the
/// order in which the broadcaster took them.
pub open spec fn handled(s: RelayView, events: Seq<Event>) -> Seq<EnvelopeView>
    decreases events.len(),
{
    if events.len() == 0 {
        Seq::empty()
    } else {
        handled(s, events.drop_last()) + handled_by(run(s, events.drop_last()), events.last())
    }
}

/// All payloads handed to `c` while `events` happen to `s`, in the order in
/// which `c` gets them.
pub open spec fn inbox(s: RelayView, events: Seq<Event>, c: ClientId) -> Seq<Seq<u8>>
    decreases events.len(),
{
    if events.len() == 0 {
        Seq::empty()
    } else {
        inbox(s, events.drop_last(), c) + handed_by(run(s, events.drop_last()), events.last(), c)
    }
}

} // verus!
