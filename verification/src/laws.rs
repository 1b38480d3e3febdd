//! What holds of the relay whatever happens to it, proved from the state
//! machine that its operations follow.

use vstd::prelude::*;
use crate::envelope::{ClientId, EnvelopeView, MAX_PAYLOAD};
use crate::model::{
    Event,
    RelayView,
    accepted,
    accepted_by,
    after_read,
    coherent,
    handled,
    handled_by,
    inbox,
    initial,
    lives_since,
    message_of,
    payloads_for,
    reader_starts,
    starts_at,
    stops_at,
    reader_stops,
    read_verdict,
    round_recipients,
    rounds,
    run,
    step,
};
use crate::reader::{Disconnect, Framing, ReadOutcome, framed};
use crate::registry::{all_but, lemma_all_but_absent, lemma_all_but_members};

verus! {

/// One event leaves a coherent relay coherent: still no client is registered
/// twice, and every registered identifier is one that was given out.
pub proof fn law_step_keeps_coherent(s: RelayView, event: Event)
    requires
        coherent(s),
    ensures
        coherent(step(s, event)),
{
    let t = step(s, event);
    match event {
        Event::Connect => {
            if s.issued < u64::MAX {
                let id = ClientId(s.issued as u64);
                assert forall|i: int, j: int|
                    0 <= i < t.members.len() && 0 <= j < t.members.len() && i != j implies t.members[i]
                    != t.members[j] by {
                    if i < s.members.len() {
                        assert(s.members[i].0 < s.issued);
                    }
                    if j < s.members.len() {
                        assert(s.members[j].0 < s.issued);
                    }
                }
                assert forall|i: int| 0 <= i < t.members.len() implies (#[trigger] t.members[i]).0
                    < t.issued by {
                    if i < s.members.len() {
                        assert(s.members[i].0 < s.issued);
                    }
                }
            }
        },
        Event::Read { id, buf, outcome } => {
            lemma_taking_out_keeps_coherent(s, id);
        },
        Event::Leave { id } => {
            lemma_taking_out_keeps_coherent(s, id);
        },
        Event::Round => {},
        Event::Shutdown => {},
    }
}

proof fn lemma_taking_out_keeps_coherent(s: RelayView, id: ClientId)
    requires
        coherent(s),
    ensures
        coherent(RelayView { members: all_but(s.members, id), ..s }),
{
    lemma_all_but_members(s.members, id);
    let rest = all_but(s.members, id);
    assert forall|i: int| 0 <= i < rest.len() implies (#[trigger] rest[i]).0 < s.issued by {
        assert(rest.contains(rest[i]));
        assert(s.members.contains(rest[i]));
        let at = choose|k: int| 0 <= k < s.members.len() && s.members[k] == rest[i];
        assert(s.members[at].0 < s.issued);
    }
}

/// Whatever sequence of events happens, in whatever order the acceptor, the
/// readers and the broadcaster take their turns, the relay stays coherent: no
/// client is ever registered twice.
pub proof fn law_entries_unique(s: RelayView, events: Seq<Event>)
    requires
        coherent(s),
    ensures
        coherent(run(s, events)),
        run(s, events).members.no_duplicates(),
    decreases events.len(),
{
    if events.len() > 0 {
        law_entries_unique(s, events.drop_last());
        law_step_keeps_coherent(run(s, events.drop_last()), events.last());
    }
}

/// A client is registered after an event exactly if the event started its
/// reader, or it was registered before and the event did not end its reader.
/// So nothing but the start and the end of its own reader touches a client's
/// entry.
pub proof fn law_registered_while_reader_lives(s: RelayView, event: Event, c: ClientId)
    requires
        coherent(s),
    ensures
        step(s, event).members.contains(c) <==> reader_starts(s, event, c) || (s.members.contains(c)
            && !reader_stops(s, event, c)),
{
    let t = step(s, event);
    match event {
        Event::Connect => {
            if s.issued < u64::MAX {
                let id = ClientId(s.issued as u64);
                if t.members.contains(c) {
                    let at = choose|i: int| 0 <= i < t.members.len() && t.members[i] == c;
                    if at < s.members.len() {
                        assert(s.members[at] == c);
                    }
                }
                if s.members.contains(c) {
                    let at = choose|i: int| 0 <= i < s.members.len() && s.members[i] == c;
                    assert(t.members[at] == c);
                }
                assert(t.members[s.members.len() as int] == id);
            }
        },
        Event::Read { id, buf, outcome } => {
            lemma_all_but_members(s.members, id);
            if !s.members.contains(id) {
                lemma_all_but_absent(s.members, id);
            }
        },
        Event::Leave { id } => {
            lemma_all_but_members(s.members, id);
        },
        Event::Round => {},
        Event::Shutdown => {},
    }
}

proof fn lemma_same_before_last(s: RelayView, events: Seq<Event>, j: int, c: ClientId)
    requires
        0 <= j < events.len() - 1,
    ensures
        starts_at(s, events, j, c) == starts_at(s, events.drop_last(), j, c),
        stops_at(s, events, j, c) == stops_at(s, events.drop_last(), j, c),
{
    assert(events.drop_last().take(j) =~= events.take(j));
}

proof fn lemma_lives_since_last(s: RelayView, events: Seq<Event>, c: ClientId)
    requires
        events.len() > 0,
    ensures
        lives_since(s, events, events.len() - 1, c) <==> reader_starts(
            run(s, events.drop_last()),
            events.last(),
            c,
        ),
{
    assert(events.take(events.len() - 1) =~= events.drop_last());
}

proof fn lemma_lives_since_earlier(s: RelayView, events: Seq<Event>, i: int, c: ClientId)
    requires
        events.len() > 0,
        0 <= i < events.len() - 1,
    ensures
        lives_since(s, events, i, c) <==> lives_since(s, events.drop_last(), i, c) && !reader_stops(
            run(s, events.drop_last()),
            events.last(),
            c,
        ),
{
    let front = events.drop_last();
    let n = front.len() as int;
    assert(events.take(n) =~= front);
    assert(stops_at(s, events, n, c) == reader_stops(run(s, front), events.last(), c));
    lemma_same_before_last(s, events, i, c);
    if lives_since(s, events, i, c) {
        assert forall|j: int| i < j < front.len() implies !#[trigger] stops_at(s, front, j, c) by {
            lemma_same_before_last(s, events, j, c);
        }
    }
    if lives_since(s, front, i, c) && !reader_stops(run(s, front), events.last(), c) {
        assert forall|j: int| i < j < events.len() implies !#[trigger] stops_at(s, events, j, c) by {
            if j < n {
                lemma_same_before_last(s, events, j, c);
            }
        }
    }
}

/// From a relay to which nothing has happened yet: a client is registered
/// after a sequence of events exactly if one of them started its reader and
/// none after that ended it.
pub proof fn law_registered_exactly_while_alive(framing: Framing, events: Seq<Event>, c: ClientId)
    ensures
        run(initial(framing), events).members.contains(c) <==> exists|i: int|
            0 <= i < events.len() && lives_since(initial(framing), events, i, c),
    decreases events.len(),
{
    let s = initial(framing);
    if events.len() == 0 {
        assert(!run(s, events).members.contains(c));
    } else {
        let front = events.drop_last();
        let last = events.last();
        let n = front.len() as int;
        let mid = run(s, front);
        law_registered_exactly_while_alive(framing, front, c);
        law_entries_unique(s, front);
        law_registered_while_reader_lives(mid, last, c);
        lemma_lives_since_last(s, events, c);
        assert(run(s, events) == step(mid, last));
        if run(s, events).members.contains(c) {
            if !reader_starts(mid, last, c) {
                let i = choose|i: int| 0 <= i < front.len() && lives_since(s, front, i, c);
                lemma_lives_since_earlier(s, events, i, c);
            }
        }
        if exists|i: int| 0 <= i < events.len() && lives_since(s, events, i, c) {
            let i = choose|i: int| 0 <= i < events.len() && lives_since(s, events, i, c);
            if i < n {
                lemma_lives_since_earlier(s, events, i, c);
            }
        }
    }
}

/// A round goes to every registered client but the sender of its envelope,
/// to each of them once, and never to the sender.
pub proof fn law_everyone_but_the_sender(s: RelayView, c: ClientId)
    requires
        coherent(s),
        s.pending.len() > 0,
    ensures
        round_recipients(s).contains(c) <==> s.members.contains(c) && c != s.pending[0].sender,
        round_recipients(s).no_duplicates(),
{
    lemma_all_but_members(s.members, s.pending[0].sender);
}

/// Where no client is registered, a message is a no-op: a read is refused
/// and changes nothing, and a round goes to nobody.
pub proof fn law_no_clients_no_delivery(s: RelayView, id: ClientId, buf: Seq<u8>, outcome: ReadOutcome)
    requires
        s.members.len() == 0,
    ensures
        read_verdict(s, id, buf, outcome) == Err::<(), Disconnect>(Disconnect::NotRegistered),
        after_read(s, id, buf, outcome) == s,
        round_recipients(s).len() == 0,
{
    lemma_all_but_absent(s.members, id);
    if s.pending.len() > 0 {
        lemma_all_but_absent(s.members, s.pending[0].sender);
    }
}

/// The queue keeps the order of arrival: what the broadcaster has taken,
/// followed by what still waits, is what waited at the start followed by what
/// the readers put in since, each in its order.
pub proof fn law_queue_order(s: RelayView, events: Seq<Event>)
    ensures
        handled(s, events) + run(s, events).pending == s.pending + accepted(s, events),
    decreases events.len(),
{
    if events.len() == 0 {
        assert(handled(s, events) + run(s, events).pending =~= s.pending + accepted(s, events));
    } else {
        let front = events.drop_last();
        let mid = run(s, front);
        law_queue_order(s, front);
        assert(handled(s, front) + mid.pending == s.pending + accepted(s, front));
        let taken = handled_by(mid, events.last());
        let put = accepted_by(mid, events.last());
        assert(taken + run(s, events).pending =~= mid.pending + put);
        assert(handled(s, events) + run(s, events).pending =~= (handled(s, front) + mid.pending)
            + put);
        assert(s.pending + accepted(s, events) =~= (s.pending + accepted(s, front)) + put);
    }
}

/// Rounds and nothing else take the oldest envelopes in their order and leave
/// everything else as it is.
pub proof fn lemma_rounds_take_the_oldest(s: RelayView, n: nat)
    requires
        n <= s.pending.len(),
    ensures
        run(s, rounds(n)) == (RelayView { pending: s.pending.skip(n as int), ..s }),
        handled(s, rounds(n)) == s.pending.take(n as int),
    decreases n,
{
    if n == 0 {
        assert(s.pending.skip(0) =~= s.pending);
        assert(handled(s, rounds(n)) =~= s.pending.take(0));
    } else {
        let before = (n - 1) as nat;
        lemma_rounds_take_the_oldest(s, before);
        assert(rounds(n).drop_last() =~= rounds(before));
        assert(rounds(n).last() == Event::Round);
        let mid = run(s, rounds(before));
        assert(mid.pending.drop_first() =~= s.pending.skip(n as int));
        assert(mid.pending[0] == s.pending[before as int]);
        assert(s.pending.take(before as int) + seq![mid.pending[0]] =~= s.pending.take(n as int));
    }
}

/// Two messages of one client, read one after the other while `k` envelopes
/// wait, leave the queue in the order in which they were read: once the `k`
/// older envelopes are handed out, the next round carries the first message
/// and the round after it the second, each to every client but the sender.
pub proof fn law_sender_order_kept(
    s: RelayView,
    a: ClientId,
    buf1: Seq<u8>,
    outcome1: ReadOutcome,
    buf2: Seq<u8>,
    outcome2: ReadOutcome,
)
    requires
        read_verdict(s, a, buf1, outcome1).is_ok(),
        read_verdict(after_read(s, a, buf1, outcome1), a, buf2, outcome2).is_ok(),
    ensures
        ({
            let first = message_of(s, a, buf1, outcome1);
            let second = message_of(s, a, buf2, outcome2);
            let both = after_read(after_read(s, a, buf1, outcome1), a, buf2, outcome2);
            let k = s.pending.len();
            &&& both.pending == s.pending.push(first).push(second)
            &&& run(both, rounds(k)).pending == seq![first, second]
            &&& round_recipients(run(both, rounds(k))) == all_but(s.members, a)
            &&& run(both, rounds(k + 1)).pending == seq![second]
            &&& round_recipients(run(both, rounds(k + 1))) == all_but(s.members, a)
        }),
{
    let first = message_of(s, a, buf1, outcome1);
    let second = message_of(s, a, buf2, outcome2);
    let both = after_read(after_read(s, a, buf1, outcome1), a, buf2, outcome2);
    let k = s.pending.len();
    assert(both.pending == s.pending.push(first).push(second));
    lemma_rounds_take_the_oldest(both, k);
    lemma_rounds_take_the_oldest(both, k + 1);
    assert(both.pending.skip(k as int) =~= seq![first, second]);
    assert(both.pending.skip(k as int + 1) =~= seq![second]);
}

proof fn lemma_payloads_for_push(envelopes: Seq<EnvelopeView>, envelope: EnvelopeView, c: ClientId)
    ensures
        payloads_for(envelopes.push(envelope), c) == if envelope.sender != c {
            payloads_for(envelopes, c).push(envelope.payload)
        } else {
            payloads_for(envelopes, c)
        },
{
    reveal(Seq::filter);
    assert(envelopes.push(envelope).drop_last() =~= envelopes);
    let kept = envelopes.filter(|e: EnvelopeView| e.sender != c);
    if envelope.sender != c {
        assert(kept.push(envelope).map_values(|e: EnvelopeView| e.payload) =~= kept.map_values(
            |e: EnvelopeView| e.payload,
        ).push(envelope.payload));
    }
}

proof fn lemma_issued_grows(s: RelayView, events: Seq<Event>)
    ensures
        s.issued <= run(s, events).issued,
    decreases events.len(),
{
    if events.len() > 0 {
        lemma_issued_grows(s, events.drop_last());
    }
}

/// An identifier that was given out and is no longer registered is not
/// registered again, whatever happens. Identifiers are not used twice.
pub proof fn law_identifiers_not_reused(s: RelayView, events: Seq<Event>, c: ClientId)
    requires
        coherent(s),
        c.0 < s.issued,
        !s.members.contains(c),
    ensures
        !run(s, events).members.contains(c),
        c.0 < run(s, events).issued,
    decreases events.len(),
{
    if events.len() > 0 {
        let mid = run(s, events.drop_last());
        law_identifiers_not_reused(s, events.drop_last(), c);
        law_entries_unique(s, events.drop_last());
        law_registered_while_reader_lives(mid, events.last(), c);
    }
}

/// A client that is registered from the first to the last of a sequence of
/// events is handed the payload of every envelope that the broadcaster took
/// meanwhile and that it did not send itself: each of them once, in the order
/// in which the broadcaster took them.
pub proof fn law_inbox_in_queue_order(s: RelayView, events: Seq<Event>, c: ClientId)
    requires
        coherent(s),
        s.members.contains(c),
        run(s, events).members.contains(c),
    ensures
        inbox(s, events, c) == payloads_for(handled(s, events), c),
    decreases events.len(),
{
    if events.len() == 0 {
        reveal(Seq::filter);
        assert(inbox(s, events, c) =~= payloads_for(handled(s, events), c));
    } else {
        let front = events.drop_last();
        let last = events.last();
        let mid = run(s, front);
        law_entries_unique(s, front);
        if !mid.members.contains(c) {
            let at = choose|i: int| 0 <= i < s.members.len() && s.members[i] == c;
            assert(s.members[at].0 < s.issued);
            lemma_issued_grows(s, front);
            law_registered_while_reader_lives(mid, last, c);
        }
        law_inbox_in_queue_order(s, front, c);
        if last is Round && mid.pending.len() > 0 {
            law_everyone_but_the_sender(mid, c);
            lemma_payloads_for_push(handled(s, front), mid.pending[0], c);
            assert(handled(s, front) + seq![mid.pending[0]] =~= handled(s, front).push(
                mid.pending[0],
            ));
            assert(inbox(s, front, c) + seq![mid.pending[0].payload] =~= inbox(s, front, c).push(
                mid.pending[0].payload,
            ));
        }
        assert(handled(s, front) + Seq::<EnvelopeView>::empty() =~= handled(s, front));
        assert(inbox(s, front, c) + Seq::<Seq<u8>>::empty() =~= inbox(s, front, c));
    }
}

/// A read that fills a buffer of exactly the largest size is taken whole:
/// every byte of it, none cut off.
pub proof fn law_full_buffer_taken_whole(buf: Seq<u8>)
    requires
        buf.len() == MAX_PAYLOAD,
    ensures
        framed(Framing::Verbatim, buf, ReadOutcome::Received(MAX_PAYLOAD)) == Ok::<
            Seq<u8>,
            Disconnect,
        >(buf),
{
    assert(buf.subrange(0, MAX_PAYLOAD as int) =~= buf);
}

/// What one read gives depends on the bytes of that read alone. Whatever an
/// earlier, longer message left behind them in the buffer changes nothing.
pub proof fn law_payload_ignores_stale_bytes(
    framing: Framing,
    buf: Seq<u8>,
    other: Seq<u8>,
    n: usize,
)
    requires
        n <= buf.len(),
        n <= other.len(),
        buf.take(n as int) == other.take(n as int),
    ensures
        framed(framing, buf, ReadOutcome::Received(n)) == framed(
            framing,
            other,
            ReadOutcome::Received(n),
        ),
{
    assert(buf.subrange(0, n as int) == buf.take(n as int));
    assert(other.subrange(0, n as int) == other.take(n as int));
}

} // verus!
