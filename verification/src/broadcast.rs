//! The broadcaster's work on one envelope: hand the payload to every
//! registered client but the sender.

use vstd::prelude::*;
use crate::envelope::{ClientId, Envelope};
use crate::registry::{Registry, distinct, ids_of, lemma_without_members, without};

verus! {

/// The outcome of writing one message to one recipient.
#[derive(Clone, Copy, Debug, PartialEq, Eq, Structural)]
pub struct Delivery {
    /// The client written to.
    pub recipient: ClientId,
    /// Whether the write succeeded. A failed write is not tried again.
    pub delivered: bool,
}

/// `report` holds exactly one attempt for each of `targets`, in their order,
/// each with an outcome that `write` can give for that target's handle and
/// `envelope`.
pub open spec fn attempted<H, W: Fn(&H, &Envelope) -> bool>(
    report: Seq<Delivery>,
    targets: Seq<(ClientId, H)>,
    envelope: Envelope,
    write: W,
) -> bool {
    &&& report.len() == targets.len()
    &&& forall|k: int|
        0 <= k < report.len() ==> {
            &&& (#[trigger] report[k]).recipient == targets[k].0
            &&& call_ensures(write, (&targets[k].1, &envelope), report[k].delivered)
        }
}

/// `write` may be called on the handle of each of `targets` with `envelope`.
pub open spec fn writable<H, W: Fn(&H, &Envelope) -> bool>(
    targets: Seq<(ClientId, H)>,
    envelope: Envelope,
    write: W,
) -> bool {
    forall|k: int| 0 <= k < targets.len() ==> call_requires(write, (&(#[trigger] targets[k]).1, &envelope))
}

/// Writes `envelope` to every client of `registry` but its sender, oldest
/// registration first, and reports each attempt. A write that fails stops
/// nothing: the clients behind it are still written to.
pub fn fan_out<H, W: Fn(&H, &Envelope) -> bool>(
    registry: &Registry<H>,
    envelope: &Envelope,
    write: W,
) -> (report: Vec<Delivery>)
    requires
        writable(without(registry@, envelope@.sender), *envelope, write),
    ensures
        attempted(report@, without(registry@, envelope@.sender), *envelope, write),
{
    let sender = envelope.sender();
    let ghost may_write = |handle: H| call_requires(write, (&handle, envelope));
    let ghost can_give = |handle: H, delivered: bool|
        call_ensures(write, (&handle, envelope), delivered);
    let attempt = |id: ClientId, handle: &H| -> (delivery: Delivery)
        requires
            may_write(*handle),
        ensures
            delivery.recipient == id,
            can_give(*handle, delivery.delivered),
        { Delivery { recipient: id, delivered: write(handle, envelope) } };
    registry.for_each_except(sender, attempt)
}

/// One round of the broadcaster, fixed at the moment it was planned: the
/// envelope and a copy of the entry of every client it goes to. The sender is
/// never among them. Clients registered or removed after the planning change
/// nothing in it.
pub struct Round<H> {
    envelope: Envelope,
    targets: Vec<(ClientId, H)>,
}

/// No entry of `targets` belongs to `sender`.
pub open spec fn excludes<H>(targets: Seq<(ClientId, H)>, sender: ClientId) -> bool {
    forall|k: int| 0 <= k < targets.len() ==> (#[trigger] targets[k]).0 != sender
}

/// `targets` holds a copy of each of `entries`, in their order.
pub open spec fn copies_of<H: Clone>(targets: Seq<(ClientId, H)>, entries: Seq<(ClientId, H)>) -> bool {
    &&& targets.len() == entries.len()
    &&& forall|k: int|
        0 <= k < targets.len() ==> {
            &&& (#[trigger] targets[k]).0 == entries[k].0
            &&& cloned(entries[k].1, targets[k].1)
        }
}

impl<H> Round<H> {
    #[verifier::type_invariant]
    spec fn inv(self) -> bool {
        &&& distinct(self.targets@)
        &&& excludes(self.targets@, self.envelope@.sender)
    }

    /// The envelope of this round.
    pub closed spec fn message(&self) -> Envelope {
        self.envelope
    }

    /// The clients this round goes to, each with its handle.
    pub closed spec fn targets(&self) -> Seq<(ClientId, H)> {
        self.targets@
    }

    /// The envelope of this round.
    pub fn envelope(&self) -> (envelope: &Envelope)
        ensures
            *envelope == self.message(),
    {
        &self.envelope
    }

    /// How many clients this round goes to.
    pub fn len(&self) -> (n: usize)
        ensures
            n == self.targets().len(),
    {
        self.targets.len()
    }

    /// The clients this round goes to, in its order. The sender is not among
    /// them, and none stands there twice.
    pub fn recipients(&self) -> (list: Vec<ClientId>)
        ensures
            list@ == ids_of(self.targets()),
            distinct(self.targets()),
            excludes(self.targets(), self.message()@.sender),
    {
        proof {
            use_type_invariant(self);
        }
        let mut list: Vec<ClientId> = Vec::new();
        let mut i: usize = 0;
        while i < self.targets.len()
            invariant
                i <= self.targets@.len(),
                list@ == ids_of(self.targets()).take(i as int),
            decreases self.targets@.len() - i,
        {
            list.push(self.targets[i].0);
            assert(list@ =~= ids_of(self.targets()).take(i + 1));
            i += 1;
        }
        assert(list@ =~= ids_of(self.targets()));
        list
    }

    /// Writes the envelope to every client of the round, in its order, and
    /// reports each attempt. A write that fails stops nothing: the clients
    /// behind it are still written to. No client is written to twice, and the
    /// sender not at all.
    pub fn deliver<W: Fn(&H, &Envelope) -> bool>(&self, write: W) -> (report: Vec<Delivery>)
        requires
            writable(self.targets(), self.message(), write),
        ensures
            attempted(report@, self.targets(), self.message(), write),
            distinct(self.targets()),
            excludes(self.targets(), self.message()@.sender),
    {
        proof {
            use_type_invariant(self);
        }
        let mut report: Vec<Delivery> = Vec::new();
        let mut i: usize = 0;
        while i < self.targets.len()
            invariant
                i <= self.targets@.len(),
                writable(self.targets(), self.message(), write),
                attempted(report@, self.targets().take(i as int), self.message(), write),
            decreases self.targets@.len() - i,
        {
            let target = &self.targets[i];
            assert(self.targets()[i as int] == *target);
            let delivered = write(&target.1, &self.envelope);
            report.push(Delivery { recipient: target.0, delivered });
            i += 1;
        }
        assert(self.targets().take(i as int) =~= self.targets());
        report
    }
}

/// Plans the round for `envelope`: fixes, as of now, the clients of `registry`
/// that it goes to, which are all but its sender, oldest registration first.
pub fn plan<H: Clone>(registry: &Registry<H>, envelope: Envelope) -> (round: Round<H>)
    requires
        registry.wf(),
    ensures
        round.message() == envelope,
        copies_of(round.targets(), without(registry@, envelope@.sender)),
        distinct(round.targets()),
        excludes(round.targets(), envelope@.sender),
{
    let targets = registry.snapshot_except(envelope.sender());
    proof {
        lemma_without_members(registry@, envelope@.sender);
        let kept = without(registry@, envelope@.sender);
        assert forall|k: int| 0 <= k < targets@.len() implies (#[trigger] targets@[k]).0
            != envelope@.sender by {
            assert(kept[k].0 == targets@[k].0);
        }
        assert forall|i: int, j: int|
            0 <= i < targets@.len() && 0 <= j < targets@.len() && i != j implies targets@[i].0
            != targets@[j].0 by {
            assert(kept[i].0 == targets@[i].0 && kept[j].0 == targets@[j].0);
        }
    }
    Round { envelope, targets }
}

} // verus!
