//! The client registry: which clients are live, and the handle to write to
//! each of them.

use vstd::prelude::*;
use crate::envelope::ClientId;

verus! {

/// The identifiers of `entries`, in the same order.
pub open spec fn ids_of<H>(entries: Seq<(ClientId, H)>) -> Seq<ClientId> {
    entries.map_values(|entry: (ClientId, H)| entry.0)
}

/// No identifier stands in `entries` twice.
pub open spec fn distinct<H>(entries: Seq<(ClientId, H)>) -> bool {
    forall|i: int, j: int|
        0 <= i < entries.len() && 0 <= j < entries.len() && i != j ==> entries[i].0 != entries[j].0
}

/// Some entry of `entries` belongs to `id`.
pub open spec fn registered<H>(entries: Seq<(ClientId, H)>, id: ClientId) -> bool {
    exists|i: int| 0 <= i < entries.len() && entries[i].0 == id
}

/// `entries` without the entry of `id`, the others in their order.
pub open spec fn without<H>(entries: Seq<(ClientId, H)>, id: ClientId) -> Seq<(ClientId, H)> {
    entries.filter(|entry: (ClientId, H)| entry.0 != id)
}

/// `ids` without `id`, the others in their order.
pub open spec fn all_but(ids: Seq<ClientId>, id: ClientId) -> Seq<ClientId> {
    ids.filter(|other: ClientId| other != id)
}

/// An identifier has an entry exactly if it is among the identifiers.
pub proof fn lemma_registered_ids<H>(entries: Seq<(ClientId, H)>, id: ClientId)
    ensures
        registered(entries, id) <==> ids_of(entries).contains(id),
{
    if registered(entries, id) {
        let at = choose|i: int| 0 <= i < entries.len() && entries[i].0 == id;
        assert(ids_of(entries)[at] == id);
    }
    if ids_of(entries).contains(id) {
        let at = choose|i: int| 0 <= i < ids_of(entries).len() && ids_of(entries)[i] == id;
        assert(entries[at].0 == id);
    }
}

/// No identifier has two entries exactly if the identifiers hold none twice.
pub proof fn lemma_distinct_ids<H>(entries: Seq<(ClientId, H)>)
    ensures
        distinct(entries) <==> ids_of(entries).no_duplicates(),
{
    let ids = ids_of(entries);
    if distinct(entries) {
        assert forall|i: int, j: int| 0 <= i < ids.len() && 0 <= j < ids.len() && i != j implies ids[i]
            != ids[j] by {
            assert(ids[i] == entries[i].0 && ids[j] == entries[j].0);
        }
    }
    if ids.no_duplicates() {
        assert forall|i: int, j: int|
            0 <= i < entries.len() && 0 <= j < entries.len() && i != j implies entries[i].0
            != entries[j].0 by {
            assert(ids[i] == entries[i].0 && ids[j] == entries[j].0);
        }
    }
}

/// The identifiers left after taking out the entry of `id` are the
/// identifiers without `id`.
pub proof fn lemma_ids_without<H>(entries: Seq<(ClientId, H)>, id: ClientId)
    ensures
        ids_of(without(entries, id)) == all_but(ids_of(entries), id),
    decreases entries.len(),
{
    reveal(Seq::filter);
    if entries.len() == 0 {
        assert(ids_of(without(entries, id)) =~= all_but(ids_of(entries), id));
    } else {
        let front = entries.drop_last();
        let last = entries.last();
        lemma_ids_without(front, id);
        assert(ids_of(entries).drop_last() =~= ids_of(front));
        assert(ids_of(entries).last() == last.0);
        if last.0 != id {
            assert(ids_of(without(front, id).push(last)) =~= ids_of(without(front, id)).push(
                last.0,
            ));
        }
    }
}

/// Taking out `id` after adding one more entry: the new entry stays unless it
/// is that of `id`.
pub proof fn lemma_without_push<H>(entries: Seq<(ClientId, H)>, entry: (ClientId, H), id: ClientId)
    ensures
        without(entries.push(entry), id) == if entry.0 != id {
            without(entries, id).push(entry)
        } else {
            without(entries, id)
        },
{
    reveal(Seq::filter);
    assert(entries.push(entry).drop_last() =~= entries);
}

/// Taking out `id` from the first `n` entries gives the front of what taking
/// it out from all of them gives.
pub proof fn lemma_without_prefix<H>(entries: Seq<(ClientId, H)>, id: ClientId, n: int)
    requires
        0 <= n <= entries.len(),
    ensures
        without(entries.take(n), id).len() <= without(entries, id).len(),
        without(entries.take(n), id) == without(entries, id).take(
            without(entries.take(n), id).len() as int,
        ),
    decreases entries.len() - n,
{
    if n == entries.len() {
        assert(entries.take(n) =~= entries);
        assert(without(entries, id).take(without(entries, id).len() as int) =~= without(
            entries,
            id,
        ));
    } else {
        lemma_without_prefix(entries, id, n + 1);
        assert(entries.take(n + 1) =~= entries.take(n).push(entries[n]));
        lemma_without_push(entries.take(n), entries[n], id);
        let shorter = without(entries.take(n), id);
        let longer = without(entries.take(n + 1), id);
        assert(shorter =~= longer.take(shorter.len() as int));
        assert(shorter =~= without(entries, id).take(shorter.len() as int));
    }
}

/// Removing an identifier that has no entry changes nothing.
pub proof fn lemma_without_absent<H>(entries: Seq<(ClientId, H)>, id: ClientId)
    requires
        !registered(entries, id),
    ensures
        without(entries, id) == entries,
    decreases entries.len(),
{
    reveal(Seq::filter);
    if entries.len() > 0 {
        let front = entries.drop_last();
        assert forall|i: int| 0 <= i < front.len() implies front[i].0 != id by {
            assert(front[i] == entries[i]);
        }
        lemma_without_absent(front, id);
        assert(entries.last() == entries[entries.len() - 1]);
        assert(front.push(entries.last()) =~= entries);
    } else {
        assert(without(entries, id) =~= entries);
    }
}

/// Where no identifier stands twice, taking out the one entry of `id` leaves
/// exactly the entries of the others.
pub proof fn lemma_without_present<H>(entries: Seq<(ClientId, H)>, id: ClientId, at: int)
    requires
        distinct(entries),
        0 <= at < entries.len(),
        entries[at].0 == id,
    ensures
        without(entries, id) == entries.remove(at),
    decreases entries.len(),
{
    reveal(Seq::filter);
    let front = entries.drop_last();
    if at == entries.len() - 1 {
        assert forall|i: int| 0 <= i < front.len() implies front[i].0 != id by {
            assert(front[i] == entries[i]);
        }
        lemma_without_absent(front, id);
        assert(entries.remove(at) =~= front);
    } else {
        assert(distinct(front)) by {
            assert forall|i: int, j: int|
                0 <= i < front.len() && 0 <= j < front.len() && i != j implies front[i].0
                != front[j].0 by {
                assert(front[i] == entries[i] && front[j] == entries[j]);
            }
        }
        assert(front[at] == entries[at]);
        lemma_without_present(front, id, at);
        assert(entries.last() == entries[entries.len() - 1]);
        assert(entries.last().0 != id);
        assert(front.remove(at).push(entries.last()) =~= entries.remove(at));
    }
}

/// What is left after taking out `id` holds no identifier twice and nothing
/// of `id`; every other client stays registered.
pub proof fn lemma_without_members<H>(entries: Seq<(ClientId, H)>, id: ClientId)
    requires
        distinct(entries),
    ensures
        distinct(without(entries, id)),
        !registered(without(entries, id), id),
        forall|other: ClientId|
            other != id ==> (registered(without(entries, id), other) <==> registered(
                entries,
                other,
            )),
{
    if registered(entries, id) {
        let at = choose|i: int| 0 <= i < entries.len() && entries[i].0 == id;
        lemma_without_present(entries, id, at);
        let rest = entries.remove(at);
        assert forall|i: int| 0 <= i < rest.len() implies rest[i] == entries[if i < at {
            i
        } else {
            i + 1
        }] by {}
        assert forall|other: ClientId| other != id implies (registered(rest, other) <==> registered(
            entries,
            other,
        )) by {
            if registered(entries, other) {
                let k = choose|k: int| 0 <= k < entries.len() && entries[k].0 == other;
                let moved = if k < at {
                    k
                } else {
                    k - 1
                };
                assert(rest[moved] == entries[k]);
            }
            if registered(rest, other) {
                let k = choose|k: int| 0 <= k < rest.len() && rest[k].0 == other;
                let origin = if k < at {
                    k
                } else {
                    k + 1
                };
                assert(rest[k] == entries[origin]);
            }
        }
    } else {
        lemma_without_absent(entries, id);
    }
}

/// Among identifiers that hold none twice, taking out `id` leaves none twice
/// and nothing of `id`; every other identifier stays.
pub proof fn lemma_all_but_members(ids: Seq<ClientId>, id: ClientId)
    requires
        ids.no_duplicates(),
    ensures
        all_but(ids, id).no_duplicates(),
        !all_but(ids, id).contains(id),
        forall|other: ClientId|
            all_but(ids, id).contains(other) <==> ids.contains(other) && other != id,
{
    let entries = ids.map_values(|c: ClientId| (c, ()));
    assert(ids_of(entries) =~= ids);
    lemma_distinct_ids(entries);
    lemma_without_members(entries, id);
    lemma_ids_without(entries, id);
    lemma_distinct_ids(without(entries, id));
    lemma_registered_ids(without(entries, id), id);
    assert forall|other: ClientId|
        all_but(ids, id).contains(other) <==> ids.contains(other) && other != id by {
        lemma_registered_ids(without(entries, id), other);
        lemma_registered_ids(entries, other);
    }
}

/// Taking out an identifier that is not among `ids` changes nothing.
pub proof fn lemma_all_but_absent(ids: Seq<ClientId>, id: ClientId)
    requires
        !ids.contains(id),
    ensures
        all_but(ids, id) == ids,
{
    let entries = ids.map_values(|c: ClientId| (c, ()));
    assert(ids_of(entries) =~= ids);
    lemma_registered_ids(entries, id);
    lemma_without_absent(entries, id);
    lemma_ids_without(entries, id);
}

struct Entry<H> {
    id: ClientId,
    handle: H,
}

/// The live clients, each with the handle that reaches it, in the order in
/// which they were registered. No identifier is registered twice.
pub struct Registry<H> {
    entries: Vec<Entry<H>>,
}

impl<H> View for Registry<H> {
    type V = Seq<(ClientId, H)>;

    closed spec fn view(&self) -> Seq<(ClientId, H)> {
        Seq::new(self.entries@.len(), |i: int| (self.entries@[i].id, self.entries@[i].handle))
    }
}

impl<H> Registry<H> {
    /// The registry's invariant: no identifier is registered twice.
    pub open spec fn wf(&self) -> bool {
        distinct(self@)
    }

    /// The registered identifiers, oldest registration first.
    pub open spec fn ids(&self) -> Seq<ClientId> {
        ids_of(self@)
    }

    /// A registry without clients.
    pub fn new() -> (registry: Registry<H>)
        ensures
            registry.wf(),
            registry@ == Seq::<(ClientId, H)>::empty(),
    {
        let registry = Registry { entries: Vec::new() };
        assert(registry@ =~= Seq::<(ClientId, H)>::empty());
        registry
    }

    /// How many clients are registered.
    pub fn len(&self) -> (n: usize)
        ensures
            n == self@.len(),
    {
        self.entries.len()
    }

    /// Whether no client is registered.
    pub fn is_empty(&self) -> (empty: bool)
        ensures
            empty == (self@.len() == 0),
    {
        self.entries.len() == 0
    }

    /// Where `id`'s entry stands, if it has one.
    fn position(&self, id: ClientId) -> (at: Option<usize>)
        ensures
            match at {
                Some(i) => i < self@.len() && self@[i as int].0 == id,
                None => !registered(self@, id),
            },
    {
        let mut i: usize = 0;
        while i < self.entries.len()
            invariant
                i <= self.entries@.len(),
                forall|k: int| 0 <= k < i ==> (#[trigger] self@[k]).0 != id,
            decreases self.entries@.len() - i,
        {
            if self.entries[i].id == id {
                return Some(i);
            }
            i += 1;
        }
        None
    }

    /// Whether `id` is registered.
    pub fn contains(&self, id: ClientId) -> (found: bool)
        ensures
            found == registered(self@, id),
    {
        self.position(id).is_some()
    }

    /// Registers `id` with `handle` behind the clients already there. An
    /// identifier that is still registered is refused, and nothing changes.
    pub fn insert(&mut self, id: ClientId, handle: H) -> (inserted: bool)
        requires
            old(self).wf(),
        ensures
            final(self).wf(),
            inserted == !registered(old(self)@, id),
            inserted ==> final(self)@ == old(self)@.push((id, handle)),
            !inserted ==> final(self)@ == old(self)@,
    {
        if self.position(id).is_some() {
            return false;
        }
        self.entries.push(Entry { id, handle });
        assert(self@ =~= old(self)@.push((id, handle)));
        true
    }

    /// Takes `id` out of the registry and hands back its handle, or `None`
    /// where `id` was not registered. The other entries keep their order.
    pub fn remove(&mut self, id: ClientId) -> (removed: Option<H>)
        requires
            old(self).wf(),
        ensures
            final(self).wf(),
            final(self)@ == without(old(self)@, id),
            match removed {
                Some(handle) => old(self)@.contains((id, handle)),
                None => !registered(old(self)@, id),
            },
    {
        proof {
            lemma_without_members(self@, id);
        }
        match self.position(id) {
            Some(at) => {
                proof {
                    lemma_without_present(self@, id, at as int);
                }
                let entry = self.entries.remove(at);
                assert(self@ =~= old(self)@.remove(at as int));
                assert(old(self)@[at as int] == (id, entry.handle));
                Some(entry.handle)
            },
            None => {
                proof {
                    lemma_without_absent(self@, id);
                }
                None
            },
        }
    }

    /// The handle registered for `id`, if there is one.
    pub fn get(&self, id: ClientId) -> (found: Option<&H>)
        ensures
            match found {
                Some(handle) => self@.contains((id, *handle)),
                None => !registered(self@, id),
            },
    {
        match self.position(id) {
            Some(at) => {
                assert(self@[at as int] == (id, self.entries@[at as int].handle));
                Some(&self.entries[at].handle)
            },
            None => None,
        }
    }

    /// The registered identifiers, oldest registration first.
    pub fn client_ids(&self) -> (list: Vec<ClientId>)
        ensures
            list@ == self.ids(),
    {
        let mut list: Vec<ClientId> = Vec::new();
        let mut i: usize = 0;
        while i < self.entries.len()
            invariant
                i <= self.entries@.len(),
                list@ == self.ids().take(i as int),
            decreases self.entries@.len() - i,
        {
            list.push(self.entries[i].id);
            assert(list@ =~= self.ids().take(i + 1));
            i += 1;
        }
        assert(list@ =~= self.ids());
        list
    }

    /// Calls `visit` once on every entry but that of `except`, oldest
    /// registration first, and returns what the calls gave, in that order. No
    /// call is skipped for what an earlier one returned.
    pub fn for_each_except<R, F: Fn(ClientId, &H) -> R>(&self, except: ClientId, visit: F) -> (results:
        Vec<R>)
        requires
            forall|k: int|
                0 <= k < without(self@, except).len() ==> {
                    let entry = #[trigger] without(self@, except)[k];
                    call_requires(visit, (entry.0, &entry.1))
                },
        ensures
            results@.len() == without(self@, except).len(),
            forall|k: int|
                0 <= k < results@.len() ==> {
                    let entry = without(self@, except)[k];
                    call_ensures(visit, (entry.0, &entry.1), #[trigger] results@[k])
                },
    {
        let mut results: Vec<R> = Vec::new();
        let mut i: usize = 0;
        proof {
            reveal(Seq::filter);
            assert(self@.take(0) =~= Seq::<(ClientId, H)>::empty());
        }
        while i < self.entries.len()
            invariant
                i <= self.entries@.len(),
                self@.len() == self.entries@.len(),
                forall|k: int|
                    0 <= k < without(self@, except).len() ==> {
                        let entry = #[trigger] without(self@, except)[k];
                        call_requires(visit, (entry.0, &entry.1))
                    },
                results@.len() == without(self@.take(i as int), except).len(),
                forall|k: int|
                    0 <= k < results@.len() ==> {
                        let entry = without(self@.take(i as int), except)[k];
                        call_ensures(visit, (entry.0, &entry.1), #[trigger] results@[k])
                    },
            decreases self.entries@.len() - i,
        {
            let entry = &self.entries[i];
            proof {
                let seen = self@.take(i as int);
                assert(self@[i as int] == (entry.id, entry.handle));
                assert(self@.take(i + 1) =~= seen.push(self@[i as int]));
                lemma_without_push(seen, self@[i as int], except);
                lemma_without_prefix(self@, except, i + 1);
            }
            if entry.id != except {
                assert(without(self@, except)[results@.len() as int] == self@[i as int]) by {
                    let kept = without(self@.take(i + 1), except);
                    assert(kept[results@.len() as int] == self@[i as int]);
                    assert(kept == without(self@, except).take(kept.len() as int));
                }
                let result = visit(entry.id, &entry.handle);
                results.push(result);
            }
            i += 1;
        }
        assert(self@.take(i as int) =~= self@);
        results
    }

    /// A copy of every entry but that of `except`, oldest registration first.
    /// The copy stays as it is whatever is registered or removed afterwards.
    pub fn snapshot_except(&self, except: ClientId) -> (snapshot: Vec<(ClientId, H)>) where H: Clone
        ensures
            snapshot@.len() == without(self@, except).len(),
            forall|k: int|
                0 <= k < snapshot@.len() ==> {
                    let entry = without(self@, except)[k];
                    &&& (#[trigger] snapshot@[k]).0 == entry.0
                    &&& cloned(entry.1, snapshot@[k].1)
                },
    {
        let copy_entry = |id: ClientId, handle: &H| -> (copy: (ClientId, H))
            ensures
                copy.0 == id,
                cloned(*handle, copy.1),
            { (id, handle.clone()) };
        self.for_each_except(except, copy_entry)
    }
}

} // verus!
