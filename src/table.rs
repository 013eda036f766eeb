//! The connection table: a fixed-capacity, slot-reusing store of
//! connections keyed by small integer identifiers, with the admission rule
//! and the routing of readiness events.
use crate::conn::{lemma_echo_identity, Client, Interest, IoOutcome, ReadStep, WriteStep};
use crate::MAX_CLIENTS;
use slab::Slab;
use vstd::prelude::*;

verus! {

#[verifier::external_type_specification]
#[verifier::external_body]
#[verifier::reject_recursive_types(T)]
pub struct ExSlab<T>(Slab<T>);

/// The occupied entries of a slab, by key.
pub uninterp spec fn slab_entries(s: Slab<Client>) -> Map<usize, Client>;

/// How many slots a slab has ever opened; every key it hands out is below it.
pub uninterp spec fn slab_slots(s: Slab<Client>) -> nat;

/// Relies on slab::Slab::with_capacity: a new slab holds no entry and has
/// opened no slot.
#[verifier::external_body]
fn slab_with_capacity(capacity: usize) -> (r: Slab<Client>)
    requires
        capacity <= MAX_CLIENTS,
    ensures
        slab_entries(r).dom() == Set::<usize>::empty(),
        slab_slots(r) == 0,
{
    Slab::with_capacity(capacity)
}

/// Relies on slab::Slab::len: the number of occupied entries.
#[verifier::external_body]
fn slab_len(s: &Slab<Client>) -> (r: usize)
    ensures
        r == slab_entries(*s).len(),
{
    s.len()
}

/// Relies on slab::Slab::get: the entry under `key`, if it is occupied.
#[verifier::external_body]
fn slab_get(s: &Slab<Client>, key: usize) -> (r: Option<&Client>)
    ensures
        r == if slab_entries(*s).contains_key(key) {
            Some(&slab_entries(*s)[key])
        } else {
            None
        },
{
    s.get(key)
}

/// Relies on slab::Slab::get_mut: a mutable borrow of the entry under
/// `key`, if it is occupied; what is written through it lands in the slab.
#[verifier::external_body]
fn slab_get_mut(s: &mut Slab<Client>, key: usize) -> (r: Option<&mut Client>)
    ensures
        slab_slots(*final(s)) == slab_slots(*old(s)),
        slab_entries(*old(s)).contains_key(key) ==> r is Some && *r.unwrap()
            == slab_entries(*old(s))[key] && slab_entries(*final(s)) == slab_entries(
            *old(s),
        ).insert(key, *final(r.unwrap())),
        !slab_entries(*old(s)).contains_key(key) ==> r is None && *final(s) == *old(s),
{
    s.get_mut(key)
}

/// Relies on slab::Slab::insert: the value goes under the next vacant key,
/// a slot vacated earlier if there is one, else a newly opened slot. The
/// slab chains all its vacant slots ahead of the end of its slot vector, so
/// a slot is opened only when every open one is occupied. The bound on the
/// slots keeps the length counter and the slot vector far from overflow.
#[verifier::external_body]
fn slab_insert(s: &mut Slab<Client>, val: Client) -> (key: usize)
    requires
        slab_slots(*old(s)) < MAX_CLIENTS,
    ensures
        !slab_entries(*old(s)).contains_key(key),
        slab_entries(*final(s)) == slab_entries(*old(s)).insert(key, val),
        key < slab_slots(*final(s)),
        slab_slots(*final(s)) == slab_slots(*old(s)) + if slab_entries(*old(s)).len()
            == slab_slots(*old(s)) {
            1int
        } else {
            0int
        },
{
    s.insert(val)
}

/// Relies on slab::Slab::remove: takes out the entry under an occupied
/// key; its slot stays open for reuse.
#[verifier::external_body]
fn slab_remove(s: &mut Slab<Client>, key: usize) -> (val: Client)
    requires
        slab_entries(*old(s)).contains_key(key),
    ensures
        val == slab_entries(*old(s))[key],
        slab_entries(*final(s)) == slab_entries(*old(s)).remove(key),
        slab_slots(*final(s)) == slab_slots(*old(s)),
{
    s.remove(key)
}

/// Identifier the listening socket is registered under.
pub const LISTENER_TOKEN: usize = MAX_CLIENTS;

/// Most connections held at once: one slot below `MAX_CLIENTS` is kept as a
/// margin.
pub const MAX_ADMITTED: usize = MAX_CLIENTS - 1;

/// Where a readiness event goes.
#[derive(Clone, Copy, Debug, PartialEq, Eq, Structural)]
pub enum Target {
    /// The listening socket: accept pending connections.
    Listener,
    /// The connection with this identifier: read, then write.
    Connection(usize),
}

/// Routes a readiness event by the identifier it carries.
pub fn route(token: usize) -> (t: Target)
    ensures
        t == if token == LISTENER_TOKEN {
            Target::Listener
        } else {
            Target::Connection(token)
        },
{
    if token == LISTENER_TOKEN {
        Target::Listener
    } else {
        Target::Connection(token)
    }
}

/// How a connection's read/write cycle ends.
#[derive(Clone, Copy, Debug, PartialEq, Eq, Structural)]
pub enum CycleEnd {
    /// The peer closed and everything was written back: the connection was
    /// removed; deregister and drop its socket.
    Release,
    /// Register the socket for this interest, then report the outcome.
    Register(Interest),
    /// The registration already matches.
    Idle,
}

/// The live connections, keyed by identifier.
pub struct ConnTable {
    clients: Slab<Client>,
}

impl ConnTable {
    pub closed spec fn entries(&self) -> Map<usize, Client> {
        slab_entries(self.clients)
    }

    pub closed spec fn wf(&self) -> bool {
        let e = slab_entries(self.clients);
        let slots = slab_slots(self.clients);
        &&& e.dom().finite()
        &&& e.len() <= MAX_ADMITTED
        &&& slots <= MAX_ADMITTED
        &&& forall|k: usize| e.contains_key(k) ==> k < slots
        &&& forall|k: usize| e.contains_key(k) ==> (#[trigger] e[k]).wf()
    }

    /// Every live connection's identifier lies below `MAX_ADMITTED`, so none
    /// is ever the listener's, and every live connection is well formed.
    pub proof fn lemma_ids_in_range(&self)
        requires
            self.wf(),
        ensures
            forall|k: usize| #[trigger]
                self.entries().contains_key(k) ==> k < MAX_ADMITTED && k != LISTENER_TOKEN
                    && self.entries()[k].wf(),
            self.entries().dom().finite(),
            self.entries().len() <= MAX_ADMITTED,
    {
    }

    /// An empty table.
    pub fn new() -> (t: ConnTable)
        ensures
            t.wf(),
            t.entries().dom() == Set::<usize>::empty(),
    {
        ConnTable { clients: slab_with_capacity(MAX_CLIENTS) }
    }

    /// Number of live connections.
    pub fn len(&self) -> (r: usize)
        requires
            self.wf(),
        ensures
            r == self.entries().len(),
    {
        slab_len(&self.clients)
    }

    /// Whether `id` names a live connection.
    pub fn contains(&self, id: usize) -> (r: bool)
        ensures
            r == self.entries().contains_key(id),
    {
        slab_get(&self.clients, id).is_some()
    }

    /// Admission control for a newly accepted connection: below the bound it
    /// gets a fresh entry and its identifier; at the bound it is refused and
    /// the table is left as it was.
    pub fn accept(&mut self) -> (r: Option<usize>)
        requires
            old(self).wf(),
        ensures
            final(self).wf(),
            r matches Some(id) ==> only_touches(*old(self), *final(self), id),
            r is None ==> *final(self) == *old(self),
            r is Some <==> old(self).entries().len() < MAX_ADMITTED,
            match r {
                Some(id) => {
                    &&& id < MAX_ADMITTED
                    &&& !old(self).entries().contains_key(id)
                    &&& final(self).entries().contains_key(id)
                    &&& final(self).entries()[id].is_fresh()
                    &&& final(self).entries() == old(self).entries().insert(
                        id,
                        final(self).entries()[id],
                    )
                },
                None => final(self).entries() == old(self).entries(),
            },
    {
        let n = slab_len(&self.clients);
        if n < MAX_ADMITTED {
            let id = slab_insert(&mut self.clients, Client::new());
            proof {
                let e = slab_entries(self.clients);
                assert(e.dom() =~= old(self).entries().dom().insert(id));
            }
            Some(id)
        } else {
            None
        }
    }

    /// Removes a connection; its identifier becomes free for reuse and its
    /// queued bytes are dropped.
    pub fn remove(&mut self, id: usize)
        requires
            old(self).wf(),
            old(self).entries().contains_key(id),
        ensures
            final(self).wf(),
            only_touches(*old(self), *final(self), id),
            final(self).entries() == old(self).entries().remove(id),
    {
        let _ = slab_remove(&mut self.clients, id);
    }

    /// Hands one read result to connection `id`. A read error removes the
    /// connection at once; an orderly close only marks it closing, so that
    /// what is still queued is written back first. Every other connection is
    /// left untouched.
    pub fn read(&mut self, id: usize, outcome: IoOutcome, buf: &[u8]) -> (step: ReadStep)
        requires
            old(self).wf(),
            old(self).entries().contains_key(id),
            outcome matches IoOutcome::Transferred(n) ==> n <= buf@.len(),
        ensures
            final(self).wf(),
            only_touches(*old(self), *final(self), id),
            step == ReadStep::Failed <==> outcome == IoOutcome::Failed,
            step == ReadStep::Failed ==> final(self).entries() == old(self).entries().remove(id),
            step != ReadStep::Failed ==> final(self).entries().contains_key(id)
                && final(self).entries() == old(self).entries().insert(id, final(self).entries()[id])
                && Client::read_effect(
                old(self).entries()[id],
                final(self).entries()[id],
                outcome,
                buf@,
                step,
            ),
    {
        let ghost pre = self.entries();
        let step = match slab_get_mut(&mut self.clients, id) {
            Some(c) => c.read(outcome, buf),
            None => ReadStep::Failed,
        };
        proof {
            assert(self.entries().dom() =~= pre.dom());
        }
        if step == ReadStep::Failed {
            let _ = slab_remove(&mut self.clients, id);
        }
        step
    }

    /// Whether a readiness event for connection `id` leads to reading: only
    /// when it reports readability and the peer has not closed its side.
    pub fn wants_read(&self, id: usize, readable: bool) -> (r: bool)
        requires
            self.wf(),
            self.entries().contains_key(id),
        ensures
            r == (readable && !self.entries()[id].closing()),
    {
        match slab_get(&self.clients, id) {
            Some(c) => readable && !c.is_closing(),
            None => false,
        }
    }

    /// The bytes connection `id` should offer to its next write.
    pub fn pending_front(&self, id: usize) -> (r: Option<&[u8]>)
        requires
            self.wf(),
            self.entries().contains_key(id),
        ensures
            r is None <==> self.entries()[id].pending().len() == 0,
            r matches Some(b) ==> b@ == self.entries()[id].front() && b@.len() > 0,
            r matches Some(b) ==> b@ == self.entries()[id].pending().take(b@.len() as int),
    {
        match slab_get(&self.clients, id) {
            Some(c) => c.pending_front(),
            None => None,
        }
    }

    /// Hands one write result to connection `id`. A write error removes the
    /// connection; every other connection is left untouched.
    pub fn write(&mut self, id: usize, outcome: IoOutcome) -> (step: WriteStep)
        requires
            old(self).wf(),
            old(self).entries().contains_key(id),
            outcome matches IoOutcome::Transferred(n) ==> n <= old(self).entries()[id].front().len(),
        ensures
            final(self).wf(),
            only_touches(*old(self), *final(self), id),
            step == WriteStep::Failed <==> outcome == IoOutcome::Failed,
            step == WriteStep::Failed ==> final(self).entries() == old(self).entries().remove(id),
            step != WriteStep::Failed ==> final(self).entries().contains_key(id)
                && final(self).entries() == old(self).entries().insert(id, final(self).entries()[id])
                && Client::write_effect(
                old(self).entries()[id],
                final(self).entries()[id],
                outcome,
                step,
            ),
    {
        let ghost pre = self.entries();
        let step = match slab_get_mut(&mut self.clients, id) {
            Some(c) => c.write(outcome),
            None => WriteStep::Failed,
        };
        proof {
            assert(self.entries().dom() =~= pre.dom());
        }
        if step == WriteStep::Failed {
            let _ = slab_remove(&mut self.clients, id);
        }
        step
    }

    /// Ends the read/write cycle of connection `id`. A closing connection
    /// with nothing left to write is released: removed from the table, its
    /// identifier free for reuse. Any other connection stays, and the
    /// registration it needs, if any, is returned.
    pub fn end_cycle(&mut self, id: usize) -> (r: CycleEnd)
        requires
            old(self).wf(),
            old(self).entries().contains_key(id),
        ensures
            final(self).wf(),
            only_touches(*old(self), *final(self), id),
            r == CycleEnd::Release <==> old(self).entries()[id].closing()
                && old(self).entries()[id].pending().len() == 0,
            r == CycleEnd::Release ==> final(self).entries() == old(self).entries().remove(id)
                && old(self).entries()[id].delivered() == old(self).entries()[id].received(),
            r != CycleEnd::Release ==> *final(self) == *old(self) && r == match old(
                self,
            ).entries()[id].interest_change() {
                Some(i) => CycleEnd::Register(i),
                None => CycleEnd::Idle,
            },
    {
        proof {
            self.lemma_ids_in_range();
        }
        let (closing, wanted, empty) = match slab_get(&self.clients, id) {
            Some(c) => (c.is_closing(), c.wanted_interest(), c.pending_front().is_none()),
            None => (false, None, false),
        };
        if closing && empty {
            proof {
                lemma_echo_identity(self.entries()[id]);
            }
            let _ = slab_remove(&mut self.clients, id);
            CycleEnd::Release
        } else {
            match wanted {
                Some(i) => CycleEnd::Register(i),
                None => CycleEnd::Idle,
            }
        }
    }

    /// Takes in the outcome of registering connection `id`'s socket for
    /// `interest`; every other connection is left untouched.
    pub fn reregister(&mut self, id: usize, interest: Interest, ok: bool)
        requires
            old(self).wf(),
            old(self).entries().contains_key(id),
        ensures
            final(self).wf(),
            only_touches(*old(self), *final(self), id),
            final(self).entries().contains_key(id),
            final(self).entries() == old(self).entries().insert(id, final(self).entries()[id]),
            Client::registered_effect(old(self).entries()[id], final(self).entries()[id], interest, ok),
    {
        let ghost pre = self.entries();
        match slab_get_mut(&mut self.clients, id) {
            Some(c) => c.reregister(interest, ok),
            None => {},
        }
        proof {
            assert(self.entries().dom() =~= pre.dom());
        }
    }

    /// Clean close: a connection is released after its peer's orderly close
    /// only once its queue is empty, and by then every byte it sent has been
    /// written back, in order.
    pub proof fn lemma_clean_close(&self, id: usize)
        requires
            self.wf(),
            self.entries().contains_key(id),
            self.entries()[id].closing(),
            self.entries()[id].pending().len() == 0,
        ensures
            self.entries()[id].delivered() == self.entries()[id].received(),
    {
        lemma_echo_identity(self.entries()[id]);
    }
}

/// A table step leaves every entry but the addressed one as it was;
/// `accept`, `read`, `write`, `end_cycle`, `reregister` and `remove` each
/// ensure it of the identifier they act on.
pub open spec fn only_touches(pre: ConnTable, post: ConnTable, id: usize) -> bool {
    forall|j: usize|
        j != id ==> (#[trigger] post.entries().contains_key(j) == pre.entries().contains_key(j))
            && (pre.entries().contains_key(j) ==> post.entries()[j] == pre.entries()[j])
}

/// Isolation: over any run of table steps, a connection that no step
/// addressed keeps its entry exactly, so nothing read on another connection
/// enters its queue or what it is sent.
pub proof fn lemma_isolation(states: Seq<ConnTable>, ids: Seq<usize>, k: usize)
    requires
        states.len() == ids.len() + 1,
        forall|i: int| 0 <= i < ids.len() ==> only_touches(#[trigger] states[i], states[i + 1], ids[i]),
        forall|i: int| 0 <= i < ids.len() ==> #[trigger] ids[i] != k,
        states[0].entries().contains_key(k),
    ensures
        states.last().entries().contains_key(k),
        states.last().entries()[k] == states[0].entries()[k],
    decreases ids.len(),
{
    if ids.len() > 0 {
        let n = ids.len() - 1;
        lemma_isolation(states.take(n + 1), ids.take(n), k);
        assert(states.take(n + 1).last() == states[n]);
        assert(only_touches(states[n], states[n + 1], ids[n]));
        assert(ids[n] != k);
    }
}

} // verus!
