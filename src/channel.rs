//! Channels that let producers outside a pass hand values to a scope.
use vstd::prelude::*;
use crate::identity::ScopeId;
use crate::scope::{is_current, marked, Scopes};

verus! {

/// A send or a receive on a channel that has been closed.
#[derive(Clone, Copy, Debug, PartialEq, Eq, Structural)]
pub struct Closed {}

/// A channel from any number of senders to the one receiver held by the
/// scope instance `owner` of generation `owner_generation`. When that scope
/// is retired the receiver goes with it.
pub struct Channel {
    queue: Vec<u64>,
    open: bool,
    senders: u64,
    owner: ScopeId,
    owner_generation: u64,
}

impl Channel {
    /// The values sent and not yet received, oldest first.
    pub closed spec fn pending(&self) -> Seq<u64> {
        self.queue@
    }

    pub closed spec fn is_open(&self) -> bool {
        self.open
    }

    /// The number of senders that are still held.
    pub closed spec fn senders(&self) -> u64 {
        self.senders
    }

    pub closed spec fn owner(&self) -> ScopeId {
        self.owner
    }

    pub closed spec fn owner_generation(&self) -> u64 {
        self.owner_generation
    }

    /// An open channel holds a sender; a closed one holds no value.
    pub open spec fn wf(&self) -> bool {
        &&& self.is_open() ==> self.senders() > 0
        &&& !self.is_open() ==> self.pending().len() == 0
    }

    /// An open channel with one sender, received by the scope instance
    /// `owner` of generation `generation`.
    pub fn new(owner: ScopeId, generation: u64) -> (r: Channel)
        ensures
            r.wf(),
            r.is_open(),
            r.pending() == Seq::<u64>::empty(),
            r.senders() == 1,
            r.owner() == owner,
            r.owner_generation() == generation,
    {
        Channel { queue: Vec::new(), open: true, senders: 1, owner, owner_generation: generation }
    }

    /// Whether sends still succeed.
    pub fn is_closed(&self) -> (r: bool)
        ensures
            r == !self.is_open(),
    {
        !self.open
    }

    /// The number of values waiting to be received.
    pub fn len(&self) -> (r: usize)
        ensures
            r == self.pending().len(),
    {
        self.queue.len()
    }

    /// Queues `v` without blocking; on a closed channel nothing changes and
    /// the sender learns `Closed`.
    pub fn send(&mut self, v: u64) -> (r: Result<(), Closed>)
        requires
            old(self).wf(),
        ensures
            final(self).wf(),
            final(self).is_open() == old(self).is_open(),
            final(self).senders() == old(self).senders(),
            final(self).owner() == old(self).owner(),
            final(self).owner_generation() == old(self).owner_generation(),
            r is Ok <==> old(self).is_open(),
            r is Ok ==> final(self).pending() == old(self).pending().push(v),
            r is Err ==> final(self).pending() == old(self).pending(),
    {
        if self.open {
            self.queue.push(v);
            Ok(())
        } else {
            Err(Closed {})
        }
    }

    /// Takes the oldest pending value, if there is one.
    pub fn try_recv(&mut self) -> (r: Option<u64>)
        requires
            old(self).wf(),
        ensures
            final(self).wf(),
            final(self).is_open() == old(self).is_open(),
            final(self).senders() == old(self).senders(),
            final(self).owner() == old(self).owner(),
            final(self).owner_generation() == old(self).owner_generation(),
            old(self).pending().len() == 0 ==> r is None
                && final(self).pending() == old(self).pending(),
            old(self).pending().len() > 0 ==> r == Some(old(self).pending()[0])
                && final(self).pending() == old(self).pending().drop_first(),
    {
        if self.queue.len() == 0 {
            None
        } else {
            let v = self.queue.remove(0);
            assert(self.queue@ =~= old(self).pending().drop_first());
            Some(v)
        }
    }

    /// Hands out one more sender. On a closed channel the new sender only
    /// ever sees `Closed`.
    pub fn add_sender(&mut self)
        requires
            old(self).wf(),
            old(self).senders() < u64::MAX,
        ensures
            final(self).wf(),
            final(self).is_open() == old(self).is_open(),
            final(self).senders() == old(self).senders() + 1,
            final(self).pending() == old(self).pending(),
            final(self).owner() == old(self).owner(),
            final(self).owner_generation() == old(self).owner_generation(),
    {
        self.senders = self.senders + 1;
    }

    /// Drops one sender; when the last one goes, the channel closes and the
    /// values not yet received are discarded.
    pub fn drop_sender(&mut self)
        requires
            old(self).wf(),
            old(self).senders() > 0,
        ensures
            final(self).wf(),
            final(self).senders() == old(self).senders() - 1,
            final(self).owner() == old(self).owner(),
            final(self).owner_generation() == old(self).owner_generation(),
            final(self).is_open() == (old(self).is_open() && final(self).senders() > 0),
            final(self).is_open() ==> final(self).pending() == old(self).pending(),
            !final(self).is_open() ==> final(self).pending() == Seq::<u64>::empty(),
    {
        self.senders = self.senders - 1;
        if self.senders == 0 {
            self.open = false;
            self.queue = Vec::new();
        }
    }

    /// Drops the receiver: the channel closes and pending values are discarded.
    pub fn drop_receiver(&mut self)
        requires
            old(self).wf(),
        ensures
            final(self).wf(),
            !final(self).is_open(),
            final(self).pending() == Seq::<u64>::empty(),
            final(self).senders() == old(self).senders(),
            final(self).owner() == old(self).owner(),
            final(self).owner_generation() == old(self).owner_generation(),
    {
        self.open = false;
        self.queue = Vec::new();
    }
}

/// Receives from `ch` inside a pass; a value received marks the owning scope
/// and its ancestors dirty. Once the owning scope instance is retired, its
/// receiver is gone: the channel closes and nothing is received.
pub fn receive(scopes: &mut Scopes, ch: &mut Channel) -> (r: Option<u64>)
    requires
        old(scopes).wf(),
        old(ch).wf(),
    ensures
        final(scopes).wf(),
        final(ch).wf(),
        final(ch).senders() == old(ch).senders(),
        final(ch).owner() == old(ch).owner(),
        final(ch).owner_generation() == old(ch).owner_generation(),
        final(scopes).ids_view() == old(scopes).ids_view(),
        final(scopes).cells_view() == old(scopes).cells_view(),
        final(scopes).counters_view() == old(scopes).counters_view(),
        final(scopes).created_view() == old(scopes).created_view(),
        !is_current(old(scopes).scopes_view(), old(ch).owner(), old(ch).owner_generation()) ==> {
            &&& r is None
            &&& !final(ch).is_open()
            &&& final(ch).pending() == Seq::<u64>::empty()
            &&& final(scopes).scopes_view() == old(scopes).scopes_view()
        },
        is_current(old(scopes).scopes_view(), old(ch).owner(), old(ch).owner_generation()) ==> {
            &&& final(ch).is_open() == old(ch).is_open()
            &&& old(ch).pending().len() == 0 ==> r is None && final(ch).pending() == old(
                ch,
            ).pending() && final(scopes).scopes_view() == old(scopes).scopes_view()
            &&& old(ch).pending().len() > 0 ==> {
                &&& r == Some(old(ch).pending()[0])
                &&& final(ch).pending() == old(ch).pending().drop_first()
                &&& final(scopes).scopes_view() == marked(
                    old(scopes).ids_view(),
                    old(scopes).scopes_view(),
                    old(ch).owner(),
                )
            }
        },
{
    if !scopes.current(ch.owner, ch.owner_generation) {
        ch.drop_receiver();
        return None;
    }
    let r = ch.try_recv();
    if r.is_some() {
        scopes.mark_dirty(ch.owner);
    }
    r
}

/// Sends `v` on `ch`, which is open only while its owning scope instance is
/// live: once that scope is retired the channel closes and the send fails.
pub fn send_checked(scopes: &Scopes, ch: &mut Channel, v: u64) -> (r: Result<(), Closed>)
    requires
        scopes.wf(),
        old(ch).wf(),
    ensures
        final(ch).wf(),
        final(ch).senders() == old(ch).senders(),
        final(ch).owner() == old(ch).owner(),
        final(ch).owner_generation() == old(ch).owner_generation(),
        r is Ok <==> old(ch).is_open() && is_current(
            scopes.scopes_view(),
            old(ch).owner(),
            old(ch).owner_generation(),
        ),
        r is Ok ==> final(ch).is_open() && final(ch).pending() == old(ch).pending().push(v),
        r is Err ==> !final(ch).is_open() && final(ch).pending() == Seq::<u64>::empty(),
{
    if !scopes.current(ch.owner, ch.owner_generation) {
        ch.drop_receiver();
        return Err(Closed {});
    }
    let r = ch.send(v);
    r
}

} // verus!
