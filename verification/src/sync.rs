//! The order in which a node syncs with its peers. A sync round (on request)
//! propagates the mempool to each peer, when it holds messages, and then
//! fetches the peer's committed messages, counting the steps that failed. The
//! background round fetches from each peer first, and sends it the mempool
//! only when the fetch succeeded and the mempool holds messages.

use vstd::prelude::*;

verus! {

/// The next step of a round.
#[derive(Clone, Copy, Debug, PartialEq, Eq, Structural)]
pub enum SyncAction {
    /// Send the mempool to the peer with this index.
    Propagate(usize),
    /// Fetch the committed messages of the peer with this index.
    Fetch(usize),
    /// Every peer has been visited.
    Finished,
}

/// The step at `peer` of a round over `total` peers, in the propagating or
/// the fetching part of the visit.
pub open spec fn round_action(peer: nat, total: nat, fetching: bool) -> SyncAction {
    if peer >= total {
        SyncAction::Finished
    } else if fetching {
        SyncAction::Fetch(peer as usize)
    } else {
        SyncAction::Propagate(peer as usize)
    }
}

/// A visit to a peer propagates to it and then fetches from it, and once
/// every peer has been visited the round is finished: at a peer `p` before
/// the end the propagating step is `Propagate(p)` and the fetching step is
/// `Fetch(p)`.
pub proof fn lemma_round_action_steps(peer: nat, total: nat)
    ensures
        peer < total ==> round_action(peer, total, false) == SyncAction::Propagate(peer as usize),
        peer < total ==> round_action(peer, total, true) == SyncAction::Fetch(peer as usize),
        peer >= total ==> round_action(peer, total, false) == SyncAction::Finished,
        peer >= total ==> round_action(peer, total, true) == SyncAction::Finished,
{
}

/// A sync round over the peers, as a node runs it on request.
pub struct SyncRound {
    total: usize,
    propagate: bool,
    peer: usize,
    fetching: bool,
    errors: usize,
}

impl SyncRound {
    /// The number of peers.
    pub closed spec fn total(&self) -> nat {
        self.total as nat
    }

    /// Whether the round sends the mempool to each peer.
    pub closed spec fn propagates(&self) -> bool {
        self.propagate
    }

    /// The index of the peer being visited.
    pub closed spec fn peer(&self) -> nat {
        self.peer as nat
    }

    /// Whether the fetch from the peer is the next step.
    pub closed spec fn fetching(&self) -> bool {
        self.fetching
    }

    /// How many steps failed so far.
    pub closed spec fn errors(&self) -> nat {
        self.errors as nat
    }

    #[verifier::type_invariant]
    spec fn well_formed(self) -> bool {
        &&& self.peer <= self.total
        &&& self.total <= usize::MAX / 2
        &&& !self.propagate ==> self.fetching
        &&& self.errors <= 2 * self.peer + if self.fetching && self.propagate {
            1int
        } else {
            0int
        }
    }

    /// A round over `total` peers; the mempool is propagated when it holds
    /// messages.
    pub fn new(total: usize, mempool_empty: bool) -> (r: SyncRound)
        requires
            total <= usize::MAX / 2,
        ensures
            r.total() == total,
            r.propagates() == !mempool_empty,
            r.peer() == 0,
            r.fetching() == mempool_empty,
            r.errors() == 0,
    {
        SyncRound { total, propagate: !mempool_empty, peer: 0, fetching: mempool_empty, errors: 0 }
    }

    /// The step to take now.
    pub fn action(&self) -> (a: SyncAction)
        ensures
            a == round_action(self.peer(), self.total(), self.fetching()),
            self.peer() < self.total() && !self.fetching() ==> a == SyncAction::Propagate(
                self.peer() as usize,
            ),
            self.peer() < self.total() && self.fetching() ==> a == SyncAction::Fetch(
                self.peer() as usize,
            ),
            self.peer() >= self.total() ==> a == SyncAction::Finished,
    {
        proof {
            use_type_invariant(self);
        }
        if self.peer >= self.total {
            SyncAction::Finished
        } else if self.fetching {
            SyncAction::Fetch(self.peer)
        } else {
            SyncAction::Propagate(self.peer)
        }
    }

    /// Records whether the step just taken succeeded, and gives the next: the
    /// fetch from the same peer after its propagation, else the first step of
    /// the following peer.
    pub fn on_result(&mut self, ok: bool) -> (a: SyncAction)
        requires
            old(self).peer() < old(self).total(),
        ensures
            final(self).total() == old(self).total(),
            final(self).propagates() == old(self).propagates(),
            final(self).errors() == old(self).errors() + if ok {
                0nat
            } else {
                1nat
            },
            !old(self).fetching() ==> final(self).peer() == old(self).peer() && final(self).fetching(),
            old(self).fetching() ==> final(self).peer() == old(self).peer() + 1 && final(self).fetching() == !old(self).propagates(),
            a == round_action(final(self).peer(), final(self).total(), final(self).fetching()),
    {
        proof {
            use_type_invariant(&*self);
        }
        let errors = if ok {
            self.errors
        } else {
            self.errors + 1
        };
        let (peer, fetching) = if self.fetching {
            (self.peer + 1, !self.propagate)
        } else {
            (self.peer, true)
        };
        *self = SyncRound { total: self.total, propagate: self.propagate, peer, fetching, errors };
        self.action()
    }

    /// How many steps failed.
    pub fn error_count(&self) -> (n: usize)
        ensures
            n == self.errors(),
    {
        self.errors
    }
}

/// The background round over the peers, as the sync task runs it.
pub struct BackgroundRound {
    total: usize,
    peer: usize,
    posting: bool,
}

impl BackgroundRound {
    /// The number of peers.
    pub closed spec fn total(&self) -> nat {
        self.total as nat
    }

    /// The index of the peer being visited.
    pub closed spec fn peer(&self) -> nat {
        self.peer as nat
    }

    /// Whether sending the mempool to the peer is the next step.
    pub closed spec fn posting(&self) -> bool {
        self.posting
    }

    #[verifier::type_invariant]
    spec fn well_formed(self) -> bool {
        &&& self.peer <= self.total
        &&& self.posting ==> self.peer < self.total
    }

    /// A background round over `total` peers.
    pub fn new(total: usize) -> (r: BackgroundRound)
        ensures
            r.total() == total,
            r.peer() == 0,
            !r.posting(),
    {
        BackgroundRound { total, peer: 0, posting: false }
    }

    /// The step to take now.
    pub fn action(&self) -> (a: SyncAction)
        ensures
            a == round_action(self.peer(), self.total(), !self.posting()),
            self.peer() < self.total() && self.posting() ==> a == SyncAction::Propagate(
                self.peer() as usize,
            ),
            self.peer() < self.total() && !self.posting() ==> a == SyncAction::Fetch(
                self.peer() as usize,
            ),
            self.peer() >= self.total() ==> a == SyncAction::Finished,
    {
        proof {
            use_type_invariant(self);
        }
        if self.peer >= self.total {
            SyncAction::Finished
        } else if self.posting {
            SyncAction::Propagate(self.peer)
        } else {
            SyncAction::Fetch(self.peer)
        }
    }

    /// Records the fetch from the current peer: when it succeeded and the
    /// mempool holds messages, the mempool is sent to that peer next;
    /// otherwise the round goes on to the following peer.
    pub fn on_fetch(&mut self, fetched: bool, mempool_pending: bool) -> (a: SyncAction)
        requires
            old(self).peer() < old(self).total(),
            !old(self).posting(),
        ensures
            final(self).total() == old(self).total(),
            fetched && mempool_pending ==> final(self).peer() == old(self).peer() && final(self).posting(),
            !(fetched && mempool_pending) ==> final(self).peer() == old(self).peer() + 1 && !final(self).posting(),
            a == round_action(final(self).peer(), final(self).total(), !final(self).posting()),
    {
        if fetched && mempool_pending {
            *self = BackgroundRound { total: self.total, peer: self.peer, posting: true };
        } else {
            *self = BackgroundRound { total: self.total, peer: self.peer + 1, posting: false };
        }
        self.action()
    }

    /// Records that the mempool was sent to the current peer, whatever came
    /// of it, and goes on to the following peer.
    pub fn on_propagate(&mut self) -> (a: SyncAction)
        requires
            old(self).posting(),
        ensures
            final(self).total() == old(self).total(),
            final(self).peer() == old(self).peer() + 1,
            !final(self).posting(),
            a == round_action(final(self).peer(), final(self).total(), true),
    {
        proof {
            use_type_invariant(&*self);
        }
        *self = BackgroundRound { total: self.total, peer: self.peer + 1, posting: false };
        self.action()
    }
}

} // verus!
