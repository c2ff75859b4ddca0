//! The mempool: messages waiting for the next commit, and the identities of
//! every message the node has ever accepted.

use vstd::prelude::*;
use vstd::hash_set::StringHashSet;

use crate::message::{
    ChatMessage, ChatValue, identity_encoding, lemma_identity_encoding_injective, spec_message_id,
};

verus! {

/// The abstract state of a mempool: the pending messages, oldest first, and
/// the set of message identities seen so far. A drain empties the first and
/// leaves the second as it is, so a committed message is never taken again.
pub struct MempoolState {
    pub pending: Seq<ChatMessage>,
    pub seen: Set<(Seq<char>, Seq<char>, i64)>,
}

impl MempoolState {
    /// The state of a new mempool.
    pub open spec fn empty() -> MempoolState {
        MempoolState { pending: Seq::empty(), seen: Set::empty() }
    }

    /// Every pending message has been seen, and no two pending messages share
    /// an identity.
    pub open spec fn inv(self) -> bool {
        &&& forall|i: int|
            0 <= i < self.pending.len() ==> self.seen.contains(
                #[trigger] spec_message_id(self.pending[i]),
            )
        &&& forall|i: int, j: int|
            0 <= i < self.pending.len() && 0 <= j < self.pending.len() && i != j
                ==> spec_message_id(#[trigger] self.pending[i]) != spec_message_id(
                #[trigger] self.pending[j],
            )
    }

    /// Whether a push of `m` is taken: its identity has not been seen yet.
    pub open spec fn accepts(self, m: ChatMessage) -> bool {
        !self.seen.contains(spec_message_id(m))
    }

    /// The state after a push of `m`.
    pub open spec fn after_push(self, m: ChatMessage) -> MempoolState {
        if self.accepts(m) {
            MempoolState {
                pending: self.pending.push(m),
                seen: self.seen.insert(spec_message_id(m)),
            }
        } else {
            self
        }
    }

    /// The state after pushing each of `msgs` in turn.
    pub open spec fn after_push_all(self, msgs: Seq<ChatMessage>) -> MempoolState
        decreases msgs.len(),
    {
        if msgs.len() == 0 {
            self
        } else {
            self.after_push_all(msgs.drop_last()).after_push(msgs.last())
        }
    }

    /// How many of `msgs`, pushed in turn, are taken.
    pub open spec fn count_accepted(self, msgs: Seq<ChatMessage>) -> nat
        decreases msgs.len(),
    {
        if msgs.len() == 0 {
            0
        } else {
            self.count_accepted(msgs.drop_last()) + if self.after_push_all(
                msgs.drop_last(),
            ).accepts(msgs.last()) {
                1nat
            } else {
                0nat
            }
        }
    }

    /// The state after a drain: nothing pending, the same identities seen.
    pub open spec fn after_drain(self) -> MempoolState {
        MempoolState { pending: Seq::empty(), seen: self.seen }
    }
}

/// A push keeps the mempool's invariant.
pub proof fn lemma_push_keeps_inv(s: MempoolState, m: ChatMessage)
    requires
        s.inv(),
    ensures
        s.after_push(m).inv(),
{
    if s.accepts(m) {
        let t = s.after_push(m);
        assert forall|i: int| 0 <= i < t.pending.len() implies t.seen.contains(
            #[trigger] spec_message_id(t.pending[i]),
        ) by {
            if i < s.pending.len() {
                assert(t.pending[i] == s.pending[i]);
            }
        }
        assert forall|i: int, j: int|
            0 <= i < t.pending.len() && 0 <= j < t.pending.len() && i != j implies spec_message_id(
            #[trigger] t.pending[i],
        ) != spec_message_id(#[trigger] t.pending[j]) by {
            if i < s.pending.len() {
                assert(s.seen.contains(spec_message_id(s.pending[i])));
            }
            if j < s.pending.len() {
                assert(s.seen.contains(spec_message_id(s.pending[j])));
            }
        }
    }
}

/// A drain keeps the mempool's invariant.
pub proof fn lemma_drain_keeps_inv(s: MempoolState)
    requires
        s.inv(),
    ensures
        s.after_drain().inv(),
{
}

/// Once a message has been offered, taken or not, its identity is seen: a
/// second push of it is refused and changes nothing.
pub proof fn lemma_push_is_idempotent(s: MempoolState, m: ChatMessage)
    ensures
        !s.after_push(m).accepts(m),
        s.after_push(m).after_push(m) == s.after_push(m),
{
}

/// A message that was pending when the mempool was drained is refused when
/// it is offered again, so no message is committed twice.
pub proof fn lemma_drained_message_refused(s: MempoolState, i: int)
    requires
        s.inv(),
        0 <= i < s.pending.len(),
    ensures
        !s.after_drain().accepts(s.pending[i]),
{
    assert(s.seen.contains(spec_message_id(s.pending[i])));
}

/// Offering a batch is offering its messages one after another: no message
/// offers nothing and takes none, and one more message at the end is pushed
/// after the rest, counted when it is taken.
pub proof fn lemma_push_all_is_pushes_in_turn(s: MempoolState, msgs: Seq<ChatMessage>, m: ChatMessage)
    ensures
        s.after_push_all(Seq::empty()) == s,
        s.count_accepted(Seq::empty()) == 0,
        s.after_push_all(msgs.push(m)) == s.after_push_all(msgs).after_push(m),
        s.count_accepted(msgs.push(m)) == s.count_accepted(msgs) + if s.after_push_all(
            msgs,
        ).accepts(m) {
            1nat
        } else {
            0nat
        },
{
    assert(msgs.push(m).drop_last() =~= msgs);
}

/// Offering messages in turn appends exactly the ones taken: the pending
/// messages that were there stay in front, the number of pending messages
/// grows by the count of those taken, and no seen identity is forgotten.
pub proof fn lemma_push_all_appends(s: MempoolState, msgs: Seq<ChatMessage>)
    ensures
        s.after_push_all(msgs).pending.len() == s.pending.len() + s.count_accepted(msgs),
        s.after_push_all(msgs).pending.take(s.pending.len() as int) == s.pending,
        s.seen.subset_of(s.after_push_all(msgs).seen),
    decreases msgs.len(),
{
    if msgs.len() > 0 {
        lemma_push_all_appends(s, msgs.drop_last());
        let t = s.after_push_all(msgs.drop_last());
        assert(t.pending.take(s.pending.len() as int) == s.pending);
        if t.accepts(msgs.last()) {
            assert(t.pending.push(msgs.last()).take(s.pending.len() as int) =~= t.pending.take(
                s.pending.len() as int,
            ));
        }
    } else {
        assert(s.pending.take(s.pending.len() as int) =~= s.pending);
    }
}

/// An operation on a mempool.
pub enum MempoolOp {
    Push(ChatMessage),
    Drain,
}

impl MempoolState {
    /// The state after the operations `ops`, in order.
    pub open spec fn after_ops(self, ops: Seq<MempoolOp>) -> MempoolState
        decreases ops.len(),
    {
        if ops.len() == 0 {
            self
        } else {
            let t = self.after_ops(ops.drop_last());
            match ops.last() {
                MempoolOp::Push(m) => t.after_push(m),
                MempoolOp::Drain => t.after_drain(),
            }
        }
    }
}

/// No operation forgets an identity once seen.
pub proof fn lemma_seen_only_grows(s: MempoolState, ops: Seq<MempoolOp>)
    ensures
        s.seen.subset_of(s.after_ops(ops).seen),
    decreases ops.len(),
{
    if ops.len() > 0 {
        lemma_seen_only_grows(s, ops.drop_last());
    }
}

/// A message once taken is never taken again: after any pushes and drains
/// that follow, a message with the same sender, recipient and timestamp,
/// whatever its text, is refused and leaves the mempool as it is.
pub proof fn lemma_accepted_never_again(
    s: MempoolState,
    x: ChatMessage,
    ops: Seq<MempoolOp>,
    y: ChatMessage,
)
    requires
        s.accepts(x),
        spec_message_id(y) == spec_message_id(x),
    ensures
        !s.after_push(x).after_ops(ops).accepts(y),
        s.after_push(x).after_ops(ops).after_push(y) == s.after_push(x).after_ops(ops),
{
    lemma_seen_only_grows(s.after_push(x), ops);
}

/// Messages waiting for the next commit. A message whose identity
/// (sender, recipient, timestamp) was seen before is refused, also after the
/// commit that took it.
pub struct Mempool {
    pending: Vec<ChatMessage>,
    seen_message_ids: StringHashSet,
}

impl View for Mempool {
    type V = MempoolState;

    closed spec fn view(&self) -> MempoolState {
        MempoolState {
            pending: self.pending@,
            seen: Set::new(
                |id: (Seq<char>, Seq<char>, i64)|
                    self.seen_message_ids@.contains(identity_encoding(id)),
            ),
        }
    }
}

impl Mempool {
    /// Every mempool keeps the invariant of `MempoolState`.
    #[verifier::type_invariant]
    spec fn well_formed(self) -> bool {
        self@.inv()
    }

    /// An empty mempool.
    pub fn new() -> (mp: Mempool)
        ensures
            mp@ == MempoolState::empty(),
            mp@.inv(),
    {
        let mp = Mempool { pending: Vec::new(), seen_message_ids: StringHashSet::new() };
        assert(mp@.seen =~= Set::empty());
        assert(mp@.pending =~= Seq::empty());
        mp
    }

    /// Offers `msg` to the mempool. It is taken, and `true` returned, if and
    /// only if no message with its identity was seen before; otherwise the
    /// mempool is left as it was and `false` returned.
    pub fn push(&mut self, msg: ChatMessage) -> (accepted: bool)
        ensures
            accepted == old(self)@.accepts(msg),
            final(self)@ == old(self)@.after_push(msg),
            accepted == !old(self)@.seen.contains(spec_message_id(msg)),
            accepted ==> final(self)@.pending == old(self)@.pending.push(msg) && final(self)@.seen
                == old(self)@.seen.insert(spec_message_id(msg)),
            !accepted ==> final(self)@ == old(self)@,
            final(self)@.inv(),
    {
        proof {
            use_type_invariant(&*self);
        }
        let msg_id = msg.identity_key();
        if self.seen_message_ids.contains(msg_id.as_str()) {
            return false;
        }
        let mut pending = Vec::new();
        std::mem::swap(&mut pending, &mut self.pending);
        let mut seen = StringHashSet::new();
        std::mem::swap(&mut seen, &mut self.seen_message_ids);
        let ghost old_keys = seen@;
        seen.insert(msg_id);
        pending.push(msg);
        proof {
            lemma_push_keeps_inv(old(self)@, msg);
            let id = spec_message_id(msg);
            let now = Set::new(
                |t: (Seq<char>, Seq<char>, i64)| seen@.contains(identity_encoding(t)),
            );
            assert forall|t: (Seq<char>, Seq<char>, i64)| now.contains(t) == old(
                self,
            )@.seen.insert(id).contains(t) by {
                if identity_encoding(t) == identity_encoding(id) {
                    lemma_identity_encoding_injective(t, id);
                }
            }
            assert(now =~= old(self)@.seen.insert(id));
        }
        self.seen_message_ids = seen;
        self.pending = pending;
        true
    }

    /// Offers each of `msgs` in turn, as `push` does, and returns how many
    /// were taken.
    pub fn push_all(&mut self, msgs: Vec<ChatMessage>) -> (count: usize)
        ensures
            final(self)@ == old(self)@.after_push_all(msgs@),
            count == old(self)@.count_accepted(msgs@),
            final(self)@.pending.len() == old(self)@.pending.len() + count,
            final(self)@.pending.take(old(self)@.pending.len() as int) == old(self)@.pending,
            old(self)@.seen.subset_of(final(self)@.seen),
            final(self)@.inv(),
    {
        proof {
            use_type_invariant(&*self);
        }
        let ghost start = self@;
        let ghost all = msgs@;
        let mut count: usize = 0;
        let total: usize = msgs.len();
        let mut rest = msgs;
        let mut taken: usize = 0;
        while rest.len() > 0
            invariant
                self@.inv(),
                all.len() == total,
                taken + rest@.len() == all.len(),
                rest@ == all.subrange(taken as int, all.len() as int),
                self@ == start.after_push_all(all.take(taken as int)),
                count == start.count_accepted(all.take(taken as int)),
                count <= taken,
            decreases rest@.len(),
        {
            let msg = rest.remove(0);
            proof {
                assert(all.take(taken as int + 1).drop_last() =~= all.take(taken as int));
                assert(all.take(taken as int + 1).last() == msg);
            }
            if self.push(msg) {
                count = count + 1;
            }
            taken = taken + 1;
            assert(rest@ =~= all.subrange(taken as int, all.len() as int));
        }
        assert(all.take(taken as int) =~= all);
        proof {
            lemma_push_all_appends(start, all);
        }
        count
    }

    /// Takes every pending message out, oldest first. The identities seen
    /// stay, so none of them can be pushed again.
    pub fn drain(&mut self) -> (drained: Vec<ChatMessage>)
        ensures
            drained@ == old(self)@.pending,
            final(self)@ == old(self)@.after_drain(),
            final(self)@.pending.len() == 0,
            final(self)@.seen == old(self)@.seen,
            final(self)@.inv(),
    {
        proof {
            use_type_invariant(&*self);
        }
        let mut drained = Vec::new();
        std::mem::swap(&mut drained, &mut self.pending);
        drained
    }

    /// Commits the pending messages: drains them into one block, or returns
    /// `None`, with the mempool unchanged, when nothing is pending.
    pub fn commit(&mut self) -> (block: Option<ChatValue>)
        ensures
            old(self)@.pending.len() == 0 ==> block is None && final(self)@ == old(self)@,
            old(self)@.pending.len() > 0 ==> (block matches Some(v) && v.messages@ == old(
                self,
            )@.pending && final(self)@ == old(self)@.after_drain()),
            final(self)@.inv(),
    {
        if self.pending.len() == 0 {
            return None;
        }
        let messages = self.drain();
        Some(ChatValue { messages })
    }

    /// The number of pending messages.
    pub fn len(&self) -> (n: usize)
        ensures
            n == self@.pending.len(),
    {
        self.pending.len()
    }

    /// The pending messages, oldest first.
    pub fn pending(&self) -> (msgs: &Vec<ChatMessage>)
        ensures
            msgs@ == self@.pending,
    {
        &self.pending
    }
}

} // verus!
