//! The committed messages of a node: the order in which they are served, and
//! which of the messages a peer sends are new to the node's store.

use vstd::prelude::*;
use vstd::hash_set::StringHashSet;

use crate::message::{ChatMessage, lemma_storage_key_identifies, spec_storage_key};

verus! {

/// Where a message stamped `t` goes among `sorted`: after every message
/// stamped no later than `t`.
pub open spec fn insert_position(sorted: Seq<ChatMessage>, t: i64) -> int
    decreases sorted.len(),
{
    if sorted.len() == 0 {
        0
    } else if sorted.last().timestamp > t {
        insert_position(sorted.drop_last(), t)
    } else {
        sorted.len() as int
    }
}

/// The messages of `s` ordered by timestamp; messages with equal timestamps
/// keep the order they have in `s`.
pub open spec fn sorted_by_timestamp(s: Seq<ChatMessage>) -> Seq<ChatMessage>
    decreases s.len(),
{
    if s.len() == 0 {
        Seq::empty()
    } else {
        let r = sorted_by_timestamp(s.drop_last());
        r.insert(insert_position(r, s.last().timestamp), s.last())
    }
}

/// Timestamps never decrease along `s`.
pub open spec fn timestamps_ascending(s: Seq<ChatMessage>) -> bool {
    forall|i: int, j: int| 0 <= i <= j < s.len() ==> #[trigger] s[i].timestamp <= #[trigger] s[j].timestamp
}

/// The messages of `s` stamped `t`, in their order in `s`.
pub open spec fn stamped(s: Seq<ChatMessage>, t: i64) -> Seq<ChatMessage>
    decreases s.len(),
{
    if s.len() == 0 {
        Seq::empty()
    } else if s.last().timestamp == t {
        stamped(s.drop_last(), t).push(s.last())
    } else {
        stamped(s.drop_last(), t)
    }
}

/// Orders committed messages by timestamp, keeping the order among messages
/// with the same timestamp.
pub fn sort_by_timestamp(msgs: Vec<ChatMessage>) -> (sorted: Vec<ChatMessage>)
    ensures
        sorted@ == sorted_by_timestamp(msgs@),
        sorted@.len() == msgs@.len(),
        timestamps_ascending(sorted@),
        forall|t: i64| #[trigger] stamped(sorted@, t) == stamped(msgs@, t),
        forall|t: i64|
            sorted@.filter(has_timestamp(t)) == #[trigger] msgs@.filter(has_timestamp(t)),
        sorted@.to_multiset() == msgs@.to_multiset(),
{
    proof {
        lemma_sorted_by_timestamp(msgs@, 0);
        lemma_sorted_by_timestamp_permutes(msgs@);
        assert forall|t: i64|
            sorted_by_timestamp(msgs@).filter(has_timestamp(t)) == #[trigger] msgs@.filter(
                has_timestamp(t),
            ) by {
            lemma_sorted_by_timestamp(msgs@, t);
            lemma_stamped_is_filter(msgs@, t);
            lemma_stamped_is_filter(sorted_by_timestamp(msgs@), t);
        }
        assert forall|t: i64| #[trigger] stamped(sorted_by_timestamp(msgs@), t) == stamped(
            msgs@,
            t,
        ) by {
            lemma_sorted_by_timestamp(msgs@, t);
        }
    }
    let ghost all = msgs@;
    let total: usize = msgs.len();
    let mut rest = msgs;
    let mut result: Vec<ChatMessage> = Vec::new();
    let mut taken: usize = 0;
    assert(all.take(0) =~= Seq::<ChatMessage>::empty());
    while rest.len() > 0
        invariant
            all.len() == total,
            taken + rest@.len() == total,
            rest@ == all.subrange(taken as int, total as int),
            result@ == sorted_by_timestamp(all.take(taken as int)),
        decreases rest@.len(),
    {
        let m = rest.remove(0);
        let t = m.timestamp;
        let mut p: usize = result.len();
        assert(result@.take(p as int) =~= result@);
        while p > 0 && result[p - 1].timestamp > t
            invariant
                p <= result@.len(),
                insert_position(result@, t) == insert_position(result@.take(p as int), t),
            decreases p,
        {
            assert(result@.take(p as int).drop_last() =~= result@.take(p - 1));
            p = p - 1;
        }
        assert(insert_position(result@.take(p as int), t) == p);
        proof {
            let s = all.take(taken + 1);
            assert(s.drop_last() =~= all.take(taken as int));
            assert(s.last() == m);
        }
        result.insert(p, m);
        taken = taken + 1;
        assert(rest@ =~= all.subrange(taken as int, total as int));
    }
    assert(all.take(total as int) =~= all);
    result
}

/// The messages of `incoming` that a store already holding the keys `known`
/// takes, in order: each one whose storage key is neither known nor the key
/// of a message taken before it.
pub open spec fn new_messages(known: Set<Seq<char>>, incoming: Seq<ChatMessage>) -> Seq<ChatMessage>
    decreases incoming.len(),
{
    if incoming.len() == 0 {
        Seq::empty()
    } else {
        let k = spec_storage_key(incoming[0]);
        if known.contains(k) {
            new_messages(known, incoming.drop_first())
        } else {
            seq![incoming[0]] + new_messages(known.insert(k), incoming.drop_first())
        }
    }
}

/// The set of the keys `keys` hold.
pub open spec fn key_set(keys: Seq<String>) -> Set<Seq<char>> {
    keys.map_values(|k: String| k@).to_set()
}

/// The storage keys of `s`.
pub open spec fn storage_keys(s: Seq<ChatMessage>) -> Set<Seq<char>> {
    Set::new(|k: Seq<char>| exists|i: int| 0 <= i < s.len() && spec_storage_key(s[i]) == k)
}

/// The storage keys that a node's database holds while the node stores the
/// messages of a peer, one by one.
pub struct StoredKeys {
    keys: StringHashSet,
}

impl View for StoredKeys {
    type V = Set<Seq<char>>;

    closed spec fn view(&self) -> Set<Seq<char>> {
        self.keys@
    }
}

impl StoredKeys {
    /// The keys `existing_keys`, as the database holds them.
    pub fn new(existing_keys: Vec<String>) -> (known: StoredKeys)
        ensures
            known@ == key_set(existing_keys@),
    {
        let ghost key_views = existing_keys@.map_values(|k: String| k@);
        let mut known = StringHashSet::new();
        let nkeys: usize = existing_keys.len();
        let mut keys = existing_keys;
        let mut i: usize = 0;
        while keys.len() > 0
            invariant
                i + keys@.len() == nkeys,
                key_views.len() == nkeys,
                forall|j: int| 0 <= j < keys@.len() ==> #[trigger] keys@[j]@ == key_views[i + j],
                known@ == key_views.take(i as int).to_set(),
            decreases keys@.len(),
        {
            let k = keys.remove(0);
            proof {
                assert(k@ == key_views[i as int]);
                assert(key_views.take(i + 1) =~= key_views.take(i as int).push(k@));
                key_views.take(i as int).lemma_push_to_set_commute(k@);
            }
            known.insert(k);
            i = i + 1;
        }
        assert(key_views.take(nkeys as int) =~= key_views);
        StoredKeys { keys: known }
    }

    /// Whether `msg` is new to the database: no stored message has its key.
    pub fn is_new(&self, msg: &ChatMessage) -> (fresh: bool)
        ensures
            fresh == !self@.contains(spec_storage_key(*msg)),
    {
        let key = msg.storage_key();
        !self.keys.contains(key.as_str())
    }

    /// Records that `msg` has been stored.
    pub fn record(&mut self, msg: &ChatMessage)
        ensures
            final(self)@ == old(self)@.insert(spec_storage_key(*msg)),
    {
        let key = msg.storage_key();
        self.keys.insert(key);
    }
}

/// Picks out of `incoming` the messages that a store holding the keys
/// `existing_keys` does not have yet, as a node does when it syncs with a
/// peer: a message is new when its key is neither stored nor the key of a
/// message picked before it.
pub fn select_new_messages(existing_keys: Vec<String>, incoming: Vec<ChatMessage>) -> (fresh: Vec<
    ChatMessage,
>)
    ensures
        fresh@ == new_messages(key_set(existing_keys@), incoming@),
        forall|i: int|
            0 <= i < fresh@.len() ==> !key_set(existing_keys@).contains(
                #[trigger] spec_storage_key(fresh@[i]),
            ),
        forall|i: int, j: int|
            0 <= i < fresh@.len() && 0 <= j < fresh@.len() && i != j ==> spec_storage_key(
                #[trigger] fresh@[i],
            ) != spec_storage_key(#[trigger] fresh@[j]),
        forall|i: int|
            0 <= i < incoming@.len() ==> key_set(existing_keys@).contains(
                #[trigger] spec_storage_key(incoming@[i]),
            ) || storage_keys(fresh@).contains(spec_storage_key(incoming@[i])),
        forall|i: int| 0 <= i < fresh@.len() ==> incoming@.contains(#[trigger] fresh@[i]),
        exists|idx: Seq<int>|
            kept_in_order(fresh@, incoming@, idx) && forall|k: int, j: int|
                0 <= k < fresh@.len() && 0 <= j < idx[k] ==> spec_storage_key(
                    #[trigger] incoming@[j],
                ) != spec_storage_key(#[trigger] fresh@[k]),
{
    proof {
        lemma_new_messages_fresh(key_set(existing_keys@), incoming@);
        lemma_new_messages_from_incoming(key_set(existing_keys@), incoming@);
    }
    let ghost order = lemma_new_messages_first_in_order(key_set(existing_keys@), incoming@);
    let mut known = StoredKeys::new(existing_keys);
    let ghost known0 = known@;
    let ghost all = incoming@;
    let total: usize = incoming.len();
    let mut rest = incoming;
    let mut fresh: Vec<ChatMessage> = Vec::new();
    let mut taken: usize = 0;
    assert(all.subrange(0, total as int) =~= all);
    while rest.len() > 0
        invariant
            all.len() == total,
            taken + rest@.len() == total,
            rest@ == all.subrange(taken as int, total as int),
            fresh@ + new_messages(known@, rest@) == new_messages(known0, all),
        decreases rest@.len(),
    {
        let ghost before = rest@;
        let m = rest.remove(0);
        assert(before.drop_first() =~= rest@);
        if known.is_new(&m) {
            known.record(&m);
            let ghost f = fresh@;
            fresh.push(m);
            assert(f + (seq![m] + new_messages(known@, rest@)) =~= fresh@ + new_messages(
                known@,
                rest@,
            ));
        }
        taken = taken + 1;
        assert(rest@ =~= all.subrange(taken as int, total as int));
    }
    assert(fresh@ + Seq::<ChatMessage>::empty() =~= fresh@);
    assert(kept_in_order(fresh@, incoming@, order));
    fresh
}

/// Inserting `m` at its position changes the messages of one timestamp only
/// by adding `m` at their end.
proof fn lemma_stamped_insert(r: Seq<ChatMessage>, m: ChatMessage, t: i64)
    ensures
        stamped(r.insert(insert_position(r, m.timestamp), m), t) == if m.timestamp == t {
            stamped(r, t).push(m)
        } else {
            stamped(r, t)
        },
    decreases r.len(),
{
    let p = insert_position(r, m.timestamp);
    if r.len() == 0 {
        assert(r.insert(p, m).drop_last() =~= r);
    } else if r.last().timestamp > m.timestamp {
        let d = r.drop_last();
        lemma_insert_position_bounds(d, m.timestamp);
        lemma_stamped_insert(d, m, t);
        assert(r.insert(p, m) =~= d.insert(p, m).push(r.last()));
        assert(r.insert(p, m).drop_last() =~= d.insert(p, m));
    } else {
        assert(r.insert(p, m) =~= r.push(m));
        assert(r.push(m).drop_last() =~= r);
    }
}

/// The position lies within the sequence, every message before it is stamped
/// no later than `t` when the sequence is ascending, and every message from it
/// on is stamped later than `t`.
proof fn lemma_insert_position_bounds(r: Seq<ChatMessage>, t: i64)
    ensures
        0 <= insert_position(r, t) <= r.len(),
        forall|i: int| insert_position(r, t) <= i < r.len() ==> r[i].timestamp > t,
        timestamps_ascending(r) ==> forall|i: int|
            0 <= i < insert_position(r, t) ==> r[i].timestamp <= t,
    decreases r.len(),
{
    if r.len() > 0 && r.last().timestamp > t {
        let d = r.drop_last();
        lemma_insert_position_bounds(d, t);
        assert forall|i: int| insert_position(r, t) <= i < r.len() implies r[i].timestamp > t by {
            if i < d.len() {
                assert(r[i] == d[i]);
            }
        }
        if timestamps_ascending(r) {
            assert(timestamps_ascending(d));
            assert forall|i: int| 0 <= i < insert_position(r, t) implies r[i].timestamp <= t by {
                assert(r[i] == d[i]);
            }
        }
    } else if r.len() > 0 {
        if timestamps_ascending(r) {
            assert forall|i: int| 0 <= i < insert_position(r, t) implies r[i].timestamp <= t by {
                assert(r[i].timestamp <= r[r.len() - 1].timestamp);
            }
        }
    }
}

/// Whether a message is stamped `t`.
pub open spec fn has_timestamp(t: i64) -> spec_fn(ChatMessage) -> bool {
    |m: ChatMessage| m.timestamp == t
}

/// The messages of `s` stamped `t` are those that `filter` keeps of `s`.
pub proof fn lemma_stamped_is_filter(s: Seq<ChatMessage>, t: i64)
    ensures
        stamped(s, t) == s.filter(has_timestamp(t)),
    decreases s.len(),
{
    reveal(Seq::filter);
    if s.len() > 0 {
        lemma_stamped_is_filter(s.drop_last(), t);
    }
}

/// Inserting `m` anywhere adds `m` to the multiset of messages.
proof fn lemma_insert_to_multiset(r: Seq<ChatMessage>, p: int, m: ChatMessage)
    requires
        0 <= p <= r.len(),
    ensures
        r.insert(p, m).to_multiset() == r.to_multiset().insert(m),
{
    let a = r.take(p);
    let b = r.skip(p);
    assert(r =~= a + b);
    assert(r.insert(p, m) =~= a + (seq![m] + b));
    vstd::seq_lib::lemma_multiset_commutative(a, b);
    vstd::seq_lib::lemma_multiset_commutative(a, seq![m] + b);
    vstd::seq_lib::lemma_multiset_commutative(seq![m], b);
    assert(seq![m] =~= Seq::<ChatMessage>::empty().push(m));
    Seq::<ChatMessage>::empty().to_multiset_ensures();
    assert(r.insert(p, m).to_multiset() =~= r.to_multiset().insert(m));
}

/// The sort neither drops, adds nor duplicates a message: what comes out is a
/// permutation of what goes in.
pub proof fn lemma_sorted_by_timestamp_permutes(s: Seq<ChatMessage>)
    ensures
        sorted_by_timestamp(s).to_multiset() == s.to_multiset(),
    decreases s.len(),
{
    if s.len() > 0 {
        let d = s.drop_last();
        lemma_sorted_by_timestamp_permutes(d);
        let r = sorted_by_timestamp(d);
        lemma_sorted_by_timestamp(d, 0);
        lemma_insert_position_bounds(r, s.last().timestamp);
        let p = insert_position(r, s.last().timestamp);
        lemma_insert_to_multiset(r, p, s.last());
        assert(sorted_by_timestamp(s) == r.insert(p, s.last()));
        assert(s =~= d.push(s.last()));
        d.to_multiset_ensures();
        assert(d.push(s.last()).to_multiset() == d.to_multiset().insert(s.last()));
    } else {
        assert(s =~= Seq::<ChatMessage>::empty());
    }
}

/// Messages come out of the sort ordered by timestamp, and the messages of
/// each timestamp keep the order they came in: the sort is a stable sort by
/// timestamp.
pub proof fn lemma_sorted_by_timestamp(s: Seq<ChatMessage>, t: i64)
    ensures
        timestamps_ascending(sorted_by_timestamp(s)),
        stamped(sorted_by_timestamp(s), t) == stamped(s, t),
        sorted_by_timestamp(s).len() == s.len(),
    decreases s.len(),
{
    if s.len() > 0 {
        let d = s.drop_last();
        let m = s.last();
        let r = sorted_by_timestamp(d);
        lemma_sorted_by_timestamp(d, t);
        lemma_stamped_insert(r, m, t);
        lemma_insert_position_bounds(r, m.timestamp);
        let p = insert_position(r, m.timestamp);
        let q = r.insert(p, m);
        assert forall|i: int, j: int| 0 <= i <= j < q.len() implies #[trigger] q[i].timestamp
            <= #[trigger] q[j].timestamp by {
            if j < p {
            } else if j == p {
                if i < p {
                    assert(q[i] == r[i]);
                }
            } else {
                assert(q[j] == r[j - 1]);
                if i < p {
                    assert(q[i] == r[i]);
                } else if i > p {
                    assert(q[i] == r[i - 1]);
                }
            }
        }
    }
}

/// Every message that the store takes is new: its key is not known, and no
/// two taken messages share a key. Every incoming message is then covered:
/// its key was known or is the key of a message taken.
pub proof fn lemma_new_messages_fresh(known: Set<Seq<char>>, incoming: Seq<ChatMessage>)
    ensures
        forall|i: int|
            0 <= i < new_messages(known, incoming).len() ==> !known.contains(
                #[trigger] spec_storage_key(new_messages(known, incoming)[i]),
            ),
        forall|i: int, j: int|
            0 <= i < new_messages(known, incoming).len() && 0 <= j < new_messages(
                known,
                incoming,
            ).len() && i != j ==> spec_storage_key(#[trigger] new_messages(known, incoming)[i])
                != spec_storage_key(#[trigger] new_messages(known, incoming)[j]),
        forall|i: int|
            0 <= i < incoming.len() ==> known.contains(#[trigger] spec_storage_key(incoming[i]))
                || storage_keys(new_messages(known, incoming)).contains(
                spec_storage_key(incoming[i]),
            ),
    decreases incoming.len(),
{
    if incoming.len() > 0 {
        let m = incoming[0];
        let k = spec_storage_key(m);
        let tail = incoming.drop_first();
        let r = new_messages(known, incoming);
        if known.contains(k) {
            lemma_new_messages_fresh(known, tail);
            assert(r == new_messages(known, tail));
            assert forall|i: int| 0 <= i < incoming.len() implies known.contains(
                #[trigger] spec_storage_key(incoming[i]),
            ) || storage_keys(r).contains(spec_storage_key(incoming[i])) by {
                if i > 0 {
                    assert(incoming[i] == tail[i - 1]);
                }
            }
        } else {
            let known2 = known.insert(k);
            let r2 = new_messages(known2, tail);
            lemma_new_messages_fresh(known2, tail);
            assert(r =~= seq![m] + r2);
            assert forall|i: int| 0 <= i < r.len() implies !known.contains(
                #[trigger] spec_storage_key(r[i]),
            ) by {
                if i > 0 {
                    assert(r[i] == r2[i - 1]);
                }
            }
            assert forall|i: int, j: int|
                0 <= i < r.len() && 0 <= j < r.len() && i != j implies spec_storage_key(
                #[trigger] r[i],
            ) != spec_storage_key(#[trigger] r[j]) by {
                if i > 0 {
                    assert(r[i] == r2[i - 1]);
                    assert(!known2.contains(spec_storage_key(r2[i - 1])));
                }
                if j > 0 {
                    assert(r[j] == r2[j - 1]);
                    assert(!known2.contains(spec_storage_key(r2[j - 1])));
                }
            }
            assert forall|i: int| 0 <= i < incoming.len() implies known.contains(
                #[trigger] spec_storage_key(incoming[i]),
            ) || storage_keys(r).contains(spec_storage_key(incoming[i])) by {
                let ki = spec_storage_key(incoming[i]);
                if i == 0 {
                    assert(spec_storage_key(r[0]) == ki);
                } else {
                    assert(incoming[i] == tail[i - 1]);
                    if ki == k {
                        assert(spec_storage_key(r[0]) == ki);
                    } else if !known.contains(ki) {
                        assert(storage_keys(r2).contains(ki));
                        let j = choose|j: int| 0 <= j < r2.len() && spec_storage_key(r2[j]) == ki;
                        assert(r[j + 1] == r2[j]);
                    }
                }
            }
        }
    }
}

/// The store takes nothing but incoming messages, and keeps their order: what
/// it takes is `incoming` with some messages left out.
pub proof fn lemma_new_messages_from_incoming(known: Set<Seq<char>>, incoming: Seq<ChatMessage>)
    ensures
        new_messages(known, incoming).len() <= incoming.len(),
        forall|i: int|
            0 <= i < new_messages(known, incoming).len() ==> incoming.contains(
                #[trigger] new_messages(known, incoming)[i],
            ),
    decreases incoming.len(),
{
    if incoming.len() > 0 {
        let m = incoming[0];
        let k = spec_storage_key(m);
        let tail = incoming.drop_first();
        let r = new_messages(known, incoming);
        let known2 = if known.contains(k) {
            known
        } else {
            known.insert(k)
        };
        lemma_new_messages_from_incoming(known2, tail);
        let r2 = new_messages(known2, tail);
        assert forall|i: int| 0 <= i < r.len() implies incoming.contains(#[trigger] r[i]) by {
            if known.contains(k) {
                assert(r[i] == r2[i]);
                let j = choose|j: int| 0 <= j < tail.len() && tail[j] == r2[i];
                assert(incoming[j + 1] == r2[i]);
            } else if i == 0 {
                assert(r[0] == incoming[0]);
            } else {
                assert(r[i] == r2[i - 1]);
                let j = choose|j: int| 0 <= j < tail.len() && tail[j] == r2[i - 1];
                assert(incoming[j + 1] == r2[i - 1]);
            }
        }
    }
}

/// `r` is `s` with some elements left out, in order: `idx` gives the index in
/// `s` of each element of `r`, and the indices increase.
pub open spec fn kept_in_order(r: Seq<ChatMessage>, s: Seq<ChatMessage>, idx: Seq<int>) -> bool {
    &&& idx.len() == r.len()
    &&& forall|k: int| 0 <= k < r.len() ==> 0 <= #[trigger] idx[k] < s.len() && s[idx[k]] == r[k]
    &&& forall|k: int, l: int| 0 <= k < l < r.len() ==> #[trigger] idx[k] < #[trigger] idx[l]
}

/// The store takes the incoming messages in their order, and each one it
/// takes is the first incoming message with its key.
pub proof fn lemma_new_messages_first_in_order(known: Set<Seq<char>>, incoming: Seq<ChatMessage>) -> (idx: Seq<int>)
    ensures
        kept_in_order(new_messages(known, incoming), incoming, idx),
        forall|k: int, j: int|
            0 <= k < new_messages(known, incoming).len() && 0 <= j < idx[k] ==> spec_storage_key(
                #[trigger] incoming[j],
            ) != spec_storage_key(#[trigger] new_messages(known, incoming)[k]),
    decreases incoming.len(),
{
    if incoming.len() == 0 {
        Seq::empty()
    } else {
        let m = incoming[0];
        let k0 = spec_storage_key(m);
        let tail = incoming.drop_first();
        let r = new_messages(known, incoming);
        if known.contains(k0) {
            let idx2 = lemma_new_messages_first_in_order(known, tail);
            lemma_new_messages_fresh(known, tail);
            let r2 = new_messages(known, tail);
            assert(r == r2);
            let idx = Seq::new(idx2.len(), |k: int| idx2[k] + 1);
            assert forall|k: int| 0 <= k < r.len() implies 0 <= #[trigger] idx[k] < incoming.len()
                && incoming[idx[k]] == r[k] by {
                assert(incoming[idx2[k] + 1] == tail[idx2[k]]);
            }
            assert forall|k: int, j: int|
                0 <= k < r.len() && 0 <= j < idx[k] implies spec_storage_key(#[trigger] incoming[j])
                != spec_storage_key(#[trigger] r[k]) by {
                if j == 0 {
                    assert(!known.contains(spec_storage_key(r2[k])));
                } else {
                    assert(incoming[j] == tail[j - 1]);
                }
            }
            assert forall|k: int, l: int| 0 <= k < l < r.len() implies #[trigger] idx[k]
                < #[trigger] idx[l] by {
                assert(idx2[k] < idx2[l]);
            }
            idx
        } else {
            let known2 = known.insert(k0);
            let idx2 = lemma_new_messages_first_in_order(known2, tail);
            lemma_new_messages_fresh(known2, tail);
            let r2 = new_messages(known2, tail);
            assert(r =~= seq![m] + r2);
            let idx = Seq::new(idx2.len() + 1, |k: int| if k == 0 { 0 } else { idx2[k - 1] + 1 });
            assert forall|k: int| 0 <= k < r.len() implies 0 <= #[trigger] idx[k] < incoming.len()
                && incoming[idx[k]] == r[k] by {
                if k > 0 {
                    assert(r[k] == r2[k - 1]);
                    assert(incoming[idx2[k - 1] + 1] == tail[idx2[k - 1]]);
                }
            }
            assert forall|k: int, j: int|
                0 <= k < r.len() && 0 <= j < idx[k] implies spec_storage_key(#[trigger] incoming[j])
                != spec_storage_key(#[trigger] r[k]) by {
                if k > 0 {
                    assert(r[k] == r2[k - 1]);
                    if j == 0 {
                        assert(!known2.contains(spec_storage_key(r2[k - 1])));
                    } else {
                        assert(incoming[j] == tail[j - 1]);
                        assert(j - 1 < idx2[k - 1]);
                    }
                }
            }
            assert forall|k: int, l: int| 0 <= k < l < r.len() implies #[trigger] idx[k]
                < #[trigger] idx[l] by {
                if k > 0 {
                    assert(idx2[k - 1] < idx2[l - 1]);
                } else {
                    assert(idx2[l - 1] >= 0);
                }
            }
            idx
        }
    }
}

/// When the store knows none of the incoming keys and no two incoming
/// messages share a key, it takes every incoming message, in order.
pub proof fn lemma_new_messages_takes_all(known: Set<Seq<char>>, incoming: Seq<ChatMessage>)
    requires
        forall|i: int| 0 <= i < incoming.len() ==> !known.contains(#[trigger] spec_storage_key(incoming[i])),
        forall|i: int, j: int|
            0 <= i < incoming.len() && 0 <= j < incoming.len() && i != j ==> spec_storage_key(
                #[trigger] incoming[i],
            ) != spec_storage_key(#[trigger] incoming[j]),
    ensures
        new_messages(known, incoming) == incoming,
    decreases incoming.len(),
{
    if incoming.len() > 0 {
        let k = spec_storage_key(incoming[0]);
        let tail = incoming.drop_first();
        let known2 = known.insert(k);
        assert forall|i: int| 0 <= i < tail.len() implies !known2.contains(
            #[trigger] spec_storage_key(tail[i]),
        ) by {
            assert(tail[i] == incoming[i + 1]);
            assert(!known.contains(spec_storage_key(incoming[i + 1])));
            assert(spec_storage_key(incoming[i + 1]) != spec_storage_key(incoming[0]));
        }
        assert forall|i: int, j: int|
            0 <= i < tail.len() && 0 <= j < tail.len() && i != j implies spec_storage_key(
            #[trigger] tail[i],
        ) != spec_storage_key(#[trigger] tail[j]) by {
            assert(tail[i] == incoming[i + 1]);
            assert(tail[j] == incoming[j + 1]);
        }
        assert(!known.contains(spec_storage_key(incoming[0])));
        lemma_new_messages_takes_all(known2, tail);
        assert(incoming =~= seq![incoming[0]] + tail);
    }
}

/// Messages that differ in timestamp or sender from each other, and whose
/// timestamp and sender no stored key names, are all taken, in order.
pub proof fn lemma_distinct_messages_all_new(known: Set<Seq<char>>, incoming: Seq<ChatMessage>)
    requires
        forall|i: int| 0 <= i < incoming.len() ==> !known.contains(#[trigger] spec_storage_key(incoming[i])),
        forall|i: int, j: int|
            0 <= i < incoming.len() && 0 <= j < incoming.len() && i != j ==> (#[trigger] incoming[i]).timestamp
                != (#[trigger] incoming[j]).timestamp || incoming[i].sender@ != incoming[j].sender@,
    ensures
        new_messages(known, incoming) == incoming,
{
    assert forall|i: int, j: int|
        0 <= i < incoming.len() && 0 <= j < incoming.len() && i != j implies spec_storage_key(
        #[trigger] incoming[i],
    ) != spec_storage_key(#[trigger] incoming[j]) by {
        lemma_storage_key_identifies(incoming[i], incoming[j]);
    }
    lemma_new_messages_takes_all(known, incoming);
}

/// A store that knows the keys of all incoming messages takes none of them.
proof fn lemma_new_messages_none(known: Set<Seq<char>>, incoming: Seq<ChatMessage>)
    requires
        forall|i: int| 0 <= i < incoming.len() ==> known.contains(#[trigger] spec_storage_key(incoming[i])),
    ensures
        new_messages(known, incoming) == Seq::<ChatMessage>::empty(),
    decreases incoming.len(),
{
    if incoming.len() > 0 {
        let tail = incoming.drop_first();
        assert(known.contains(spec_storage_key(incoming[0])));
        assert forall|i: int| 0 <= i < tail.len() implies known.contains(
            #[trigger] spec_storage_key(tail[i]),
        ) by {
            assert(tail[i] == incoming[i + 1]);
        }
        lemma_new_messages_none(known, tail);
    }
}

/// Syncing the same messages a second time stores nothing more: once the
/// messages taken are stored, none of the incoming ones is new.
pub proof fn lemma_new_messages_idempotent(known: Set<Seq<char>>, incoming: Seq<ChatMessage>)
    ensures
        new_messages(known.union(storage_keys(new_messages(known, incoming))), incoming)
            == Seq::<ChatMessage>::empty(),
{
    lemma_new_messages_fresh(known, incoming);
    let all = known.union(storage_keys(new_messages(known, incoming)));
    assert forall|i: int| 0 <= i < incoming.len() implies all.contains(
        #[trigger] spec_storage_key(incoming[i]),
    ) by {
        assert(known.contains(spec_storage_key(incoming[i])) || storage_keys(
            new_messages(known, incoming),
        ).contains(spec_storage_key(incoming[i])));
    }
    lemma_new_messages_none(all, incoming);
}

} // verus!
