//! How the client spreads a request over the nodes it knows: it tries them
//! one by one, in the order configured, and stops at the first that answers
//! with success.

use vstd::prelude::*;

verus! {

/// What the client does next.
#[derive(Clone, Copy, Debug, PartialEq, Eq, Structural)]
pub enum FailoverStep {
    /// Send the request to the node with this index.
    Try(usize),
    /// The node with this index answered with success; answer with its reply.
    Succeeded(usize),
    /// No node is configured.
    NoNodes,
    /// Every node was tried and none answered with success.
    AllFailed,
}

/// The step the client takes once the nodes before `next` have all failed.
pub open spec fn step_at(next: nat, total: nat) -> FailoverStep {
    if total == 0 {
        FailoverStep::NoNodes
    } else if next < total {
        FailoverStep::Try(next as usize)
    } else {
        FailoverStep::AllFailed
    }
}

/// With no node there is nothing to try; otherwise the client tries the
/// nodes one by one, `Try(next)` while `next` is a node, and reports that all
/// failed once every node was tried.
pub proof fn lemma_step_at(next: nat, total: nat)
    ensures
        total == 0 ==> step_at(next, total) == FailoverStep::NoNodes,
        next < total ==> step_at(next, total) == FailoverStep::Try(next as usize),
        0 < total <= next ==> step_at(next, total) == FailoverStep::AllFailed,
{
}

/// Where a request ends when the nodes from `next` on answer as `answers`
/// says (`true` for success): at the first node from `next` on that
/// answers with success, or nowhere.
pub open spec fn failover_result(next: nat, total: nat, answers: Seq<bool>) -> FailoverStep
    decreases total - next,
{
    if total == 0 {
        FailoverStep::NoNodes
    } else if next >= total {
        FailoverStep::AllFailed
    } else if next < answers.len() && answers[next as int] {
        FailoverStep::Succeeded(next as usize)
    } else {
        failover_result(next + 1, total, answers)
    }
}

/// The fail-over state of one request over `total` nodes.
pub struct Failover {
    next: usize,
    total: usize,
}

impl Failover {
    /// The index of the node to try next.
    pub closed spec fn next(&self) -> nat {
        self.next as nat
    }

    /// The number of nodes.
    pub closed spec fn total(&self) -> nat {
        self.total as nat
    }

    /// A request over `total` nodes, none tried yet.
    pub fn new(total: usize) -> (f: Failover)
        ensures
            f.next() == 0,
            f.total() == total,
    {
        Failover { next: 0, total }
    }

    /// The step to take now: try the next node, or report that there is no
    /// node or that all failed.
    pub fn current(&self) -> (step: FailoverStep)
        requires
            self.next() <= self.total(),
        ensures
            step == step_at(self.next(), self.total()),
            self.total() == 0 ==> step == FailoverStep::NoNodes,
            self.next() < self.total() ==> step == FailoverStep::Try(self.next() as usize),
            0 < self.total() <= self.next() ==> step == FailoverStep::AllFailed,
    {
        if self.total == 0 {
            FailoverStep::NoNodes
        } else if self.next < self.total {
            FailoverStep::Try(self.next)
        } else {
            FailoverStep::AllFailed
        }
    }

    /// Records whether the node just tried answered with success, and says
    /// what to do next: stop there, or go on to the following node.
    pub fn on_answer(&mut self, success: bool) -> (step: FailoverStep)
        requires
            old(self).next() < old(self).total(),
        ensures
            success ==> step == FailoverStep::Succeeded(old(self).next() as usize) && *final(self)
                == *old(self),
            !success ==> final(self).next() == old(self).next() + 1 && final(self).total() == old(
                self,
            ).total() && step == step_at(final(self).next(), final(self).total()),
    {
        if success {
            FailoverStep::Succeeded(self.next)
        } else {
            self.next = self.next + 1;
            self.current()
        }
    }
}

/// The client ends at the first node that answers with success: when it ends
/// with `Succeeded(i)`, node `i` answered with success and every node tried
/// before it failed; when it ends with `AllFailed`, every node failed.
pub proof fn lemma_failover_first_success(next: nat, total: nat, answers: Seq<bool>)
    requires
        0 < total <= usize::MAX,
        next <= total,
        answers.len() >= total,
    ensures
        failover_result(next, total, answers) matches FailoverStep::Succeeded(i) ==> next <= i
            < total && answers[i as int] && forall|j: int| next <= j < i ==> !answers[j],
        failover_result(next, total, answers) == FailoverStep::AllFailed <==> forall|j: int|
            next <= j < total ==> !answers[j],
        failover_result(next, total, answers) is Succeeded || failover_result(next, total, answers)
            == FailoverStep::AllFailed,
    decreases total - next,
{
    if next < total && !answers[next as int] {
        lemma_failover_first_success(next + 1, total, answers);
    }
}

/// Each answer the client records keeps it on the way to `failover_result`:
/// a success ends the request there, and after a failure the next step either
/// tries the following node, from which the request ends in the same place,
/// or reports that all failed, which is where the request ends.
pub proof fn lemma_failover_step(next: nat, total: nat, answers: Seq<bool>)
    requires
        next < total <= usize::MAX,
        answers.len() >= total,
    ensures
        answers[next as int] ==> failover_result(next, total, answers) == FailoverStep::Succeeded(
            next as usize,
        ),
        !answers[next as int] ==> match step_at(next + 1, total) {
            FailoverStep::Try(n) => n == next + 1 && failover_result(next, total, answers)
                == failover_result(next + 1, total, answers),
            other => other == FailoverStep::AllFailed && failover_result(next, total, answers)
                == FailoverStep::AllFailed,
        },
{
    if !answers[next as int] && next + 1 >= total {
        assert(failover_result(next + 1, total, answers) == FailoverStep::AllFailed);
    }
}

/// The indices of the nodes that answered, in order.
pub open spec fn answered(answers: Seq<bool>) -> Seq<usize>
    decreases answers.len(),
{
    if answers.len() == 0 {
        Seq::empty()
    } else if answers.last() {
        answered(answers.drop_last()).push((answers.len() - 1) as usize)
    } else {
        answered(answers.drop_last())
    }
}

/// The nodes listed as answered are exactly those that answered: an index
/// is listed if and only if its answer is `true`, and the list is strictly
/// increasing, so that each such node is listed once, in order.
pub proof fn lemma_answered(answers: Seq<bool>)
    requires
        answers.len() <= usize::MAX,
    ensures
        forall|i: int|
            0 <= i < answers.len() ==> (answered(answers).contains(i as usize) <==> answers[i]),
        forall|k: int|
            0 <= k < answered(answers).len() ==> #[trigger] answered(answers)[k] < answers.len()
                && answers[answered(answers)[k] as int],
        forall|k: int, l: int|
            0 <= k < l < answered(answers).len() ==> #[trigger] answered(answers)[k]
                < #[trigger] answered(answers)[l],
    decreases answers.len(),
{
    if answers.len() > 0 {
        let d = answers.drop_last();
        lemma_answered(d);
        let r = answered(d);
        let n = answers.len() - 1;
        assert forall|i: int| 0 <= i < answers.len() implies (answered(answers).contains(
            i as usize,
        ) <==> answers[i]) by {
            if i < n {
                assert(answers[i] == d[i]);
                if answers.last() {
                    if r.contains(i as usize) {
                        let k = choose|k: int| 0 <= k < r.len() && r[k] == i as usize;
                        assert(r.push(n as usize)[k] == i as usize);
                    }
                    let rp = r.push(n as usize);
                    if rp.contains(i as usize) {
                        let k = choose|k: int| 0 <= k < rp.len() && rp[k] == i as usize;
                        if k == r.len() {
                            assert(i == n);
                        } else {
                            assert(r[k] == i as usize);
                        }
                    }
                }
            } else {
                if answers.last() {
                    assert(r.push(n as usize)[r.len() as int] == n as usize);
                } else {
                    if r.contains(n as usize) {
                        let k = choose|k: int| 0 <= k < r.len() && r[k] == n as usize;
                        assert(r[k] < d.len());
                    }
                }
            }
        }
        if answers.last() {
            assert forall|k: int| 0 <= k < answered(answers).len() implies #[trigger] answered(
                answers,
            )[k] < answers.len() && answers[answered(answers)[k] as int] by {
                if k < r.len() {
                    assert(answered(answers)[k] == r[k]);
                    assert(answers[r[k] as int] == d[r[k] as int]);
                }
            }
            assert forall|k: int, l: int| 0 <= k < l < answered(answers).len() implies #[trigger] answered(
                answers,
            )[k] < #[trigger] answered(answers)[l] by {
                assert(answered(answers)[k] == r[k]);
                if l < r.len() {
                    assert(answered(answers)[l] == r[l]);
                }
            }
        } else {
            assert forall|k: int| 0 <= k < answered(answers).len() implies #[trigger] answered(
                answers,
            )[k] < answers.len() && answers[answered(answers)[k] as int] by {
                assert(answers[r[k] as int] == d[r[k] as int]);
            }
        }
    }
}

/// The indices of the nodes that answered a status request, in the order of
/// the nodes: what the client reports as the online nodes of the network.
pub fn responding_nodes(answers: &Vec<bool>) -> (online: Vec<usize>)
    ensures
        online@ == answered(answers@),
        forall|i: int|
            0 <= i < answers@.len() ==> (online@.contains(i as usize) <==> answers@[i]),
        forall|k: int, l: int| 0 <= k < l < online@.len() ==> #[trigger] online@[k] < #[trigger] online@[l],
{
    let n: usize = answers.len();
    proof {
        lemma_answered(answers@);
    }
    let mut online: Vec<usize> = Vec::new();
    let mut i: usize = 0;
    assert(answers@.take(0) =~= Seq::<bool>::empty());
    while i < n
        invariant
            n == answers@.len(),
            i <= n,
            online@ == answered(answers@.take(i as int)),
        decreases n - i,
    {
        assert(answers@.take(i + 1).drop_last() =~= answers@.take(i as int));
        if answers[i] {
            online.push(i);
        }
        i = i + 1;
    }
    assert(answers@.take(n as int) =~= answers@);
    online
}

} // verus!
