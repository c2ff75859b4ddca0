//! How a node retries a request to a peer: a request that could not be
//! delivered is tried again after a pause that doubles each time, at most
//! `MAX_RETRIES` times in all; a request that the peer answered with an error
//! is not tried again.

use vstd::prelude::*;

verus! {

/// How many times in all a request is tried.
pub const MAX_RETRIES: u32 = 3;

/// The pause before the first retry.
pub const INITIAL_BACKOFF_MS: u64 = 100;

/// What came of one try of a request.
#[derive(Clone, Copy, Debug, PartialEq, Eq, Structural)]
pub enum AttemptOutcome {
    /// The peer answered with success.
    Delivered,
    /// The peer answered, with an error or with a body that could not be read.
    Rejected,
    /// The peer could not be reached.
    Unreachable,
}

/// What to do after a try.
#[derive(Clone, Copy, Debug, PartialEq, Eq, Structural)]
pub enum RetryStep {
    /// The request succeeded.
    Done,
    /// The peer refused it; it is not tried again.
    Failed,
    /// It could not be delivered in `MAX_RETRIES` tries; it is given up.
    Exhausted,
    /// Wait this many milliseconds, then try again.
    RetryAfter(u64),
}

/// The pause before the retry that follows `retries` failed deliveries:
/// `100 * 2^retries` milliseconds.
pub open spec fn backoff_after(retries: nat) -> nat
    decreases retries,
{
    if retries == 0 {
        INITIAL_BACKOFF_MS as nat
    } else {
        2 * backoff_after((retries - 1) as nat)
    }
}

/// One step of the policy: the count of failed deliveries after a try with
/// outcome `o`, and what to do next.
pub open spec fn retry_step(retries: nat, o: AttemptOutcome) -> (nat, RetryStep) {
    match o {
        AttemptOutcome::Delivered => (retries, RetryStep::Done),
        AttemptOutcome::Rejected => (retries, RetryStep::Failed),
        AttemptOutcome::Unreachable => if retries + 1 >= MAX_RETRIES {
            ((retries + 1) as nat, RetryStep::Exhausted)
        } else {
            ((retries + 1) as nat, RetryStep::RetryAfter(backoff_after(retries) as u64))
        },
    }
}

/// The steps that the policy takes for the outcomes `outcomes` of successive
/// tries, from `retries` failed deliveries on, up to the first step that ends
/// the request.
pub open spec fn retry_run(retries: nat, outcomes: Seq<AttemptOutcome>) -> Seq<RetryStep>
    decreases outcomes.len(),
{
    if outcomes.len() == 0 {
        Seq::empty()
    } else {
        let (next, step) = retry_step(retries, outcomes[0]);
        if step is RetryAfter {
            seq![step] + retry_run(next, outcomes.drop_first())
        } else {
            seq![step]
        }
    }
}

/// What one try does to a request: a delivered try ends it with `Done` and a
/// refused one with `Failed`, whatever came before, and neither counts as a
/// failed delivery; an undelivered try counts one more, and gives the request
/// up at the `MAX_RETRIES`-th, or else waits `100 * 2^k` milliseconds, `k`
/// being the failed deliveries before it.
pub proof fn lemma_retry_step(retries: nat)
    ensures
        retry_step(retries, AttemptOutcome::Delivered) == (retries, RetryStep::Done),
        retry_step(retries, AttemptOutcome::Rejected) == (retries, RetryStep::Failed),
        retry_step(retries, AttemptOutcome::Unreachable).0 == retries + 1,
        retry_step(retries, AttemptOutcome::Unreachable).1 == RetryStep::Exhausted <==> retries + 1
            >= MAX_RETRIES,
        retries + 1 < MAX_RETRIES ==> retry_step(retries, AttemptOutcome::Unreachable).1
            == RetryStep::RetryAfter(backoff_after(retries) as u64),
        backoff_after(0) == 100,
        backoff_after(retries + 1) == 2 * backoff_after(retries),
{
}

/// The retry state of one request.
pub struct Retry {
    retries: u32,
    backoff_ms: u64,
}

impl Retry {
    /// How many tries of the request could not be delivered so far.
    pub closed spec fn retries(&self) -> nat {
        self.retries as nat
    }

    /// The request may still be tried: fewer than `MAX_RETRIES` deliveries
    /// have failed.
    pub closed spec fn active(&self) -> bool {
        &&& self.retries < MAX_RETRIES
        &&& self.backoff_ms == backoff_after(self.retries as nat)
    }

    /// The state of a request not tried yet.
    pub fn new() -> (r: Retry)
        ensures
            r.retries() == 0,
            r.active(),
    {
        Retry { retries: 0, backoff_ms: INITIAL_BACKOFF_MS }
    }

    /// Records the outcome of a try and says what to do next, as
    /// `retry_step` does.
    pub fn on_attempt(&mut self, outcome: AttemptOutcome) -> (step: RetryStep)
        requires
            old(self).active(),
        ensures
            (final(self).retries(), step) == retry_step(old(self).retries(), outcome),
            step is RetryAfter ==> final(self).active(),
            outcome == AttemptOutcome::Delivered ==> step == RetryStep::Done,
            outcome == AttemptOutcome::Rejected ==> step == RetryStep::Failed,
            outcome == AttemptOutcome::Unreachable ==> final(self).retries() == old(self).retries()
                + 1,
            step is Done || step is Failed ==> *final(self) == *old(self),
    {
        match outcome {
            AttemptOutcome::Delivered => RetryStep::Done,
            AttemptOutcome::Rejected => RetryStep::Failed,
            AttemptOutcome::Unreachable => {
                self.retries = self.retries + 1;
                if self.retries >= MAX_RETRIES {
                    RetryStep::Exhausted
                } else {
                    let wait = self.backoff_ms;
                    proof {
                        assert(backoff_after(0) == 100);
                        assert(backoff_after(1) == 200);
                        assert(backoff_after(2) == 400);
                    }
                    self.backoff_ms = self.backoff_ms * 2;
                    RetryStep::RetryAfter(wait)
                }
            },
        }
    }
}

/// A request is tried at most `MAX_RETRIES` times, the pause before each
/// retry doubles from `INITIAL_BACKOFF_MS` on, and only the last step can end
/// the request.
pub proof fn lemma_retry_run_bounded(retries: nat, outcomes: Seq<AttemptOutcome>)
    requires
        retries < MAX_RETRIES,
    ensures
        retry_run(retries, outcomes).len() <= MAX_RETRIES - retries,
        retry_run(retries, outcomes).len() <= outcomes.len(),
        forall|k: int|
            0 <= k < retry_run(retries, outcomes).len() - 1 ==> #[trigger] retry_run(
                retries,
                outcomes,
            )[k] == RetryStep::RetryAfter(backoff_after((retries + k) as nat) as u64),
        outcomes.len() >= MAX_RETRIES - retries ==> !(retry_run(retries, outcomes).last() is RetryAfter),
    decreases outcomes.len(),
{
    if outcomes.len() > 0 {
        let (next, step) = retry_step(retries, outcomes[0]);
        if step is RetryAfter {
            let tail = outcomes.drop_first();
            lemma_retry_run_bounded(next, tail);
            let r = retry_run(retries, outcomes);
            let rt = retry_run(next, tail);
            assert(r =~= seq![step] + rt);
            assert forall|k: int| 0 <= k < r.len() - 1 implies #[trigger] r[k] == RetryStep::RetryAfter(
                backoff_after((retries + k) as nat) as u64,
            ) by {
                if k > 0 {
                    assert(r[k] == rt[k - 1]);
                }
            }
            if outcomes.len() >= MAX_RETRIES - retries {
                assert(r.last() == rt.last());
            }
        }
    }
}

} // verus!
