//! The rendezvous of the worker threads at start-up: each arrival counts
//! down the workers still expected, and the last one to arrive releases the
//! others. The threads, the lock and the condition variable belong to the
//! program; this is the count they guard and the decision each arrival takes.
use vstd::prelude::*;

verus! {

/// What an arriving worker does.
#[derive(PartialEq, Eq, Structural, Debug, Clone, Copy)]
pub enum SyncAction {
    /// It was the last one: wake every waiting worker.
    NotifyAll,
    /// Others are still expected: wait to be woken.
    Wait,
}

/// The shared count of workers that have not arrived yet.
pub struct AsyncWorker {
    pub remaining: usize,
}

impl AsyncWorker {
    /// A rendezvous of `num` workers.
    pub fn new(num: usize) -> (r: Self)
        ensures
            r.remaining == num,
    {
        AsyncWorker { remaining: num }
    }

    /// One worker arrives: the count goes down by one, and the worker
    /// releases the others exactly when no other is still expected.
    pub fn sync(&mut self) -> (r: SyncAction)
        requires
            old(self).remaining > 0,
        ensures
            final(self).remaining == old(self).remaining - 1,
            r == (if final(self).remaining == 0 {
                SyncAction::NotifyAll
            } else {
                SyncAction::Wait
            }),
    {
        self.remaining = self.remaining - 1;
        if self.remaining == 0 {
            SyncAction::NotifyAll
        } else {
            SyncAction::Wait
        }
    }
}

/// The count and the actions of the workers after `k` arrivals at a
/// rendezvous of `n`, each arrival taken as [`AsyncWorker::sync`] takes it.
pub open spec fn arrivals(n: nat, k: nat) -> (nat, Seq<SyncAction>)
    decreases k,
{
    if k == 0 {
        (n, Seq::empty())
    } else {
        let (m, acts) = arrivals(n, (k - 1) as nat);
        let m2 = (m - 1) as nat;
        (
            m2,
            acts.push(
                if m2 == 0 {
                    SyncAction::NotifyAll
                } else {
                    SyncAction::Wait
                },
            ),
        )
    }
}

proof fn lemma_arrivals_prefix(n: nat, k: nat)
    requires
        k <= n,
    ensures
        arrivals(n, k).0 == n - k,
        arrivals(n, k).1.len() == k,
        forall|j: int| 0 <= j < k ==> (#[trigger] arrivals(n, k).1[j] == SyncAction::NotifyAll) == (j == n - 1),
    decreases k,
{
    if k > 0 {
        lemma_arrivals_prefix(n, (k - 1) as nat);
        let prev = arrivals(n, (k - 1) as nat).1;
        assert forall|j: int| 0 <= j < k implies (#[trigger] arrivals(n, k).1[j] == SyncAction::NotifyAll) == (j == n - 1) by {
            if j < k - 1 {
                assert(arrivals(n, k).1[j] == prev[j]);
            }
        }
    }
}

/// A call of [`AsyncWorker::sync`] (whose contract the arguments meet) is
/// the next arrival: after `k` of the `n` workers, it leaves the count and
/// takes the action of arrival `k`.
pub proof fn lemma_sync_arrival(n: nat, k: nat, before: nat, after: nat, r: SyncAction)
    requires
        k < n,
        before == arrivals(n, k).0,
        before > 0,
        after == before - 1,
        r == (if after == 0 {
            SyncAction::NotifyAll
        } else {
            SyncAction::Wait
        }),
    ensures
        after == arrivals(n, k + 1).0,
        r == arrivals(n, k + 1).1[k as int],
{
    lemma_arrivals_prefix(n, k);
}

/// Across the `n` arrivals at a rendezvous of `n` workers, exactly the last
/// one releases the others, every earlier one waits, and the count ends at
/// zero.
pub proof fn lemma_rendezvous(n: nat)
    requires
        n > 0,
    ensures
        arrivals(n, n).0 == 0,
        arrivals(n, n).1.len() == n,
        arrivals(n, n).1[n - 1] == SyncAction::NotifyAll,
        forall|j: int| 0 <= j < n - 1 ==> #[trigger] arrivals(n, n).1[j] == SyncAction::Wait,
{
    lemma_arrivals_prefix(n, n);
    assert forall|j: int| 0 <= j < n - 1 implies #[trigger] arrivals(n, n).1[j] == SyncAction::Wait by {
        assert((arrivals(n, n).1[j] == SyncAction::NotifyAll) == (j == n - 1));
    }
}

} // verus!
