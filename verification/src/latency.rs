//! When transactions were first seen, and how long they took since.
//!
//! Times are plain numbers read from a clock by the caller; this module
//! never reads a clock itself.

use crate::stat::{lemma_observe_all_concat, observe_all, PreciseHistogram};
use crate::types::TransactionId;
use std::collections::HashMap;
use vstd::prelude::*;

verus! {

broadcast use vstd::std_specs::hash::group_hash_axioms;

/// The time at which each transaction was first seen.
pub struct TransactionTimes {
    times: HashMap<TransactionId, u64>,
}

impl View for TransactionTimes {
    type V = Map<TransactionId, u64>;

    closed spec fn view(&self) -> Map<TransactionId, u64> {
        self.times@
    }
}

/// The time from `since` to `now`; zero where the clock went backwards.
pub open spec fn elapsed(now: u64, since: u64) -> u64 {
    if now >= since {
        (now - since) as u64
    } else {
        0
    }
}

/// For each of `ids` whose time is known, in order, the time it took until `now`.
pub open spec fn latencies(ids: Seq<TransactionId>, times: Map<TransactionId, u64>, now: u64) -> Seq<
    u64,
>
    decreases ids.len(),
{
    if ids.len() == 0 {
        Seq::empty()
    } else {
        let before = latencies(ids.drop_last(), times, now);
        if times.contains_key(ids.last()) {
            before.push(elapsed(now, times[ids.last()]))
        } else {
            before
        }
    }
}

/// The latencies of two lists laid end to end are those of the first, then
/// those of the second.
pub proof fn lemma_latencies_concat(
    a: Seq<TransactionId>,
    b: Seq<TransactionId>,
    times: Map<TransactionId, u64>,
    now: u64,
)
    ensures
        latencies(a + b, times, now) == latencies(a, times, now) + latencies(b, times, now),
    decreases b.len(),
{
    if b.len() == 0 {
        assert(a + b =~= a);
        assert(latencies(a, times, now) + latencies(b, times, now) =~= latencies(a, times, now));
    } else {
        lemma_latencies_concat(a, b.drop_last(), times, now);
        assert((a + b).drop_last() =~= a + b.drop_last());
        assert((a + b).last() == b.last());
        let x = latencies(a, times, now);
        let y = latencies(b.drop_last(), times, now);
        if times.contains_key(b.last()) {
            assert((x + y).push(elapsed(now, times[b.last()])) =~= x + y.push(
                elapsed(now, times[b.last()]),
            ));
        }
    }
}

impl TransactionTimes {
    /// No transaction has been seen.
    pub fn new() -> (r: Self)
        ensures
            r@ == Map::<TransactionId, u64>::empty(),
    {
        TransactionTimes { times: HashMap::new() }
    }

    /// Notes that `id` was seen at `time`. A time noted earlier is replaced.
    pub fn insert(&mut self, id: TransactionId, time: u64)
        ensures
            final(self)@ == old(self)@.insert(id, time),
    {
        self.times.insert(id, time);
    }

    /// The time at which `id` was seen, if it was.
    pub fn get(&self, id: TransactionId) -> (r: Option<u64>)
        ensures
            r == if self@.contains_key(id) {
                Some(self@[id])
            } else {
                None
            },
    {
        match self.times.get(&id) {
            Some(t) => Some(*t),
            None => None,
        }
    }
}

/// Observes, for each of `ids` whose time is known, the time it took until `now`.
pub fn observe_latencies(
    histogram: &mut PreciseHistogram,
    ids: &Vec<TransactionId>,
    times: &TransactionTimes,
    now: u64,
)
    requires
        old(histogram).wf(),
    ensures
        final(histogram).wf(),
        final(histogram)@ == observe_all(old(histogram)@, latencies(ids@, times@, now)),
{
    let ghost start = histogram@;
    let mut i: usize = 0;
    proof {
        assert(start.points + Seq::<u64>::empty() =~= start.points);
    }
    while i < ids.len()
        invariant
            i <= ids.len(),
            histogram.wf(),
            histogram@ == observe_all(start, latencies(ids@.take(i as int), times@, now)),
        decreases ids.len() - i,
    {
        let ghost done = latencies(ids@.take(i as int), times@, now);
        proof {
            assert(ids@.take(i as int + 1).drop_last() == ids@.take(i as int));
            assert(ids@.take(i as int + 1).last() == ids@[i as int]);
        }
        match times.get(ids[i]) {
            Some(since) => {
                let point = if now >= since {
                    now - since
                } else {
                    0
                };
                histogram.observe(point);
                proof {
                    lemma_observe_all_concat(start, done, seq![point]);
                    assert(done + seq![point] =~= done.push(point));
                }
            },
            None => {},
        }
        i += 1;
    }
    proof {
        assert(ids@.take(i as int) == ids@);
    }
}

} // verus!
