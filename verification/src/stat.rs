//! A histogram that keeps every observed point, for exact percentiles.
//!
//! Points are observed directly, or sent from other threads through a
//! [`HistogramSender`] and picked up the next time percentiles are asked for.

use tokio::sync::mpsc::{UnboundedReceiver, UnboundedSender};
use vstd::prelude::*;

verus! {

/// tokio's `UnboundedReceiver`, the receiving end of a channel without a
/// bound. Nothing inside it is looked at here.
#[verifier::external_type_specification]
#[verifier::external_body]
#[verifier::reject_recursive_types(T)]
pub struct ExUnboundedReceiver<T>(UnboundedReceiver<T>);

/// tokio's `UnboundedSender`, a sending end of a channel without a
/// bound. Nothing inside it is looked at here.
#[verifier::external_type_specification]
#[verifier::external_body]
#[verifier::reject_recursive_types(T)]
pub struct ExUnboundedSender<T>(UnboundedSender<T>);

/// tokio's `Clone` for `UnboundedSender`: another sender into the same
/// channel. Nothing is claimed of it.
pub assume_specification<T>[ <UnboundedSender<T> as Clone>::clone ](
    sender: &UnboundedSender<T>,
) -> (r: UnboundedSender<T>)
;

/// What a histogram holds, as plain values.
pub struct HistogramView {
    /// The points, in the order they are kept.
    pub points: Seq<u64>,
    /// The sum of the points that were observed directly.
    pub sum: nat,
}

/// The points come in ascending order.
pub open spec fn ascending(s: Seq<u64>) -> bool {
    forall|i: int, j: int| 0 <= i <= j < s.len() ==> s[i] <= s[j]
}

/// The position, among `len` ascending points, of the point below which
/// `pct1000` thousandths of the points lie.
pub open spec fn percentile_index(len: nat, pct1000: nat) -> nat {
    len * pct1000 / 1000
}

/// Whether `values` holds, for each entry of `pct`, the point of `points` at
/// that entry's percentile position.
pub open spec fn percentiles_of(points: Seq<u64>, pct: Seq<usize>, values: Seq<u64>) -> bool {
    &&& values.len() == pct.len()
    &&& forall|i: int|
        0 <= i < pct.len() ==> #[trigger] values[i] == points[percentile_index(
            points.len(),
            pct[i] as nat,
        ) as int]
}

/// The sum of a sequence of points.
pub open spec fn total(points: Seq<u64>) -> nat
    decreases points.len(),
{
    if points.len() == 0 {
        0
    } else {
        total(points.drop_last()) + points.last() as nat
    }
}

/// A histogram after `points` were observed one after the other.
pub open spec fn observe_all(h: HistogramView, points: Seq<u64>) -> HistogramView {
    HistogramView { points: h.points + points, sum: h.sum + total(points) }
}

/// The sum of two sequences laid end to end is the sum of their sums.
pub proof fn lemma_total_concat(a: Seq<u64>, b: Seq<u64>)
    ensures
        total(a + b) == total(a) + total(b),
    decreases b.len(),
{
    if b.len() == 0 {
        assert(a + b =~= a);
    } else {
        lemma_total_concat(a, b.drop_last());
        assert((a + b).drop_last() =~= a + b.drop_last());
        assert((a + b).last() == b.last());
    }
}

/// Observing `a` and then `b` is observing `a + b`.
pub proof fn lemma_observe_all_concat(h: HistogramView, a: Seq<u64>, b: Seq<u64>)
    ensures
        observe_all(observe_all(h, a), b) == observe_all(h, a + b),
{
    lemma_total_concat(a, b);
    assert((h.points + a) + b =~= h.points + (a + b));
}

/// Keeps all observed points, and their sum.
pub struct PreciseHistogram {
    points: Vec<u64>,
    sum: u128,
    receiver: UnboundedReceiver<u64>,
}

/// Hands points to a [`PreciseHistogram`] from elsewhere.
#[derive(Clone)]
pub struct HistogramSender {
    sender: UnboundedSender<u64>,
}

impl View for PreciseHistogram {
    type V = HistogramView;

    closed spec fn view(&self) -> HistogramView {
        HistogramView { points: self.points@, sum: self.sum as nat }
    }
}

/// Makes a channel without a bound, by tokio's `mpsc::unbounded_channel`.
/// Nothing is claimed of the two ends.
#[verifier::external_body]
fn unbounded_channel() -> (r: (UnboundedSender<u64>, UnboundedReceiver<u64>)) {
    tokio::sync::mpsc::unbounded_channel()
}

/// Takes the next waiting point from the channel, by tokio's
/// `UnboundedReceiver::try_recv`; `None` when no point waits or all senders are
/// gone. What comes depends on the senders, so nothing is claimed of it.
#[verifier::external_body]
fn try_receive(receiver: &mut UnboundedReceiver<u64>) -> (r: Option<u64>) {
    receiver.try_recv().ok()
}

/// Sorts in place, by std's `sort` on slices: afterwards the same points
/// stand in ascending order.
#[verifier::external_body]
fn sort_points(points: &mut Vec<u64>)
    ensures
        ascending(final(points)@),
        final(points)@.to_multiset() == old(points)@.to_multiset(),
{
    points.sort();
}

/// A histogram without points, and a sender that feeds it.
pub fn histogram() -> (r: (PreciseHistogram, HistogramSender))
    ensures
        r.0.wf(),
        r.0@.points == Seq::<u64>::empty(),
        r.0@.sum == 0,
{
    let (sender, receiver) = unbounded_channel();
    let sender = HistogramSender { sender };
    let histogram = PreciseHistogram { points: Vec::new(), sum: 0, receiver };
    (histogram, sender)
}

impl HistogramSender {
    /// Sends `t` to the histogram, by tokio's `UnboundedSender::send`. A point
    /// sent after the histogram is gone is dropped.
    #[verifier::external_body]
    pub fn observe(&self, t: u64) {
        self.sender.send(t).ok();
    }
}

impl PreciseHistogram {
    /// The invariant of the histogram: the sum is that of at most as many
    /// points as are kept.
    pub closed spec fn wf(&self) -> bool {
        self.sum <= self.points@.len() * 0xffff_ffff_ffff_ffff
    }

    /// Number of points kept.
    pub fn len(&self) -> (r: usize)
        ensures
            r == self@.points.len(),
    {
        self.points.len()
    }

    /// The points kept, in order.
    pub fn points(&self) -> (r: &Vec<u64>)
        ensures
            r@ == self@.points,
    {
        &self.points
    }

    /// Adds a point.
    pub fn observe(&mut self, point: u64)
        requires
            old(self).wf(),
        ensures
            final(self).wf(),
            final(self)@.points == old(self)@.points.push(point),
            final(self)@.sum == old(self)@.sum + point,
            final(self)@ == observe_all(old(self)@, seq![point]),
    {
        proof {
            assert(seq![point].drop_last() =~= Seq::<u64>::empty());
            assert(total(seq![point]) == point) by {
                reveal_with_fuel(total, 2);
            }
            assert(old(self)@.points + seq![point] =~= old(self)@.points.push(point));
        }
        assert(self.points.len() <= usize::MAX <= 0xffff_ffff_ffff_ffff);
        self.points.push(point);
        self.sum = self.sum + point as u128;
    }

    /// The sum of the directly observed points divided by the number of
    /// points kept; `None` without points.
    pub fn avg(&self) -> (r: Option<u64>)
        requires
            self.wf(),
        ensures
            match r {
                None => self@.points.len() == 0,
                Some(a) => self@.points.len() > 0 && a == self@.sum / self@.points.len(),
            },
    {
        if self.points.len() == 0 {
            return None;
        }
        let n = self.points.len() as u128;
        let a = self.sum / n;
        proof {
            assert(a <= u64::MAX) by (nonlinear_arith)
                requires
                    a == self.sum / n,
                    n > 0,
                    self.sum <= n * 0xffff_ffff_ffff_ffff,
            ;
        }
        Some(a as u64)
    }

    /// Picks up the points that senders have handed over since the last
    /// time. They are appended to the points kept; the sum stays.
    pub fn receive_all(&mut self)
        requires
            old(self).wf(),
        ensures
            final(self).wf(),
            old(self)@.points.is_prefix_of(final(self)@.points),
            final(self)@.sum == old(self)@.sum,
    {
        let ghost start = self.points@;
        while self.points.len() < usize::MAX
            invariant
                self.wf(),
                start.is_prefix_of(self.points@),
                self.sum == old(self).sum,
            decreases usize::MAX - self.points.len(),
        {
            match try_receive(&mut self.receiver) {
                Some(d) => {
                    self.receive(d);
                },
                None => {
                    break ;
                },
            }
        }
    }

    /// Sorts the points kept and reads off percentiles, each given in
    /// thousandths. `None` without points.
    pub fn sorted_percentiles(&mut self, pct: &Vec<usize>) -> (r: Option<Vec<u64>>)
        requires
            old(self).wf(),
            forall|i: int| 0 <= i < pct@.len() ==> pct@[i] < 1000,
        ensures
            final(self).wf(),
            final(self)@.sum == old(self)@.sum,
            ascending(final(self)@.points),
            final(self)@.points.to_multiset() == old(self)@.points.to_multiset(),
            match r {
                None => old(self)@.points.len() == 0,
                Some(values) => old(self)@.points.len() > 0 && percentiles_of(
                    final(self)@.points,
                    pct@,
                    values@,
                ),
            },
    {
        let ghost before = self.points@;
        sort_points(&mut self.points);
        proof {
            before.to_multiset_ensures();
            self.points@.to_multiset_ensures();
        }
        if self.points.len() == 0 {
            return None;
        }
        let mut result: Vec<u64> = Vec::new();
        let mut i: usize = 0;
        while i < pct.len()
            invariant
                i <= pct.len(),
                self.points@.len() > 0,
                forall|k: int| 0 <= k < pct@.len() ==> pct@[k] < 1000,
                result@.len() == i,
                forall|k: int|
                    0 <= k < i ==> #[trigger] result@[k] == self.points@[percentile_index(
                        self.points@.len(),
                        pct@[k] as nat,
                    ) as int],
            decreases pct.len() - i,
        {
            let index = self.pct1000_index(pct[i]);
            result.push(self.points[index]);
            i += 1;
        }
        Some(result)
    }

    /// Picks up the points handed over by senders, then sorts all points
    /// and reads off percentiles, each given in thousandths. `None` without
    /// points.
    pub fn pcts(&mut self, pct: &Vec<usize>) -> (r: Option<Vec<u64>>)
        requires
            old(self).wf(),
            forall|i: int| 0 <= i < pct@.len() ==> pct@[i] < 1000,
        ensures
            final(self).wf(),
            final(self)@.sum == old(self)@.sum,
            ascending(final(self)@.points),
            old(self)@.points.to_multiset().subset_of(final(self)@.points.to_multiset()),
            match r {
                None => final(self)@.points.len() == 0,
                Some(values) => final(self)@.points.len() > 0 && percentiles_of(
                    final(self)@.points,
                    pct@,
                    values@,
                ),
            },
    {
        let ghost start = self.points@;
        self.receive_all();
        let ghost mid = self.points@;
        let r = self.sorted_percentiles(pct);
        proof {
            mid.to_multiset_ensures();
            self.points@.to_multiset_ensures();
            lemma_prefix_multiset(start, mid);
        }
        r
    }

    /// One percentile, given in thousandths: see [`PreciseHistogram::pcts`].
    pub fn pct(&mut self, pct1000: usize) -> (r: Option<u64>)
        requires
            old(self).wf(),
            pct1000 < 1000,
        ensures
            final(self).wf(),
            final(self)@.sum == old(self)@.sum,
            ascending(final(self)@.points),
            old(self)@.points.to_multiset().subset_of(final(self)@.points.to_multiset()),
            match r {
                None => final(self)@.points.len() == 0,
                Some(p) => final(self)@.points.len() > 0 && p == final(self)@.points[percentile_index(
                    final(self)@.points.len(),
                    pct1000 as nat,
                ) as int],
            },
    {
        let mut one: Vec<usize> = Vec::new();
        one.push(pct1000);
        match self.pcts(&one) {
            Some(values) => {
                assert(values@[0] == self@.points[percentile_index(
                    self@.points.len(),
                    one@[0] as nat,
                ) as int]);
                Some(values[0])
            },
            None => None,
        }
    }

    fn pct1000_index(&self, pct1000: usize) -> (r: usize)
        requires
            pct1000 < 1000,
            self.points@.len() > 0,
        ensures
            r == percentile_index(self.points@.len(), pct1000 as nat),
            r < self.points@.len(),
    {
        let len = self.points.len() as u128;
        let pct = pct1000 as u128;
        assert(len * pct <= len * 999 && len * pct >= 0) by (nonlinear_arith)
            requires
                pct <= 999,
                len >= 0,
        ;
        let scaled = len * pct / 1000;
        scaled as usize
    }

    /// Takes one point that a sender has handed over: it is appended to
    /// the points kept; the sum, which counts the directly observed points
    /// only, stays.
    pub fn receive(&mut self, point: u64)
        requires
            old(self).wf(),
        ensures
            final(self).wf(),
            final(self)@.points == old(self)@.points.push(point),
            final(self)@.sum == old(self)@.sum,
    {
        self.points.push(point);
    }
}

/// A sequence holds everything its prefix holds.
pub proof fn lemma_prefix_multiset(a: Seq<u64>, b: Seq<u64>)
    requires
        a.is_prefix_of(b),
    ensures
        a.to_multiset().subset_of(b.to_multiset()),
{
    let rest = b.subrange(a.len() as int, b.len() as int);
    assert(b =~= a + rest);
    vstd::seq_lib::lemma_multiset_commutative(a, rest);
}

} // verus!
