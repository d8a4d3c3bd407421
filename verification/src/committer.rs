//! The commit rule: which leader blocks are final.
//!
//! Rounds are grouped into waves of a fixed length. Wave `w` (from 1 on) has
//! one leader, fixed by the committee and `w`; the leader's blocks of the
//! wave's first round are the candidates of the wave. A candidate is certified
//! directly when blocks of a quorum of authorities in the next round name it
//! as a parent. A wave without a directly certified candidate waits for the
//! next wave that has one. From that leader block the waiting waves are
//! settled going back in time: a wave's candidate is committed if the latest
//! leader block committed so far reaches it along parent links, and then takes
//! that block's place; the wave is skipped otherwise. Decisions come out in the
//! order of the waves and are never taken back.

use crate::block_store::{linked_at, top_round, BlockStore};
use crate::committee::{leader_of, quorum_of, Committee};
use crate::types::{AuthorityIndex, BlockReference, BlockView, RoundNumber};
use vstd::prelude::*;

verus! {

/// The number of rounds in a wave where none is asked for.
pub const DEFAULT_WAVE_LENGTH: u64 = 3;

/// What was decided for one wave.
#[derive(Clone, Copy, Debug, PartialEq, Eq, Structural)]
pub enum LeaderStatus {
    /// This block of the wave's leader is committed.
    Commit(BlockReference),
    /// The wave is passed over: no block of this leader in this round is committed.
    Skip(AuthorityIndex, RoundNumber),
}

/// Whether `authority` has a block in the round after `target`'s that names
/// `target` as a parent.
pub open spec fn voted(s: Seq<BlockView>, target: BlockReference, authority: AuthorityIndex) -> bool {
    exists|j: int|
        0 <= j < s.len() && (#[trigger] s[j]).reference.authority == authority
            && s[j].reference.round == target.round + 1 && s[j].includes.contains(target)
}

/// How many of the authorities below `n` have voted for `target`.
pub open spec fn support(s: Seq<BlockView>, target: BlockReference, n: nat) -> nat
    decreases n,
{
    if n == 0 {
        0
    } else {
        support(s, target, (n - 1) as nat) + if voted(s, target, (n - 1) as u64) {
            1nat
        } else {
            0nat
        }
    }
}

/// Whether a quorum of the committee has voted for `target`.
pub open spec fn certified(s: Seq<BlockView>, target: BlockReference, size: u64) -> bool {
    support(s, target, size as nat) >= quorum_of(size as nat)
}

/// Whether the block at position `i` is a candidate of wave `w`: a block of
/// the wave's leader in the wave's first round.
pub open spec fn is_candidate(s: Seq<BlockView>, size: u64, wave_length: u64, w: nat, i: int) -> bool {
    &&& 0 <= i < s.len()
    &&& s[i].reference.round == w * wave_length
    &&& s[i].reference.authority == leader_of(size, w as u64)
}

/// The positions of the blocks that a quorum has voted for.
pub open spec fn certified_at(s: Seq<BlockView>, size: u64) -> Set<int> {
    Set::new(|i: int| 0 <= i < s.len() && certified(s, s[i].reference, size))
}

/// The positions of the blocks that `anchor` reaches along parent links.
pub open spec fn reached_from(s: Seq<BlockView>, anchor: BlockReference) -> Set<int> {
    Set::new(|i: int| linked_at(s, anchor, Set::empty(), i))
}

/// Whether the block at `i` is preferred to the one at `j`: it has more
/// support, or as much and comes first (which, among the blocks of one author
/// and round, is the one with the lower digest).
pub open spec fn preferred(s: Seq<BlockView>, size: u64, i: int, j: int) -> bool {
    let a = support(s, s[i].reference, size as nat);
    let b = support(s, s[j].reference, size as nat);
    a > b || (a == b && i <= j)
}

/// Whether `i` is the position of the eligible candidate of wave `w` that
/// is preferred to all others.
pub open spec fn is_best(
    s: Seq<BlockView>,
    size: u64,
    wave_length: u64,
    w: nat,
    eligible: Set<int>,
    i: int,
) -> bool {
    &&& is_candidate(s, size, wave_length, w, i)
    &&& eligible.contains(i)
    &&& forall|j: int|
        is_candidate(s, size, wave_length, w, j) && #[trigger] eligible.contains(j) ==> preferred(
            s,
            size,
            i,
            j,
        )
}

/// The position of the preferred eligible candidate of wave `w`, if the
/// wave has an eligible candidate.
pub open spec fn pick(s: Seq<BlockView>, size: u64, wave_length: u64, w: nat, eligible: Set<int>) -> Option<
    int,
> {
    if exists|i: int| #[trigger] is_best(s, size, wave_length, w, eligible, i) {
        Some(choose|i: int| #[trigger] is_best(s, size, wave_length, w, eligible, i))
    } else {
        None
    }
}

/// The position of the directly certified leader block of wave `w`, if there is one.
pub open spec fn direct_leader(s: Seq<BlockView>, size: u64, wave_length: u64, w: nat) -> Option<int> {
    pick(s, size, wave_length, w, certified_at(s, size))
}

/// What is decided for wave `w` once the later leader block `anchor` is
/// committed: the preferred candidate that `anchor` reaches is committed; if it
/// reaches none, the wave is skipped.
pub open spec fn resolve(
    s: Seq<BlockView>,
    size: u64,
    wave_length: u64,
    w: nat,
    anchor: BlockReference,
) -> LeaderStatus {
    match pick(s, size, wave_length, w, reached_from(s, anchor)) {
        Some(i) => LeaderStatus::Commit(s[i].reference),
        None => LeaderStatus::Skip(leader_of(size, w as u64), (w * wave_length) as u64),
    }
}

/// The leader block from which the waves before `w` are settled, once
/// wave `w` was settled from `anchor`: the block committed for `w`, or
/// `anchor` again where `w` was skipped.
pub open spec fn next_anchor(status: LeaderStatus, anchor: BlockReference) -> BlockReference {
    match status {
        LeaderStatus::Commit(r) => r,
        LeaderStatus::Skip(_, _) => anchor,
    }
}

/// What is decided for the waves from `from` up to, not including, `to`
/// once the later leader block `anchor` is committed, in the order of the
/// waves. The last of them is settled from `anchor`, each one before from the
/// latest block committed after it.
pub open spec fn resolve_range(
    s: Seq<BlockView>,
    size: u64,
    wave_length: u64,
    from: nat,
    to: nat,
    anchor: BlockReference,
) -> Seq<LeaderStatus>
    decreases to,
{
    if to <= from {
        Seq::empty()
    } else {
        let last = resolve(s, size, wave_length, (to - 1) as nat, anchor);
        resolve_range(s, size, wave_length, from, (to - 1) as nat, next_anchor(last, anchor)).push(
            last,
        )
    }
}

/// The decisions reached by looking at the waves from `from` up to, not
/// including, `to`, in order, and the first wave still undecided after that.
pub open spec fn scan(s: Seq<BlockView>, size: u64, wave_length: u64, from: nat, to: nat) -> (Seq<
    LeaderStatus,
>, nat)
    decreases to,
{
    if to <= from {
        (Seq::empty(), from)
    } else {
        let (decided, pending) = scan(s, size, wave_length, from, (to - 1) as nat);
        match direct_leader(s, size, wave_length, (to - 1) as nat) {
            Some(i) => (
                (decided + resolve_range(
                    s,
                    size,
                    wave_length,
                    pending,
                    (to - 1) as nat,
                    s[i].reference,
                )).push(LeaderStatus::Commit(s[i].reference)),
                to,
            ),
            None => (decided, pending),
        }
    }
}

/// The last wave whose first round has been reached by some block.
pub open spec fn last_wave(s: Seq<BlockView>, wave_length: u64) -> nat {
    if wave_length == 0 {
        0
    } else {
        (top_round(s) / wave_length) as nat
    }
}

/// The decisions that the blocks `s` allow for the waves from `from` on, in order.
pub open spec fn decisions(s: Seq<BlockView>, size: u64, wave_length: u64, from: nat) -> Seq<LeaderStatus> {
    scan(s, size, wave_length, from, last_wave(s, wave_length) + 1).0
}

/// The preferred eligible candidate is the only one.
pub proof fn lemma_pick(s: Seq<BlockView>, size: u64, wave_length: u64, w: nat, eligible: Set<int>, i: int)
    requires
        is_best(s, size, wave_length, w, eligible, i),
    ensures
        pick(s, size, wave_length, w, eligible) == Some(i),
{
    let c = choose|c: int| #[trigger] is_best(s, size, wave_length, w, eligible, c);
    assert(eligible.contains(i) && eligible.contains(c));
    assert(preferred(s, size, i, c));
    assert(preferred(s, size, c, i));
}

/// Without an eligible candidate none is picked.
pub proof fn lemma_pick_none(s: Seq<BlockView>, size: u64, wave_length: u64, w: nat, eligible: Set<int>)
    requires
        forall|j: int| #[trigger] is_candidate(s, size, wave_length, w, j) ==> !eligible.contains(j),
    ensures
        pick(s, size, wave_length, w, eligible) is None,
{
}

fn has_voted(store: &BlockStore, target: &BlockReference, authority: AuthorityIndex) -> (r: bool)
    ensures
        r == voted(store@, *target, authority),
{
    let mut j: usize = 0;
    while j < store.len()
        invariant
            j <= store@.len(),
            forall|k: int|
                0 <= k < j ==> !((#[trigger] store@[k]).reference.authority == authority
                    && store@[k].reference.round == target.round + 1 && store@[k].includes.contains(
                    *target,
                )),
        decreases store@.len() - j,
    {
        let block = store.block_at(j);
        if block.author() == authority && block.round() > 0 && block.round() - 1 == target.round
            && block.includes_reference(target) {
            return true;
        }
        j += 1;
    }
    false
}

/// The number of committee members that have voted for `target`.
pub fn support_of(store: &BlockStore, target: &BlockReference, committee: &Committee) -> (r: u64)
    ensures
        r == support(store@, *target, committee.len() as nat),
{
    let size = committee.len();
    let mut count: u64 = 0;
    let mut a: u64 = 0;
    while a < size
        invariant
            a <= size,
            count <= a,
            count == support(store@, *target, a as nat),
        decreases size - a,
    {
        if has_voted(store, target, a) {
            count += 1;
        }
        a += 1;
    }
    count
}

/// Decides which leader blocks are committed, wave by wave.
pub struct Committer {
    committee: Committee,
    wave_length: u64,
    decided: Vec<LeaderStatus>,
}

impl View for Committer {
    type V = Seq<LeaderStatus>;

    /// The decisions so far: entry `i` is that of wave `i + 1`.
    closed spec fn view(&self) -> Seq<LeaderStatus> {
        self.decided@
    }
}

impl Committer {
    /// The committee whose quorums certify leaders.
    pub closed spec fn committee(&self) -> Committee {
        self.committee
    }

    /// The number of rounds in a wave.
    pub closed spec fn wave_length(&self) -> u64 {
        self.wave_length
    }

    /// The invariant of the committer: waves have at least two rounds, and
    /// the number of decisions stays below the number of waves there can be.
    pub open spec fn wf(&self) -> bool {
        self.wave_length() >= 2 && self@.len() <= u64::MAX / 2
    }

    /// A committer that has decided nothing. `None` where a wave would have
    /// fewer than two rounds.
    pub fn new(committee: Committee, wave_length: u64) -> (r: Option<Self>)
        ensures
            (wave_length < 2) == (r is None),
            r matches Some(c) ==> c.wf() && c@ == Seq::<LeaderStatus>::empty() && c.committee()
                == committee && c.wave_length() == wave_length,
    {
        if wave_length < 2 {
            None
        } else {
            Some(Committer { committee, wave_length, decided: Vec::new() })
        }
    }

    /// The decisions so far, in the order of the waves.
    pub fn committed_sequence(&self) -> (r: &Vec<LeaderStatus>)
        ensures
            r@ == self@,
    {
        &self.decided
    }

    /// The position of the preferred candidate of `wave`: among those that
    /// a quorum voted for where `direct` is set, among those flagged in `reach`
    /// otherwise.
    fn pick_leader(&self, store: &BlockStore, wave: u64, direct: bool, reach: &Vec<bool>) -> (r: Option<
        usize,
    >)
        requires
            !direct ==> reach@.len() == store@.len(),
        ensures
            match r {
                Some(i) => i < store@.len() && is_best(
                    store@,
                    self.committee().len(),
                    self.wave_length(),
                    wave as nat,
                    if direct {
                        certified_at(store@, self.committee().len())
                    } else {
                        Set::new(|k: int| 0 <= k < reach@.len() && reach@[k])
                    },
                    i as int,
                ),
                None => forall|j: int|
                    #[trigger] is_candidate(
                        store@,
                        self.committee().len(),
                        self.wave_length(),
                        wave as nat,
                        j,
                    ) ==> !(if direct {
                        certified_at(store@, self.committee().len())
                    } else {
                        Set::new(|k: int| 0 <= k < reach@.len() && reach@[k])
                    }).contains(j),
            },
    {
        let ghost s = store@;
        let ghost size = self.committee.len();
        let ghost wl = self.wave_length;
        let ghost eligible = if direct {
            certified_at(s, size)
        } else {
            Set::new(|k: int| 0 <= k < reach@.len() && reach@[k])
        };
        assert(size == self.committee().len() && wl == self.wave_length());
        let round = match wave.checked_mul(self.wave_length) {
            Some(round) => round,
            None => {
                assert forall|j: int| #[trigger] is_candidate(s, size, wl, wave as nat, j) implies false by {
                    assert(s[j].reference.round <= u64::MAX);
                }
                return None;
            },
        };
        let leader = self.committee.elect_leader(wave);
        let quorum = self.committee.quorum_threshold();
        let mut best: Option<usize> = None;
        let mut best_support: u64 = 0;
        let mut i: usize = 0;
        while i < store.len()
            invariant
                i <= store@.len(),
                s == store@,
                size == self.committee.len(),
                wl == self.wave_length,
                round == wave * wl,
                leader == leader_of(size, wave),
                quorum == quorum_of(size as nat),
                !direct ==> reach@.len() == s.len(),
                eligible == if direct {
                    certified_at(s, size)
                } else {
                    Set::new(|k: int| 0 <= k < reach@.len() && reach@[k])
                },
                match best {
                    Some(b) => b < i && is_candidate(s, size, wl, wave as nat, b as int)
                        && eligible.contains(b as int) && best_support == support(
                        s,
                        s[b as int].reference,
                        size as nat,
                    ) && forall|j: int|
                        0 <= j < i && is_candidate(s, size, wl, wave as nat, j)
                            && #[trigger] eligible.contains(j) ==> preferred(s, size, b as int, j),
                    None => forall|j: int|
                        0 <= j < i && #[trigger] is_candidate(s, size, wl, wave as nat, j)
                            ==> !eligible.contains(j),
                },
            decreases store@.len() - i,
        {
            let block = store.block_at(i);
            if block.round() == round && block.author() == leader {
                let reference = block.reference();
                let votes = support_of(store, &reference, &self.committee);
                let counts = if direct {
                    votes >= quorum
                } else {
                    reach[i]
                };
                assert(counts == eligible.contains(i as int));
                if counts {
                    match best {
                        Some(b) => {
                            if votes > best_support {
                                best = Some(i);
                                best_support = votes;
                            }
                        },
                        None => {
                            best = Some(i);
                            best_support = votes;
                        },
                    }
                }
            }
            i += 1;
        }
        proof {
            if best is None {
                assert forall|j: int| #[trigger] is_candidate(s, size, wl, wave as nat, j) implies !eligible.contains(
                    j,
                ) by {}
            }
        }
        best
    }

    /// Looks at the waves that are not decided yet, in order, and decides
    /// as many as the stored blocks allow. Returns the new decisions; they are
    /// appended to those made before, which stay as they are.
    pub fn try_commit(&mut self, store: &BlockStore) -> (r: Vec<LeaderStatus>)
        requires
            old(self).wf(),
        ensures
            final(self).wf(),
            final(self).committee() == old(self).committee(),
            final(self).wave_length() == old(self).wave_length(),
            r@ == decisions(
                store@,
                old(self).committee().len(),
                old(self).wave_length(),
                old(self)@.len() + 1,
            ),
            final(self)@ == old(self)@ + r@,
    {
        let ghost s = store@;
        let ghost size = self.committee.len();
        let ghost wl = self.wave_length;
        let ghost before = self.decided@;
        let from: u64 = self.decided.len() as u64 + 1;
        let top = store.highest_round_overall();
        let waves = top / self.wave_length;
        assert(waves <= u64::MAX / 2) by (nonlinear_arith)
            requires
                waves == top / self.wave_length,
                self.wave_length >= 2,
                top <= u64::MAX,
        ;
        let to: u64 = waves + 1;
        let none: Vec<BlockReference> = Vec::new();
        let unused: Vec<bool> = Vec::new();
        let mut out: Vec<LeaderStatus> = Vec::new();
        let mut pending: u64 = from;
        let mut w: u64 = from;
        proof {
            assert(before + out@ =~= before);
            assert(none@.to_set() =~= Set::<BlockReference>::empty());
        }
        if from >= to {
            return out;
        }
        while w < to
            invariant
                from <= pending <= w <= to,
                to <= u64::MAX / 2 + 1,
                s == store@,
                size == self.committee.len(),
                wl == self.wave_length,
                wl >= 2,
                self.committee == old(self).committee,
                none@.to_set() == Set::<BlockReference>::empty(),
                (out@, pending as nat) == scan(s, size, wl, from as nat, w as nat),
                self.decided@ == before + out@,
                out@.len() == pending - from,
                before.len() + 1 == from,
            decreases to - w,
        {
            match self.pick_leader(store, w, true, &unused) {
                Some(i) => {
                    let anchor = store.block_at(i).reference();
                    let reach = store.linked_flags(anchor, &none);
                    proof {
                        lemma_pick(s, size, wl, w as nat, certified_at(s, size), i as int);
                        assert(Set::new(|k: int| 0 <= k < reach@.len() && reach@[k]) =~= reached_from(
                            s,
                            anchor,
                        ));
                    }
                    let ghost start = out@;
                    let ghost whole = resolve_range(s, size, wl, pending as nat, w as nat, anchor);
                    let mut settled: Vec<LeaderStatus> = Vec::new();
                    let mut current = anchor;
                    let mut reach = reach;
                    let mut p: u64 = w;
                    proof {
                        assert(resolve_range(s, size, wl, pending as nat, p as nat, current) + settled@
                            =~= whole);
                    }
                    while p > pending
                        invariant
                            pending <= p <= w,
                            s == store@,
                            size == self.committee.len(),
                            wl == self.wave_length,
                            self.committee == old(self).committee,
                            none@.to_set() == Set::<BlockReference>::empty(),
                            reach@.len() == s.len(),
                            Set::new(|k: int| 0 <= k < reach@.len() && reach@[k]) == reached_from(
                                s,
                                current,
                            ),
                            w * wl <= u64::MAX,
                            whole == resolve_range(s, size, wl, pending as nat, p as nat, current)
                                + settled@,
                            out@ == start,
                            self.decided@ == before + out@,
                        decreases p,
                    {
                        p -= 1;
                        let ghost from_here = current;
                        let ghost done = settled@;
                        let status = match self.pick_leader(store, p, false, &reach) {
                            Some(c) => {
                                proof {
                                    lemma_pick(s, size, wl, p as nat, reached_from(s, current), c as int);
                                }
                                LeaderStatus::Commit(store.block_at(c).reference())
                            },
                            None => {
                                proof {
                                    assert(size == self.committee().len() && wl == self.wave_length());
                                    let flagged = Set::new(|k: int| 0 <= k < reach@.len() && reach@[k]);
                                    assert forall|j: int| #[trigger] is_candidate(s, size, wl, p as nat, j) implies !reached_from(
                                        s,
                                        current,
                                    ).contains(j) by {
                                        assert(!flagged.contains(j));
                                    }
                                    lemma_pick_none(s, size, wl, p as nat, reached_from(s, current));
                                    assert(p * wl <= w * wl) by (nonlinear_arith)
                                        requires
                                            p <= w,
                                            wl >= 0,
                                    ;
                                }
                                LeaderStatus::Skip(self.committee.elect_leader(p), p * self.wave_length)
                            },
                        };
                        assert(status == resolve(s, size, wl, p as nat, from_here));
                        match status {
                            LeaderStatus::Commit(r) => {
                                current = r;
                                reach = store.linked_flags(r, &none);
                                proof {
                                    assert(Set::new(|k: int| 0 <= k < reach@.len() && reach@[k])
                                        =~= reached_from(s, current));
                                }
                            },
                            LeaderStatus::Skip(_, _) => {},
                        }
                        settled.insert(0, status);
                        proof {
                            assert(current == next_anchor(status, from_here));
                            assert(resolve_range(s, size, wl, pending as nat, (p + 1) as nat, from_here)
                                == resolve_range(s, size, wl, pending as nat, p as nat, current).push(
                                status,
                            ));
                            assert(settled@ =~= seq![status] + done);
                            assert(resolve_range(s, size, wl, pending as nat, p as nat, current).push(
                                status,
                            ) + done =~= resolve_range(s, size, wl, pending as nat, p as nat, current)
                                + settled@);
                        }
                    }
                    proof {
                        assert(resolve_range(s, size, wl, pending as nat, pending as nat, current)
                            + settled@ =~= settled@);
                    }
                    let mut q: usize = 0;
                    while q < settled.len()
                        invariant
                            q <= settled.len(),
                            out@ == start + settled@.take(q as int),
                            self.decided@ == before + out@,
                            self.committee == old(self).committee,
                            size == self.committee.len(),
                            wl == self.wave_length,
                        decreases settled.len() - q,
                    {
                        out.push(settled[q]);
                        self.decided.push(settled[q]);
                        proof {
                            assert(out@ =~= start + settled@.take(q as int + 1));
                            assert(self.decided@ =~= before + out@);
                        }
                        q += 1;
                    }
                    proof {
                        assert(settled@.take(q as int) == settled@);
                    }
                    out.push(LeaderStatus::Commit(anchor));
                    self.decided.push(LeaderStatus::Commit(anchor));
                    proof {
                        lemma_resolve_range_len(s, size, wl, pending as nat, w as nat, anchor);
                        assert(self.decided@ =~= before + out@);
                    }
                    pending = w + 1;
                },
                None => {
                    proof {
                        assert(size == self.committee().len() && wl == self.wave_length());
                        assert forall|j: int| #[trigger] is_candidate(s, size, wl, w as nat, j) implies !certified_at(
                            s,
                            size,
                        ).contains(j) by {}
                        lemma_pick_none(s, size, wl, w as nat, certified_at(s, size));
                    }
                },
            }
            w += 1;
        }
        out
    }
}

/// Every wave from `from` up to `to` gets one decision.
pub proof fn lemma_resolve_range_len(
    s: Seq<BlockView>,
    size: u64,
    wave_length: u64,
    from: nat,
    to: nat,
    anchor: BlockReference,
)
    requires
        from <= to,
    ensures
        resolve_range(s, size, wave_length, from, to, anchor).len() == to - from,
    decreases to,
{
    if to > from {
        let last = resolve(s, size, wave_length, (to - 1) as nat, anchor);
        lemma_resolve_range_len(s, size, wave_length, from, (to - 1) as nat, next_anchor(last, anchor));
    }
}

/// What a scan leaves behind: one decision for every wave up to the first
/// pending one, and no directly certified leader from there on.
pub proof fn lemma_scan_shape(s: Seq<BlockView>, size: u64, wave_length: u64, from: nat, to: nat)
    ensures
        ({
            let (decided, pending) = scan(s, size, wave_length, from, to);
            &&& from <= pending
            &&& pending <= to || pending == from
            &&& decided.len() == pending - from
            &&& forall|w: nat|
                pending <= w < to ==> (#[trigger] direct_leader(s, size, wave_length, w)) is None
        }),
    decreases to,
{
    if to > from {
        let (decided, pending) = scan(s, size, wave_length, from, (to - 1) as nat);
        lemma_scan_shape(s, size, wave_length, from, (to - 1) as nat);
        match direct_leader(s, size, wave_length, (to - 1) as nat) {
            Some(i) => {
                lemma_resolve_range_len(s, size, wave_length, pending, (to - 1) as nat, s[i].reference);
            },
            None => {},
        }
    }
}

/// A scan over waves without a directly certified leader decides nothing.
pub proof fn lemma_scan_idle(s: Seq<BlockView>, size: u64, wave_length: u64, from: nat, to: nat)
    requires
        forall|w: nat| from <= w < to ==> (#[trigger] direct_leader(s, size, wave_length, w)) is None,
    ensures
        scan(s, size, wave_length, from, to) == (Seq::<LeaderStatus>::empty(), from),
    decreases to,
{
    if to > from {
        lemma_scan_idle(s, size, wave_length, from, (to - 1) as nat);
        assert(direct_leader(s, size, wave_length, (to - 1) as nat) is None);
    }
}

/// Commit idempotence: once the decisions that some blocks allow are
/// made, the same blocks allow no further decision.
pub proof fn lemma_commit_idempotent(s: Seq<BlockView>, size: u64, wave_length: u64, from: nat)
    ensures
        decisions(
            s,
            size,
            wave_length,
            from + decisions(s, size, wave_length, from).len(),
        ) == Seq::<LeaderStatus>::empty(),
{
    let to = last_wave(s, wave_length) + 1;
    lemma_scan_shape(s, size, wave_length, from, to);
    let (decided, pending) = scan(s, size, wave_length, from, to);
    assert(from + decided.len() == pending);
    lemma_scan_idle(s, size, wave_length, pending, to);
}

/// The sequence of decisions of a committer that is shown the stores
/// `history` one after the other, starting with no decision.
pub open spec fn commit_log(size: u64, wave_length: u64, history: Seq<Seq<BlockView>>) -> Seq<LeaderStatus>
    decreases history.len(),
{
    if history.len() == 0 {
        Seq::empty()
    } else {
        let before = commit_log(size, wave_length, history.drop_last());
        before + decisions(history.last(), size, wave_length, before.len() + 1)
    }
}

/// Decisions are never taken back or reordered: what was decided after
/// the first `k` stores of a history is the beginning of what is decided after
/// all of them.
pub proof fn lemma_commit_log_grows(size: u64, wave_length: u64, history: Seq<Seq<BlockView>>, k: int)
    requires
        0 <= k <= history.len(),
    ensures
        commit_log(size, wave_length, history.take(k)).is_prefix_of(
            commit_log(size, wave_length, history),
        ),
    decreases history.len() - k,
{
    if k == history.len() {
        assert(history.take(k) == history);
    } else {
        lemma_commit_log_grows(size, wave_length, history, k + 1);
        assert(history.take(k + 1).drop_last() == history.take(k));
        let short = commit_log(size, wave_length, history.take(k));
        let next = commit_log(size, wave_length, history.take(k + 1));
        assert(short.is_prefix_of(next));
    }
}

} // verus!
