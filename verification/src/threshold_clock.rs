//! The clock that gates rounds: a replica may produce a block of round
//! `r + 1` only after it has seen round-`r` blocks of a quorum of authorities.

use crate::committee::{quorum_of, Committee};
use crate::types::{AuthorityIndex, BlockReference, RoundNumber};
use vstd::prelude::*;

verus! {

/// The clock as plain values.
pub struct ClockView {
    /// The round a new local block may take.
    pub round: RoundNumber,
    /// The authorities whose block of that round has been seen, in the order seen.
    pub seen: Seq<AuthorityIndex>,
}

/// The clock before any block was seen.
pub open spec fn clock_start() -> ClockView {
    ClockView { round: 0, seen: Seq::empty() }
}

/// Whether a block counts for the clock `c`: it is of the clock's round, by
/// a member of the committee not yet seen in that round, and a next round exists.
pub open spec fn counts(c: ClockView, block: BlockReference, size: u64) -> bool {
    &&& block.round == c.round
    &&& block.authority < size
    &&& !c.seen.contains(block.authority)
    &&& c.round < u64::MAX
}

/// The clock after `block` was seen: a block that counts is recorded, and
/// with the one that completes a quorum the clock moves to the next round.
pub open spec fn clock_step(c: ClockView, block: BlockReference, size: u64) -> ClockView {
    if !counts(c, block, size) {
        c
    } else if c.seen.len() + 1 >= quorum_of(size as nat) {
        ClockView { round: (c.round + 1) as u64, seen: Seq::empty() }
    } else {
        ClockView { round: c.round, seen: c.seen.push(block.authority) }
    }
}

/// The clock after `blocks` were seen in order, from the start.
pub open spec fn clock_replay(blocks: Seq<BlockReference>, size: u64) -> ClockView
    decreases blocks.len(),
{
    if blocks.len() == 0 {
        clock_start()
    } else {
        clock_step(clock_replay(blocks.drop_last(), size), blocks.last(), size)
    }
}

/// The clock after `blocks` were seen in order, from `c`.
pub open spec fn clock_run(c: ClockView, blocks: Seq<BlockReference>, size: u64) -> ClockView
    decreases blocks.len(),
{
    if blocks.len() == 0 {
        c
    } else {
        clock_step(clock_run(c, blocks.drop_last(), size), blocks.last(), size)
    }
}

/// Whether a block of `authority` in `round` is among `blocks`.
pub open spec fn observed(blocks: Seq<BlockReference>, authority: AuthorityIndex, round: RoundNumber) -> bool {
    exists|i: int|
        0 <= i < blocks.len() && (#[trigger] blocks[i]).authority == authority && blocks[i].round
            == round
}

/// Whether `who` is a quorum of distinct members whose blocks of `round`
/// are all among `blocks`.
pub open spec fn quorum_observed(
    blocks: Seq<BlockReference>,
    who: Seq<AuthorityIndex>,
    round: RoundNumber,
    size: u64,
) -> bool {
    &&& who.no_duplicates()
    &&& who.len() >= quorum_of(size as nat)
    &&& forall|k: int| 0 <= k < who.len() ==> (#[trigger] who[k]) < size && observed(blocks, who[k], round)
}

/// Whether blocks of `round` of some quorum of distinct members are among `blocks`.
pub open spec fn some_quorum_observed(blocks: Seq<BlockReference>, round: RoundNumber, size: u64) -> bool {
    exists|who: Seq<AuthorityIndex>| #[trigger] quorum_observed(blocks, who, round, size)
}

/// What holds of the clock after any sequence of blocks: the members noted
/// for the current round are distinct and were seen in it, fewer than a quorum;
/// and the round before, if there is one, was seen from a quorum.
pub open spec fn clock_inv(blocks: Seq<BlockReference>, c: ClockView, size: u64) -> bool {
    &&& c.seen.no_duplicates()
    &&& c.seen.len() < quorum_of(size as nat)
    &&& forall|k: int|
        0 <= k < c.seen.len() ==> (#[trigger] c.seen[k]) < size && observed(blocks, c.seen[k], c.round)
    &&& c.round > 0 ==> some_quorum_observed(blocks, (c.round - 1) as u64, size)
}

/// A block seen among some blocks is seen among more.
proof fn lemma_observed_grows(blocks: Seq<BlockReference>, authority: AuthorityIndex, round: RoundNumber)
    requires
        blocks.len() > 0,
        observed(blocks.drop_last(), authority, round),
    ensures
        observed(blocks, authority, round),
{
    let i = choose|i: int|
        0 <= i < blocks.drop_last().len() && (#[trigger] blocks.drop_last()[i]).authority == authority
            && blocks.drop_last()[i].round == round;
    assert(blocks[i].authority == authority && blocks[i].round == round);
}

/// The invariant of the clock holds after any sequence of blocks.
pub proof fn lemma_clock_inv(blocks: Seq<BlockReference>, size: u64)
    ensures
        clock_inv(blocks, clock_replay(blocks, size), size),
    decreases blocks.len(),
{
    if blocks.len() > 0 {
        let before = blocks.drop_last();
        let b = blocks.last();
        let c = clock_replay(before, size);
        lemma_clock_inv(before, size);
        assert forall|k: int| 0 <= k < c.seen.len() implies observed(blocks, #[trigger] c.seen[k], c.round) by {
            lemma_observed_grows(blocks, c.seen[k], c.round);
        }
        if c.round > 0 {
            let prev = (c.round - 1) as u64;
            let who = choose|who: Seq<AuthorityIndex>| #[trigger] quorum_observed(before, who, prev, size);
            assert forall|k: int| 0 <= k < who.len() implies (#[trigger] who[k]) < size && observed(
                blocks,
                who[k],
                (c.round - 1) as u64,
            ) by {
                lemma_observed_grows(blocks, who[k], (c.round - 1) as u64);
            }
            assert(quorum_observed(blocks, who, (c.round - 1) as u64, size));
        }
        if counts(c, b, size) {
            let more = c.seen.push(b.authority);
            assert(blocks[blocks.len() - 1] == b);
            assert(observed(blocks, b.authority, c.round));
            assert forall|k: int| 0 <= k < more.len() implies (#[trigger] more[k]) < size && observed(
                blocks,
                more[k],
                c.round,
            ) by {
                if k < c.seen.len() {
                    assert(more[k] == c.seen[k]);
                }
            }
            assert(more.no_duplicates());
            if c.seen.len() + 1 >= quorum_of(size as nat) {
                assert(quorum_observed(blocks, more, c.round, size));
            }
        }
    }
}

/// Quorum gating: whenever the clock allows a block of round `r + 1`,
/// blocks of round `r` of a quorum of distinct authorities have been seen.
pub proof fn lemma_quorum_gating(blocks: Seq<BlockReference>, size: u64)
    ensures
        clock_replay(blocks, size).round > 0 ==> some_quorum_observed(
            blocks,
            (clock_replay(blocks, size).round - 1) as u64,
            size,
        ),
{
    lemma_clock_inv(blocks, size);
}

/// The clock never moves backward.
pub proof fn lemma_clock_monotone(c: ClockView, block: BlockReference, size: u64)
    ensures
        clock_step(c, block, size).round >= c.round,
{
}

/// Tracks which authorities' blocks of the current round have been seen,
/// and moves to the next round with a quorum.
pub struct ThresholdClock {
    committee: Committee,
    round: RoundNumber,
    seen: Vec<AuthorityIndex>,
}

impl View for ThresholdClock {
    type V = ClockView;

    closed spec fn view(&self) -> ClockView {
        ClockView { round: self.round, seen: self.seen@ }
    }
}

impl ThresholdClock {
    /// The committee whose quorums move the clock.
    pub closed spec fn committee(&self) -> Committee {
        self.committee
    }

    /// A clock that has seen nothing: the round is 0.
    pub fn new(committee: Committee) -> (r: Self)
        ensures
            r@ == clock_start(),
            r.committee() == committee,
    {
        ThresholdClock { committee, round: 0, seen: Vec::new() }
    }

    /// A clock that has seen `blocks` in order.
    pub fn replay(committee: Committee, blocks: &Vec<BlockReference>) -> (r: Self)
        ensures
            r@ == clock_replay(blocks@, committee.len()),
            r.committee() == committee,
    {
        let mut clock = ThresholdClock::new(committee);
        let mut i: usize = 0;
        while i < blocks.len()
            invariant
                i <= blocks.len(),
                clock.committee() == committee,
                clock@ == clock_replay(blocks@.take(i as int), committee.len()),
            decreases blocks.len() - i,
        {
            proof {
                assert(blocks@.take(i as int + 1).drop_last() == blocks@.take(i as int));
                assert(blocks@.take(i as int + 1).last() == blocks@[i as int]);
            }
            clock.add_block(&blocks[i]);
            i += 1;
        }
        proof {
            assert(blocks@.take(i as int) == blocks@);
        }
        clock
    }

    /// Records that `block` was seen.
    pub fn add_block(&mut self, block: &BlockReference)
        ensures
            final(self)@ == clock_step(old(self)@, *block, old(self).committee().len()),
            final(self).committee() == old(self).committee(),
    {
        if block.round != self.round || !self.committee.known_authority(block.authority)
            || self.round == u64::MAX {
            return ;
        }
        let mut k: usize = 0;
        while k < self.seen.len()
            invariant
                k <= self.seen.len(),
                self.seen == old(self).seen,
                self.round == old(self).round,
                self.committee == old(self).committee,
                forall|j: int| 0 <= j < k ==> self.seen@[j] != block.authority,
            decreases self.seen.len() - k,
        {
            if self.seen[k] == block.authority {
                return ;
            }
            k += 1;
        }
        if self.seen.len() as u64 >= self.committee.quorum_threshold() - 1 {
            self.round = self.round + 1;
            self.seen = Vec::new();
        } else {
            self.seen.push(block.authority);
        }
    }

    /// Records that `blocks` were seen, in order.
    pub fn add_blocks(&mut self, blocks: &Vec<BlockReference>)
        ensures
            final(self)@ == clock_run(old(self)@, blocks@, old(self).committee().len()),
            final(self).committee() == old(self).committee(),
    {
        let mut i: usize = 0;
        while i < blocks.len()
            invariant
                i <= blocks.len(),
                self.committee() == old(self).committee(),
                self@ == clock_run(old(self)@, blocks@.take(i as int), old(self).committee().len()),
            decreases blocks.len() - i,
        {
            proof {
                assert(blocks@.take(i as int + 1).drop_last() == blocks@.take(i as int));
                assert(blocks@.take(i as int + 1).last() == blocks@[i as int]);
            }
            self.add_block(&blocks[i]);
            i += 1;
        }
        proof {
            assert(blocks@.take(i as int) == blocks@);
        }
    }

    /// The round a new local block may take.
    pub fn ready_round(&self) -> (r: RoundNumber)
        ensures
            r == self@.round,
    {
        self.round
    }
}

} // verus!
