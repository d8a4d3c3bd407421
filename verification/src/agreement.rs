//! Agreement: replicas that hold parts of one DAG decide the same.
//!
//! The laws here hold of a DAG in which every block after the genesis round
//! names parents of the round before by a quorum of authorities, all
//! authorities but fewer than a validity threshold of faulty ones have one block
//! per round at most, and no wave has two candidates. In such a DAG a leader
//! block that a quorum voted for is an ancestor of every block two or more
//! rounds later: of any two quorums, an authority that is not faulty is in
//! both. So a replica that has not seen the votes yet still commits the block
//! once it settles the wave from a later leader. It follows that what a replica
//! has decided is the beginning of what any replica with more blocks decides.

use crate::block_store::{
    descends, lemma_descends_linked, lemma_linked_descends, lemma_parent_before, lemma_top_round,
    store_contains, store_wf, top_round,
};
use crate::committee::{quorum_of, validity_of};
use crate::committer::{
    certified, certified_at, commit_log, decisions, direct_leader, is_best, is_candidate, last_wave,
    lemma_pick, lemma_pick_none, next_anchor, pick, reached_from, resolve, resolve_range, scan,
    support, voted, LeaderStatus,
};
use crate::types::{AuthorityIndex, BlockReference, BlockView, RoundNumber};
use vstd::prelude::*;

verus! {

/// No authority outside `faulty` has two blocks in one round.
pub open spec fn honest_single(t: Seq<BlockView>, faulty: Set<AuthorityIndex>) -> bool {
    forall|i: int, j: int|
        0 <= i < t.len() && 0 <= j < t.len() && (#[trigger] t[i]).reference.authority == (
        #[trigger] t[j]).reference.authority && t[i].reference.round == t[j].reference.round
            && !faulty.contains(t[i].reference.authority) ==> i == j
}

/// How many of the authorities below `n` are in `faulty`.
pub open spec fn faulty_count(faulty: Set<AuthorityIndex>, n: nat) -> nat
    decreases n,
{
    if n == 0 {
        0
    } else {
        faulty_count(faulty, (n - 1) as nat) + if faulty.contains((n - 1) as u64) {
            1nat
        } else {
            0nat
        }
    }
}

/// No wave has two candidates: no leader has two blocks in the first
/// round of a wave it leads.
pub open spec fn leaders_single(t: Seq<BlockView>, size: u64, wave_length: u64) -> bool {
    forall|w: nat, i: int, j: int|
        #[trigger] is_candidate(t, size, wave_length, w, i) && #[trigger] is_candidate(
            t,
            size,
            wave_length,
            w,
            j,
        ) ==> i == j
}

/// Whether a block of round `round` with the parents `includes` names a
/// block of `authority` in the round before.
pub open spec fn names_parent(
    includes: Seq<BlockReference>,
    round: RoundNumber,
    authority: AuthorityIndex,
) -> bool {
    exists|k: int|
        0 <= k < includes.len() && (#[trigger] includes[k]).authority == authority && includes[k].round
            + 1 == round
}

/// How many of the authorities below `n` have a block of the round before
/// among the parents `includes` of a block of round `round`.
pub open spec fn parent_support(includes: Seq<BlockReference>, round: RoundNumber, n: nat) -> nat
    decreases n,
{
    if n == 0 {
        0
    } else {
        parent_support(includes, round, (n - 1) as nat) + if names_parent(
            includes,
            round,
            (n - 1) as u64,
        ) {
            1nat
        } else {
            0nat
        }
    }
}

/// Every block after the genesis round names parents of the round before
/// by a quorum of the committee.
pub open spec fn tied(t: Seq<BlockView>, size: u64) -> bool {
    forall|i: int|
        0 <= i < t.len() && (#[trigger] t[i]).reference.round >= 1 ==> parent_support(
            t[i].includes,
            t[i].reference.round,
            size as nat,
        ) >= quorum_of(size as nat)
}

/// What the laws of agreement ask of a DAG: it is in order, every block
/// builds on a quorum of the round before, and the authorities that have more
/// than one block in some round are in `faulty`, which holds fewer members of
/// the committee than a validity threshold.
pub open spec fn sound(t: Seq<BlockView>, size: u64, faulty: Set<AuthorityIndex>) -> bool {
    &&& store_wf(t)
    &&& tied(t, size)
    &&& honest_single(t, faulty)
    &&& faulty_count(faulty, size as nat) < validity_of(size as nat)
}

/// Of two groups of authorities that together count more than there are
/// authorities and faulty ones, an authority that is not faulty is in both:
/// one that voted for `target` and of which `includes` names a parent.
pub proof fn lemma_overlap(
    t: Seq<BlockView>,
    target: BlockReference,
    includes: Seq<BlockReference>,
    round: RoundNumber,
    faulty: Set<AuthorityIndex>,
    n: nat,
)
    requires
        support(t, target, n) + parent_support(includes, round, n) > n + faulty_count(faulty, n),
    ensures
        exists|a: u64|
            a < n && #[trigger] voted(t, target, a) && names_parent(includes, round, a)
                && !faulty.contains(a),
    decreases n,
{
    if n > 0 {
        let a = (n - 1) as u64;
        if !(voted(t, target, a) && names_parent(includes, round, a) && !faulty.contains(a)) {
            lemma_overlap(t, target, includes, round, faulty, (n - 1) as nat);
        }
    }
}

/// A group that counts at least one authority has a member.
pub proof fn lemma_some_parent(includes: Seq<BlockReference>, round: RoundNumber, n: nat)
    requires
        parent_support(includes, round, n) >= 1,
    ensures
        exists|a: u64| a < n && #[trigger] names_parent(includes, round, a),
    decreases n,
{
    if n > 0 {
        let a = (n - 1) as u64;
        if !names_parent(includes, round, a) {
            lemma_some_parent(includes, round, (n - 1) as nat);
        }
    }
}

/// Ancestry carries on upward: an ancestor of a parent of a block is an
/// ancestor of the block.
pub proof fn lemma_descends_up(t: Seq<BlockView>, i: int, m: int, b: int)
    requires
        descends(t, i, m),
        m < b < t.len(),
        t[b].includes.contains(t[m].reference),
    ensures
        descends(t, i, b),
    decreases m - i,
{
    if i == m {
        assert(descends(t, b, b));
    } else {
        let k = choose|k: int|
            i < k <= m && (#[trigger] t[k]).includes.contains(t[i].reference) && descends(t, k, m);
        lemma_descends_up(t, k, m, b);
    }
}

/// In a sound DAG, a block that a quorum voted for is an ancestor of
/// every block two or more rounds later.
pub proof fn lemma_certified_descends(t: Seq<BlockView>, size: u64, c: int, b: int, faulty: Set<AuthorityIndex>)
    requires
        sound(t, size, faulty),
        0 <= c < t.len(),
        0 <= b < t.len(),
        certified(t, t[c].reference, size),
        t[b].reference.round >= t[c].reference.round + 2,
    ensures
        descends(t, c, b),
    decreases t[b].reference.round,
{
    let target = t[c].reference;
    let includes = t[b].includes;
    let round = t[b].reference.round;
    if round == target.round + 2 {
        crate::committee::lemma_quorum_intersection(size as nat);
        lemma_overlap(t, target, includes, round, faulty, size as nat);
        let a = choose|a: u64|
            a < size && #[trigger] voted(t, target, a) && names_parent(includes, round, a)
                && !faulty.contains(a);
        let j = choose|j: int|
            0 <= j < t.len() && (#[trigger] t[j]).reference.authority == a && t[j].reference.round
                == target.round + 1 && t[j].includes.contains(target);
        let k = choose|k: int|
            0 <= k < includes.len() && (#[trigger] includes[k]).authority == a && includes[k].round + 1
                == round;
        assert(store_contains(t, t[b].includes[k]));
        let m = choose|m: int| 0 <= m < t.len() && (#[trigger] t[m]).reference == includes[k];
        assert(m == j);
        assert(t[b].includes.contains(t[j].reference));
        lemma_parent_before(t, b, j);
        lemma_parent_before(t, j, c);
        assert(descends(t, j, j));
        assert(descends(t, c, j));
        lemma_descends_up(t, c, j, b);
    } else {
        lemma_some_parent(includes, round, size as nat);
        let a = choose|a: u64| a < size && #[trigger] names_parent(includes, round, a);
        let k = choose|k: int|
            0 <= k < includes.len() && (#[trigger] includes[k]).authority == a && includes[k].round + 1
                == round;
        assert(store_contains(t, t[b].includes[k]));
        let m = choose|m: int| 0 <= m < t.len() && (#[trigger] t[m]).reference == includes[k];
        assert(t[b].includes.contains(t[m].reference));
        lemma_parent_before(t, b, m);
        lemma_certified_descends(t, size, c, m, faulty);
        lemma_descends_up(t, c, m, b);
    }
}

/// In a sound DAG, every block two or more rounds after a block that a
/// quorum voted for reaches that block.
pub proof fn lemma_certified_is_reached(t: Seq<BlockView>, size: u64, c: int, b: int, faulty: Set<AuthorityIndex>)
    requires
        sound(t, size, faulty),
        0 <= c < t.len(),
        0 <= b < t.len(),
        certified(t, t[c].reference, size),
        t[b].reference.round >= t[c].reference.round + 2,
    ensures
        reached_from(t, t[b].reference).contains(c),
{
    lemma_certified_descends(t, size, c, b, faulty);
    lemma_descends_linked(t, t[b].reference, Set::empty(), c, b);
}

/// Where leaders have one block each, a wave has one candidate at most.
pub proof fn lemma_one_candidate(t: Seq<BlockView>, size: u64, wave_length: u64, w: nat, i: int, j: int)
    requires
        leaders_single(t, size, wave_length),
        is_candidate(t, size, wave_length, w, i),
        is_candidate(t, size, wave_length, w, j),
    ensures
        i == j,
{
}

/// Where a wave has one candidate at most, an eligible candidate is the one picked.
pub proof fn lemma_pick_only(
    t: Seq<BlockView>,
    size: u64,
    wave_length: u64,
    w: nat,
    eligible: Set<int>,
    i: int,
)
    requires
        leaders_single(t, size, wave_length),
        is_candidate(t, size, wave_length, w, i),
        eligible.contains(i),
    ensures
        pick(t, size, wave_length, w, eligible) == Some(i),
{
    assert forall|j: int|
        is_candidate(t, size, wave_length, w, j) && #[trigger] eligible.contains(
            j,
        ) implies crate::committer::preferred(t, size, i, j) by {
        lemma_one_candidate(t, size, wave_length, w, i, j);
    }
    lemma_pick(t, size, wave_length, w, eligible, i);
}

/// What is picked is an eligible candidate.
pub proof fn lemma_picked(t: Seq<BlockView>, size: u64, wave_length: u64, w: nat, eligible: Set<int>)
    requires
        pick(t, size, wave_length, w, eligible) is Some,
    ensures
        is_candidate(t, size, wave_length, w, pick(t, size, wave_length, w, eligible)->0),
        eligible.contains(pick(t, size, wave_length, w, eligible)->0),
{
    let c = choose|c: int| #[trigger] is_best(t, size, wave_length, w, eligible, c);
    assert(is_best(t, size, wave_length, w, eligible, c));
}

/// The block that is committed directly for wave `w`.
pub open spec fn leader_block(t: Seq<BlockView>, size: u64, wave_length: u64, w: nat) -> BlockReference {
    t[direct_leader(t, size, wave_length, w)->0].reference
}

/// The leader block from which the waves before `mid` are settled, once
/// the waves from `mid` up to `hi` were settled from `anchor`.
pub open spec fn anchor_after(
    t: Seq<BlockView>,
    size: u64,
    wave_length: u64,
    mid: nat,
    hi: nat,
    anchor: BlockReference,
) -> BlockReference
    decreases hi,
{
    if hi <= mid {
        anchor
    } else {
        anchor_after(
            t,
            size,
            wave_length,
            mid,
            (hi - 1) as nat,
            next_anchor(resolve(t, size, wave_length, (hi - 1) as nat, anchor), anchor),
        )
    }
}

/// Settling a range of waves is settling its upper part, and then its
/// lower part from where the upper part ended.
pub proof fn lemma_range_split(
    t: Seq<BlockView>,
    size: u64,
    wave_length: u64,
    from: nat,
    mid: nat,
    hi: nat,
    anchor: BlockReference,
)
    requires
        from <= mid <= hi,
    ensures
        resolve_range(t, size, wave_length, from, hi, anchor) == resolve_range(
            t,
            size,
            wave_length,
            from,
            mid,
            anchor_after(t, size, wave_length, mid, hi, anchor),
        ) + resolve_range(t, size, wave_length, mid, hi, anchor),
    decreases hi,
{
    if hi == mid {
        assert(resolve_range(t, size, wave_length, mid, hi, anchor) =~= Seq::<LeaderStatus>::empty());
        assert(resolve_range(t, size, wave_length, from, hi, anchor) + Seq::<LeaderStatus>::empty()
            =~= resolve_range(t, size, wave_length, from, hi, anchor));
    } else {
        let last = resolve(t, size, wave_length, (hi - 1) as nat, anchor);
        let next = next_anchor(last, anchor);
        lemma_range_split(t, size, wave_length, from, mid, (hi - 1) as nat, next);
        let low = resolve_range(
            t,
            size,
            wave_length,
            from,
            mid,
            anchor_after(t, size, wave_length, mid, hi, anchor),
        );
        let high = resolve_range(t, size, wave_length, mid, (hi - 1) as nat, next);
        assert((low + high).push(last) =~= low + high.push(last));
    }
}

/// Whether `r` is a stored block of the first round of wave `w` or later.
pub open spec fn stands_high(t: Seq<BlockView>, wave_length: u64, w: nat, r: BlockReference) -> bool {
    store_contains(t, r) && r.round >= w * wave_length
}

/// The blocks from which waves are settled stand above the waves they settle.
pub proof fn lemma_anchor_high(
    t: Seq<BlockView>,
    size: u64,
    wave_length: u64,
    mid: nat,
    hi: nat,
    anchor: BlockReference,
)
    requires
        mid <= hi,
        stands_high(t, wave_length, hi, anchor),
    ensures
        stands_high(t, wave_length, mid, anchor_after(t, size, wave_length, mid, hi, anchor)),
    decreases hi,
{
    if hi > mid {
        let w = (hi - 1) as nat;
        let last = resolve(t, size, wave_length, w, anchor);
        let next = next_anchor(last, anchor);
        assert(w * wave_length <= hi * wave_length) by (nonlinear_arith)
            requires
                w <= hi,
        ;
        match pick(t, size, wave_length, w, reached_from(t, anchor)) {
            Some(i) => {
                lemma_picked(t, size, wave_length, w, reached_from(t, anchor));
                assert(t[i].reference == next);
            },
            None => {},
        }
        lemma_anchor_high(t, size, wave_length, mid, w, next);
    } else {
        assert(mid * wave_length <= hi * wave_length) by (nonlinear_arith)
            requires
                mid <= hi,
        ;
    }
}

/// In a sound DAG a wave with a directly certified leader block is
/// settled by committing that block, from whichever higher block it is settled.
pub proof fn lemma_resolve_direct(
    t: Seq<BlockView>,
    size: u64,
    wave_length: u64,
    w: nat,
    anchor: BlockReference,
    faulty: Set<AuthorityIndex>,
)
    requires
        sound(t, size, faulty),
        leaders_single(t, size, wave_length),
        wave_length >= 2,
        direct_leader(t, size, wave_length, w) is Some,
        stands_high(t, wave_length, w + 1, anchor),
    ensures
        resolve(t, size, wave_length, w, anchor) == LeaderStatus::Commit(
            leader_block(t, size, wave_length, w),
        ),
{
    lemma_picked(t, size, wave_length, w, certified_at(t, size));
    let c = direct_leader(t, size, wave_length, w)->0;
    let b = choose|b: int| 0 <= b < t.len() && (#[trigger] t[b]).reference == anchor;
    assert((w + 1) * wave_length == w * wave_length + wave_length) by (nonlinear_arith);
    lemma_certified_is_reached(t, size, c, b, faulty);
    lemma_pick_only(t, size, wave_length, w, reached_from(t, anchor), c);
}

/// The last wave from `from` up to `to` that has a directly certified
/// leader block, if there is one.
pub open spec fn last_direct(t: Seq<BlockView>, size: u64, wave_length: u64, from: nat, to: nat) -> Option<
    nat,
>
    decreases to,
{
    if to <= from {
        None
    } else if direct_leader(t, size, wave_length, (to - 1) as nat) is Some {
        Some((to - 1) as nat)
    } else {
        last_direct(t, size, wave_length, from, (to - 1) as nat)
    }
}

/// The decisions for the waves from `from` on as one chain: all of them
/// settled from the last directly certified leader block before `to`.
pub open spec fn chain_log(t: Seq<BlockView>, size: u64, wave_length: u64, from: nat, to: nat) -> Seq<
    LeaderStatus,
> {
    match last_direct(t, size, wave_length, from, to) {
        None => Seq::empty(),
        Some(d) => resolve_range(
            t,
            size,
            wave_length,
            from,
            d,
            leader_block(t, size, wave_length, d),
        ).push(LeaderStatus::Commit(leader_block(t, size, wave_length, d))),
    }
}

/// The last wave with a directly certified leader block is one, lies in
/// the range, and no later wave of the range is one.
pub proof fn lemma_last_direct(t: Seq<BlockView>, size: u64, wave_length: u64, from: nat, to: nat)
    ensures
        match last_direct(t, size, wave_length, from, to) {
            Some(d) => from <= d < to && direct_leader(t, size, wave_length, d) is Some && forall|w: nat|
                d < w < to ==> (#[trigger] direct_leader(t, size, wave_length, w)) is None,
            None => forall|w: nat|
                from <= w < to ==> (#[trigger] direct_leader(t, size, wave_length, w)) is None,
        },
    decreases to,
{
    if to > from && direct_leader(t, size, wave_length, (to - 1) as nat) is None {
        lemma_last_direct(t, size, wave_length, from, (to - 1) as nat);
    }
}

/// A directly certified leader block stands in the first round of its wave.
pub proof fn lemma_leader_stands(t: Seq<BlockView>, size: u64, wave_length: u64, w: nat)
    requires
        direct_leader(t, size, wave_length, w) is Some,
    ensures
        stands_high(t, wave_length, w, leader_block(t, size, wave_length, w)),
        leader_block(t, size, wave_length, w).round == w * wave_length,
        certified(t, leader_block(t, size, wave_length, w), size),
{
    lemma_picked(t, size, wave_length, w, certified_at(t, size));
}

/// In a sound DAG the decisions come to one chain: wave after wave, they
/// are what settling all waves from the last directly certified leader block
/// gives.
pub proof fn lemma_scan_is_chain(t: Seq<BlockView>, size: u64, wave_length: u64, from: nat, to: nat, faulty: Set<AuthorityIndex>)
    requires
        sound(t, size, faulty),
        leaders_single(t, size, wave_length),
        wave_length >= 2,
    ensures
        scan(t, size, wave_length, from, to).0 == chain_log(t, size, wave_length, from, to),
        scan(t, size, wave_length, from, to).1 == match last_direct(t, size, wave_length, from, to) {
            Some(d) => d + 1,
            None => from,
        },
    decreases to,
{
    if to > from {
        let w = (to - 1) as nat;
        lemma_scan_is_chain(t, size, wave_length, from, w, faulty);
        let (decided, pending) = scan(t, size, wave_length, from, w);
        match direct_leader(t, size, wave_length, w) {
            Some(i) => {
                let anchor = t[i].reference;
                lemma_leader_stands(t, size, wave_length, w);
                match last_direct(t, size, wave_length, from, w) {
                    Some(d) => {
                        lemma_last_direct(t, size, wave_length, from, w);
                        let before = leader_block(t, size, wave_length, d);
                        let mid = (d + 1) as nat;
                        let current = anchor_after(t, size, wave_length, mid, w, anchor);
                        lemma_range_split(t, size, wave_length, from, mid, w, anchor);
                        lemma_anchor_high(t, size, wave_length, mid, w, anchor);
                        lemma_resolve_direct(t, size, wave_length, d, current, faulty);
                        assert(resolve_range(t, size, wave_length, from, mid, current)
                            == resolve_range(t, size, wave_length, from, d, before).push(
                            LeaderStatus::Commit(before),
                        ));
                        assert(decided + resolve_range(t, size, wave_length, pending, w, anchor)
                            =~= resolve_range(t, size, wave_length, from, w, anchor));
                    },
                    None => {
                        assert(decided + resolve_range(t, size, wave_length, pending, w, anchor)
                            =~= resolve_range(t, size, wave_length, from, w, anchor));
                    },
                }
            },
            None => {},
        }
    }
}

/// Every block of `s` is a block of `t`.
pub open spec fn contained(s: Seq<BlockView>, t: Seq<BlockView>) -> bool {
    forall|i: int| 0 <= i < s.len() ==> t.contains(#[trigger] s[i])
}

/// The position in `t` of the block with reference `r`.
pub open spec fn at(t: Seq<BlockView>, r: BlockReference) -> int {
    choose|j: int| 0 <= j < t.len() && (#[trigger] t[j]).reference == r
}

/// In a store in order, a reference names one block.
pub proof fn lemma_at(t: Seq<BlockView>, j: int)
    requires
        store_wf(t),
        0 <= j < t.len(),
    ensures
        at(t, t[j].reference) == j,
{
    let k = at(t, t[j].reference);
    if k < j {
        assert(crate::types::reference_lt(t[k].reference, t[j].reference));
    }
    if j < k {
        assert(crate::types::reference_lt(t[j].reference, t[k].reference));
    }
}

/// A block of the smaller store stands in the larger store, under its reference.
pub proof fn lemma_at_contained(s: Seq<BlockView>, t: Seq<BlockView>, i: int)
    requires
        contained(s, t),
        store_wf(t),
        0 <= i < s.len(),
    ensures
        0 <= at(t, s[i].reference) < t.len(),
        t[at(t, s[i].reference)] == s[i],
{
    assert(t.contains(s[i]));
    let j = choose|j: int| 0 <= j < t.len() && t[j] == s[i];
    lemma_at(t, j);
}

/// A block of the larger store whose reference is known to the smaller
/// store stands in the smaller store.
pub proof fn lemma_at_known(s: Seq<BlockView>, t: Seq<BlockView>, j: int)
    requires
        contained(s, t),
        store_wf(s),
        store_wf(t),
        0 <= j < t.len(),
        store_contains(s, t[j].reference),
    ensures
        0 <= at(s, t[j].reference) < s.len(),
        s[at(s, t[j].reference)] == t[j],
{
    let i = at(s, t[j].reference);
    lemma_at_contained(s, t, i);
    lemma_at(t, j);
}

/// What holds of the larger store holds of the smaller.
pub proof fn lemma_sound_part(s: Seq<BlockView>, t: Seq<BlockView>, size: u64, faulty: Set<AuthorityIndex>)
    requires
        contained(s, t),
        store_wf(s),
        sound(t, size, faulty),
    ensures
        sound(s, size, faulty),
{
    assert forall|i: int, j: int|
        0 <= i < s.len() && 0 <= j < s.len() && (#[trigger] s[i]).reference.authority == (
        #[trigger] s[j]).reference.authority && s[i].reference.round == s[j].reference.round
            && !faulty.contains(s[i].reference.authority) implies i == j by {
        lemma_at_contained(s, t, i);
        lemma_at_contained(s, t, j);
        let a = at(t, s[i].reference);
        let b = at(t, s[j].reference);
        assert(t[a].reference.authority == t[b].reference.authority);
        assert(a == b);
        lemma_at(s, i);
        lemma_at(s, j);
    }
    assert forall|i: int| 0 <= i < s.len() && (#[trigger] s[i]).reference.round >= 1 implies parent_support(
        s[i].includes,
        s[i].reference.round,
        size as nat,
    ) >= quorum_of(size as nat) by {
        lemma_at_contained(s, t, i);
        let a = at(t, s[i].reference);
        assert(t[a].reference.round >= 1);
    }
}

/// Where no wave has two candidates in the larger store, none has in the smaller.
pub proof fn lemma_leaders_part(s: Seq<BlockView>, t: Seq<BlockView>, size: u64, wave_length: u64)
    requires
        contained(s, t),
        store_wf(s),
        store_wf(t),
        leaders_single(t, size, wave_length),
    ensures
        leaders_single(s, size, wave_length),
{
    assert forall|w: nat, i: int, j: int|
        #[trigger] is_candidate(s, size, wave_length, w, i) && #[trigger] is_candidate(
            s,
            size,
            wave_length,
            w,
            j,
        ) implies i == j by {
        lemma_at_contained(s, t, i);
        lemma_at_contained(s, t, j);
        let a = at(t, s[i].reference);
        let b = at(t, s[j].reference);
        assert(is_candidate(t, size, wave_length, w, a));
        assert(is_candidate(t, size, wave_length, w, b));
        lemma_at(s, i);
        lemma_at(s, j);
    }
}

/// A vote seen in the smaller store is seen in the larger.
pub proof fn lemma_support_grows(s: Seq<BlockView>, t: Seq<BlockView>, target: BlockReference, n: nat)
    requires
        contained(s, t),
        store_wf(t),
    ensures
        support(s, target, n) <= support(t, target, n),
    decreases n,
{
    if n > 0 {
        lemma_support_grows(s, t, target, (n - 1) as nat);
        let a = (n - 1) as u64;
        if voted(s, target, a) {
            let j = choose|j: int|
                0 <= j < s.len() && (#[trigger] s[j]).reference.authority == a && s[j].reference.round
                    == target.round + 1 && s[j].includes.contains(target);
            lemma_at_contained(s, t, j);
            let k = at(t, s[j].reference);
            assert(t[k].reference.authority == a && t[k].includes.contains(target));
        }
    }
}

/// Ancestry in the smaller store is ancestry in the larger.
pub proof fn lemma_descends_in_larger(s: Seq<BlockView>, t: Seq<BlockView>, i: int, j: int)
    requires
        contained(s, t),
        store_wf(s),
        store_wf(t),
        descends(s, i, j),
    ensures
        descends(t, at(t, s[i].reference), at(t, s[j].reference)),
    decreases j - i,
{
    lemma_at_contained(s, t, i);
    lemma_at_contained(s, t, j);
    if i != j {
        let k = choose|k: int|
            i < k <= j && (#[trigger] s[k]).includes.contains(s[i].reference) && descends(s, k, j);
        lemma_descends_in_larger(s, t, k, j);
        lemma_at_contained(s, t, k);
        let a = at(t, s[i].reference);
        let b = at(t, s[k].reference);
        assert(t[b].includes.contains(t[a].reference));
        lemma_parent_before(t, b, a);
    }
}

/// Ancestry in the larger store, below a block that the smaller store
/// holds, is ancestry in the smaller store: it holds the ancestors too.
pub proof fn lemma_descends_in_smaller(s: Seq<BlockView>, t: Seq<BlockView>, i: int, j: int)
    requires
        contained(s, t),
        store_wf(s),
        store_wf(t),
        descends(t, i, j),
        store_contains(s, t[j].reference),
    ensures
        store_contains(s, t[i].reference),
        descends(s, at(s, t[i].reference), at(s, t[j].reference)),
    decreases j - i,
{
    lemma_at_known(s, t, j);
    if i != j {
        let k = choose|k: int|
            i < k <= j && (#[trigger] t[k]).includes.contains(t[i].reference) && descends(t, k, j);
        lemma_descends_in_smaller(s, t, k, j);
        lemma_at_known(s, t, k);
        let b = at(s, t[k].reference);
        let p = choose|p: int| 0 <= p < s[b].includes.len() && s[b].includes[p] == t[i].reference;
        assert(store_contains(s, s[b].includes[p]));
        lemma_at_known(s, t, i);
        let a = at(s, t[i].reference);
        assert(s[b].includes.contains(s[a].reference));
        lemma_parent_before(s, b, a);
    } else {
        assert(descends(s, at(s, t[j].reference), at(s, t[j].reference)));
    }
}

/// A wave is settled alike in both stores, from a block that the smaller
/// store holds.
pub proof fn lemma_resolve_same(
    s: Seq<BlockView>,
    t: Seq<BlockView>,
    size: u64,
    wave_length: u64,
    w: nat,
    anchor: BlockReference,
    faulty: Set<AuthorityIndex>,
)
    requires
        contained(s, t),
        store_wf(s),
        sound(t, size, faulty),
        leaders_single(t, size, wave_length),
        store_contains(s, anchor),
    ensures
        resolve(s, size, wave_length, w, anchor) == resolve(t, size, wave_length, w, anchor),
{
    lemma_sound_part(s, t, size, faulty);
    lemma_leaders_part(s, t, size, wave_length);
    let none = Set::<BlockReference>::empty();
    match pick(t, size, wave_length, w, reached_from(t, anchor)) {
        Some(i2) => {
            lemma_picked(t, size, wave_length, w, reached_from(t, anchor));
            lemma_linked_descends(t, anchor, none, i2);
            let j2 = choose|j2: int|
                0 <= j2 < t.len() && (#[trigger] t[j2]).reference == anchor && descends(t, i2, j2);
            lemma_descends_in_smaller(s, t, i2, j2);
            lemma_at_known(s, t, i2);
            lemma_at_known(s, t, j2);
            let i = at(s, t[i2].reference);
            let j = at(s, t[j2].reference);
            lemma_descends_linked(s, anchor, none, i, j);
            assert(reached_from(s, anchor).contains(i));
            assert(is_candidate(s, size, wave_length, w, i));
            lemma_pick_only(s, size, wave_length, w, reached_from(s, anchor), i);
        },
        None => {
            assert forall|i: int| #[trigger] is_candidate(s, size, wave_length, w, i) implies !reached_from(
                s,
                anchor,
            ).contains(i) by {
                if reached_from(s, anchor).contains(i) {
                    lemma_linked_descends(s, anchor, none, i);
                    let j = choose|j: int|
                        0 <= j < s.len() && (#[trigger] s[j]).reference == anchor && descends(s, i, j);
                    lemma_descends_in_larger(s, t, i, j);
                    lemma_at_contained(s, t, i);
                    lemma_at_contained(s, t, j);
                    let i2 = at(t, s[i].reference);
                    let j2 = at(t, s[j].reference);
                    lemma_descends_linked(t, anchor, none, i2, j2);
                    assert(reached_from(t, anchor).contains(i2));
                    assert(is_candidate(t, size, wave_length, w, i2));
                    lemma_pick_only(t, size, wave_length, w, reached_from(t, anchor), i2);
                }
            }
            lemma_pick_none(s, size, wave_length, w, reached_from(s, anchor));
        },
    }
}

/// A range of waves is settled alike in both stores, from a block that
/// the smaller store holds.
pub proof fn lemma_range_same(
    s: Seq<BlockView>,
    t: Seq<BlockView>,
    size: u64,
    wave_length: u64,
    from: nat,
    hi: nat,
    anchor: BlockReference,
    faulty: Set<AuthorityIndex>,
)
    requires
        contained(s, t),
        store_wf(s),
        sound(t, size, faulty),
        leaders_single(t, size, wave_length),
        store_contains(s, anchor),
    ensures
        resolve_range(s, size, wave_length, from, hi, anchor) == resolve_range(
            t,
            size,
            wave_length,
            from,
            hi,
            anchor,
        ),
    decreases hi,
{
    if hi > from {
        let w = (hi - 1) as nat;
        lemma_resolve_same(s, t, size, wave_length, w, anchor, faulty);
        let last = resolve(s, size, wave_length, w, anchor);
        match pick(s, size, wave_length, w, reached_from(s, anchor)) {
            Some(i) => {
                lemma_picked(s, size, wave_length, w, reached_from(s, anchor));
                assert(store_contains(s, s[i].reference));
            },
            None => {},
        }
        lemma_range_same(s, t, size, wave_length, from, w, next_anchor(last, anchor), faulty);
    }
}

/// A leader block that is certified directly in the smaller store is so
/// in the larger store.
pub proof fn lemma_direct_grows(
    s: Seq<BlockView>,
    t: Seq<BlockView>,
    size: u64,
    wave_length: u64,
    w: nat,
    faulty: Set<AuthorityIndex>,
)
    requires
        contained(s, t),
        store_wf(s),
        sound(t, size, faulty),
        leaders_single(t, size, wave_length),
        direct_leader(s, size, wave_length, w) is Some,
    ensures
        direct_leader(t, size, wave_length, w) is Some,
        leader_block(t, size, wave_length, w) == leader_block(s, size, wave_length, w),
        store_contains(s, leader_block(s, size, wave_length, w)),
{
    lemma_picked(s, size, wave_length, w, certified_at(s, size));
    let i = direct_leader(s, size, wave_length, w)->0;
    lemma_at_contained(s, t, i);
    let i2 = at(t, s[i].reference);
    lemma_support_grows(s, t, s[i].reference, size as nat);
    assert(certified_at(t, size).contains(i2));
    assert(is_candidate(t, size, wave_length, w, i2));
    lemma_pick_only(t, size, wave_length, w, certified_at(t, size), i2);
}

/// Agreement: in a sound DAG, what a replica decides from the blocks it
/// holds is the beginning of what is decided from any larger part of the DAG.
/// So of two replicas that hold parts of one sound DAG, each has decided the
/// same for every wave that both have decided.
pub proof fn lemma_extension_agreement(s: Seq<BlockView>, t: Seq<BlockView>, size: u64, wave_length: u64, faulty: Set<AuthorityIndex>)
    requires
        contained(s, t),
        store_wf(s),
        sound(t, size, faulty),
        leaders_single(t, size, wave_length),
        wave_length >= 2,
    ensures
        decisions(s, size, wave_length, 1).is_prefix_of(decisions(t, size, wave_length, 1)),
{
    lemma_sound_part(s, t, size, faulty);
    lemma_leaders_part(s, t, size, wave_length);
    let to_s = last_wave(s, wave_length) + 1;
    let to_t = last_wave(t, wave_length) + 1;
    lemma_scan_is_chain(s, size, wave_length, 1, to_s, faulty);
    lemma_scan_is_chain(t, size, wave_length, 1, to_t, faulty);
    lemma_last_direct(s, size, wave_length, 1, to_s);
    lemma_last_direct(t, size, wave_length, 1, to_t);
    match last_direct(s, size, wave_length, 1, to_s) {
        None => {},
        Some(e) => {
            lemma_direct_grows(s, t, size, wave_length, e, faulty);
            lemma_leader_stands(t, size, wave_length, e);
            let leader = leader_block(s, size, wave_length, e);
            let k = choose|k: int| 0 <= k < t.len() && (#[trigger] t[k]).reference == leader;
            lemma_top_round(t, k);
            assert(e <= top_round(t) / wave_length) by (nonlinear_arith)
                requires
                    e * wave_length <= top_round(t),
                    wave_length >= 2,
            ;
            assert(e < to_t);
            let d = last_direct(t, size, wave_length, 1, to_t)->0;
            assert(d >= e);
            let top = leader_block(t, size, wave_length, d);
            lemma_range_same(s, t, size, wave_length, 1, e, leader, faulty);
            if d > e {
                let mid = (e + 1) as nat;
                let current = anchor_after(t, size, wave_length, mid, d, top);
                lemma_leader_stands(t, size, wave_length, d);
                lemma_range_split(t, size, wave_length, 1, mid, d, top);
                lemma_anchor_high(t, size, wave_length, mid, d, top);
                lemma_resolve_direct(t, size, wave_length, e, current, faulty);
                assert(resolve_range(t, size, wave_length, 1, mid, current) == resolve_range(
                    t,
                    size,
                    wave_length,
                    1,
                    e,
                    leader,
                ).push(LeaderStatus::Commit(leader)));
            }
        },
    }
}

/// The last wave with a directly certified leader block does not depend
/// on where the range starts, as long as it starts at or before that wave.
pub proof fn lemma_last_direct_from(
    t: Seq<BlockView>,
    size: u64,
    wave_length: u64,
    from: nat,
    later: nat,
    to: nat,
)
    requires
        from <= later,
    ensures
        match last_direct(t, size, wave_length, from, to) {
            Some(d) => last_direct(t, size, wave_length, later, to) == if later <= d {
                Some(d)
            } else {
                None::<nat>
            },
            None => last_direct(t, size, wave_length, later, to) is None,
        },
    decreases to,
{
    lemma_last_direct(t, size, wave_length, from, to);
    if to > later && direct_leader(t, size, wave_length, (to - 1) as nat) is None {
        lemma_last_direct_from(t, size, wave_length, from, later, (to - 1) as nat);
    } else if to > from && to <= later {
        lemma_last_direct(t, size, wave_length, from, to);
    }
}

/// Every wave up to the last one decided has a decision.
pub proof fn lemma_chain_len(t: Seq<BlockView>, size: u64, wave_length: u64, from: nat, to: nat)
    ensures
        chain_log(t, size, wave_length, from, to).len() == match last_direct(
            t,
            size,
            wave_length,
            from,
            to,
        ) {
            Some(d) => d + 1 - from,
            None => 0,
        },
{
    lemma_last_direct(t, size, wave_length, from, to);
    match last_direct(t, size, wave_length, from, to) {
        Some(d) => {
            crate::committer::lemma_resolve_range_len(
                t,
                size,
                wave_length,
                from,
                d,
                leader_block(t, size, wave_length, d),
            );
        },
        None => {},
    }
}

/// In a sound DAG, a replica that has decided from a part of the DAG and
/// goes on from a larger part ends with what the larger part gives from the
/// start.
pub proof fn lemma_resume(s: Seq<BlockView>, t: Seq<BlockView>, size: u64, wave_length: u64, faulty: Set<AuthorityIndex>)
    requires
        contained(s, t),
        store_wf(s),
        sound(t, size, faulty),
        leaders_single(t, size, wave_length),
        wave_length >= 2,
    ensures
        decisions(t, size, wave_length, 1) == decisions(s, size, wave_length, 1) + decisions(
            t,
            size,
            wave_length,
            decisions(s, size, wave_length, 1).len() + 1,
        ),
{
    lemma_sound_part(s, t, size, faulty);
    lemma_leaders_part(s, t, size, wave_length);
    let to_s = last_wave(s, wave_length) + 1;
    let to_t = last_wave(t, wave_length) + 1;
    lemma_scan_is_chain(s, size, wave_length, 1, to_s, faulty);
    lemma_scan_is_chain(t, size, wave_length, 1, to_t, faulty);
    lemma_last_direct(s, size, wave_length, 1, to_s);
    lemma_last_direct(t, size, wave_length, 1, to_t);
    lemma_chain_len(s, size, wave_length, 1, to_s);
    let early = decisions(s, size, wave_length, 1);
    match last_direct(s, size, wave_length, 1, to_s) {
        None => {
            assert(early + decisions(t, size, wave_length, 1) =~= decisions(t, size, wave_length, 1));
        },
        Some(e) => {
            let mid = (e + 1) as nat;
            lemma_scan_is_chain(t, size, wave_length, mid, to_t, faulty);
            lemma_direct_grows(s, t, size, wave_length, e, faulty);
            lemma_leader_stands(t, size, wave_length, e);
            let leader = leader_block(s, size, wave_length, e);
            let k = choose|k: int| 0 <= k < t.len() && (#[trigger] t[k]).reference == leader;
            lemma_top_round(t, k);
            assert(e <= top_round(t) / wave_length) by (nonlinear_arith)
                requires
                    e * wave_length <= top_round(t),
                    wave_length >= 2,
            ;
            let d = last_direct(t, size, wave_length, 1, to_t)->0;
            assert(d >= e);
            let top = leader_block(t, size, wave_length, d);
            lemma_range_same(s, t, size, wave_length, 1, e, leader, faulty);
            lemma_last_direct_from(t, size, wave_length, 1, mid, to_t);
            if d > e {
                let current = anchor_after(t, size, wave_length, mid, d, top);
                lemma_leader_stands(t, size, wave_length, d);
                lemma_range_split(t, size, wave_length, 1, mid, d, top);
                lemma_anchor_high(t, size, wave_length, mid, d, top);
                lemma_resolve_direct(t, size, wave_length, e, current, faulty);
                assert(resolve_range(t, size, wave_length, 1, mid, current) == early);
                let rest = resolve_range(t, size, wave_length, mid, d, top);
                assert((early + rest).push(LeaderStatus::Commit(top)) =~= early + rest.push(
                    LeaderStatus::Commit(top),
                ));
            } else {
                assert(early + Seq::<LeaderStatus>::empty() =~= early);
            }
        },
    }
}

/// Each store of the history is in order and part of the next.
pub open spec fn growing(history: Seq<Seq<BlockView>>) -> bool {
    forall|k: int|
        0 <= k < history.len() - 1 ==> store_wf(#[trigger] history[k]) && contained(
            history[k],
            history[k + 1],
        )
}

/// A replica that decides as its store grows within a sound DAG ends
/// with what its last store gives from the start: when it looked does not
/// matter.
pub proof fn lemma_log_is_decisions(size: u64, wave_length: u64, history: Seq<Seq<BlockView>>, faulty: Set<AuthorityIndex>)
    requires
        history.len() > 0,
        growing(history),
        sound(history.last(), size, faulty),
        leaders_single(history.last(), size, wave_length),
        wave_length >= 2,
    ensures
        commit_log(size, wave_length, history) == decisions(history.last(), size, wave_length, 1),
    decreases history.len(),
{
    let earlier = history.drop_last();
    if earlier.len() == 0 {
        assert(commit_log(size, wave_length, earlier) =~= Seq::<LeaderStatus>::empty());
        assert(Seq::<LeaderStatus>::empty() + decisions(history.last(), size, wave_length, 1)
            =~= decisions(history.last(), size, wave_length, 1));
    } else {
        let s = earlier.last();
        assert(s == history[history.len() - 2]);
        assert(store_wf(s) && contained(s, history[history.len() - 2 + 1]));
        lemma_sound_part(s, history.last(), size, faulty);
        lemma_leaders_part(s, history.last(), size, wave_length);
        assert forall|k: int| 0 <= k < earlier.len() - 1 implies store_wf(#[trigger] earlier[k])
            && contained(earlier[k], earlier[k + 1]) by {
            assert(earlier[k] == history[k]);
            assert(earlier[k + 1] == history[k + 1]);
        }
        lemma_log_is_decisions(size, wave_length, earlier, faulty);
        lemma_resume(s, history.last(), size, wave_length, faulty);
    }
}

/// Agreement of replicas: two replicas whose stores grew within one sound
/// DAG have decided the same for every wave that both have decided, however
/// their stores grew and whenever they looked.
pub proof fn lemma_replicas_agree(
    size: u64,
    wave_length: u64,
    dag: Seq<BlockView>,
    one: Seq<Seq<BlockView>>,
    other: Seq<Seq<BlockView>>,
    faulty: Set<AuthorityIndex>,
)
    requires
        sound(dag, size, faulty),
        leaders_single(dag, size, wave_length),
        wave_length >= 2,
        one.len() > 0,
        other.len() > 0,
        growing(one),
        growing(other),
        store_wf(one.last()),
        store_wf(other.last()),
        contained(one.last(), dag),
        contained(other.last(), dag),
    ensures
        commit_log(size, wave_length, one).is_prefix_of(decisions(dag, size, wave_length, 1)),
        commit_log(size, wave_length, other).is_prefix_of(decisions(dag, size, wave_length, 1)),
        forall|k: int|
            0 <= k < commit_log(size, wave_length, one).len() && k < commit_log(
                size,
                wave_length,
                other,
            ).len() ==> commit_log(size, wave_length, one)[k] == commit_log(size, wave_length, other)[k],
{
    lemma_sound_part(one.last(), dag, size, faulty);
    lemma_sound_part(other.last(), dag, size, faulty);
    lemma_leaders_part(one.last(), dag, size, wave_length);
    lemma_leaders_part(other.last(), dag, size, wave_length);
    lemma_log_is_decisions(size, wave_length, one, faulty);
    lemma_log_is_decisions(size, wave_length, other, faulty);
    lemma_extension_agreement(one.last(), dag, size, wave_length, faulty);
    lemma_extension_agreement(other.last(), dag, size, wave_length, faulty);
}

} // verus!
