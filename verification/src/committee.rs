//! The committee, its thresholds, and the aggregator that certifies
//! transactions once a quorum of authorities has echoed them.

use crate::types::{AuthorityIndex, BlockReference, StatementBlock};
use vstd::prelude::*;

verus! {

/// The fixed set of authorities, each with one vote.
#[derive(Clone, Copy, Debug, PartialEq, Eq, Structural)]
pub struct Committee {
    size: u64,
}

/// Votes needed for a quorum in a committee of `size` members: more than two thirds.
pub open spec fn quorum_of(size: nat) -> nat {
    2 * size / 3 + 1
}

/// Votes needed to be sure one of them is honest: more than one third.
pub open spec fn validity_of(size: nat) -> nat {
    size / 3 + 1
}

/// Scrambles a number so that consecutive inputs give unrelated outputs.
pub open spec fn scramble(x: u64) -> u64 {
    let y = (x ^ (x >> 30)).wrapping_mul(0xbf58476d1ce4e5b9);
    y ^ (y >> 27)
}

/// The authority that leads wave `wave` in a committee of `size` members.
pub open spec fn leader_of(size: u64, wave: u64) -> AuthorityIndex {
    if size == 0 {
        0
    } else {
        scramble(wave) % size
    }
}

/// Whether one of `references` is by `authority`.
pub open spec fn names_authority(references: Seq<BlockReference>, authority: AuthorityIndex) -> bool {
    exists|k: int| 0 <= k < references.len() && (#[trigger] references[k]).authority == authority
}

/// How many of the authorities below `n` have a block among `references`.
pub open spec fn distinct_authors(references: Seq<BlockReference>, n: nat) -> nat
    decreases n,
{
    if n == 0 {
        0
    } else {
        distinct_authors(references, (n - 1) as nat) + if names_authority(references, (n - 1) as u64) {
            1nat
        } else {
            0nat
        }
    }
}

/// Whether a block of round `round` with the parents `includes` is tied
/// into the DAG: it is of the genesis round, or its parents are by a quorum of
/// the committee.
pub open spec fn well_connected(round: u64, includes: Seq<BlockReference>, size: u64) -> bool {
    round == 0 || distinct_authors(includes, size as nat) >= quorum_of(size as nat)
}

impl Committee {
    /// Whether `block` is of the genesis round or names parents by a quorum
    /// of distinct members.
    pub fn is_connected(&self, block: &StatementBlock) -> (r: bool)
        ensures
            r == well_connected(block@.reference.round, block@.includes, self.spec_len()),
    {
        if block.round() == 0 {
            return true;
        }
        let includes = block.includes();
        let mut count: u64 = 0;
        let mut a: u64 = 0;
        while a < self.size
            invariant
                a <= self.size,
                count <= a,
                includes@ == block@.includes,
                count == distinct_authors(includes@, a as nat),
            decreases self.size - a,
        {
            let mut found = false;
            let mut k: usize = 0;
            while k < includes.len() && !found
                invariant
                    k <= includes.len(),
                    found ==> names_authority(includes@, a),
                    !found ==> forall|j: int| 0 <= j < k ==> (#[trigger] includes@[j]).authority != a,
                decreases includes.len() - k + (if found { 0int } else { 1int }),
            {
                if includes[k].authority == a {
                    found = true;
                } else {
                    k += 1;
                }
            }
            if found {
                count += 1;
            }
            a += 1;
        }
        count >= self.quorum_threshold()
    }

    /// A committee of `size` authorities, numbered from 0. `None` for an empty one.
    pub fn new(size: u64) -> (r: Option<Self>)
        ensures
            (size == 0) == (r is None),
            r matches Some(c) ==> c.spec_len() == size,
    {
        if size == 0 {
            None
        } else {
            Some(Committee { size })
        }
    }

    pub closed spec fn spec_len(&self) -> u64 {
        self.size
    }

    /// Number of authorities.
    #[verifier::when_used_as_spec(spec_len)]
    pub fn len(&self) -> (r: u64)
        ensures
            r == self.spec_len(),
    {
        self.size
    }

    pub open spec fn spec_known_authority(&self, authority: AuthorityIndex) -> bool {
        authority < self.spec_len()
    }

    /// Whether `authority` is a member.
    #[verifier::when_used_as_spec(spec_known_authority)]
    pub fn known_authority(&self, authority: AuthorityIndex) -> (r: bool)
        ensures
            r == self.spec_known_authority(authority),
    {
        authority < self.size
    }

    pub open spec fn spec_quorum_threshold(&self) -> u64 {
        quorum_of(self.spec_len() as nat) as u64
    }

    /// Votes needed for a quorum: `2f + 1` where the committee has `3f + 1` members.
    #[verifier::when_used_as_spec(spec_quorum_threshold)]
    pub fn quorum_threshold(&self) -> (r: u64)
        ensures
            r == quorum_of(self.spec_len() as nat),
            r == self.spec_quorum_threshold(),
    {
        if self.size == 0 {
            1
        } else {
            self.size - (self.size - 1) / 3
        }
    }

    pub open spec fn spec_validity_threshold(&self) -> u64 {
        validity_of(self.spec_len() as nat) as u64
    }

    /// Votes needed so that at least one comes from an honest authority: `f + 1`.
    #[verifier::when_used_as_spec(spec_validity_threshold)]
    pub fn validity_threshold(&self) -> (r: u64)
        ensures
            r == validity_of(self.spec_len() as nat),
            r == self.spec_validity_threshold(),
    {
        self.size / 3 + 1
    }

    /// The leader of a wave: a fixed function of the committee and the wave's
    /// number, so that every replica picks the same authority.
    pub fn elect_leader(&self, wave: u64) -> (r: AuthorityIndex)
        ensures
            r == leader_of(self.spec_len(), wave),
            self.spec_len() > 0 ==> self.spec_known_authority(r),
    {
        if self.size == 0 {
            0
        } else {
            let y: u64 = (wave ^ (wave >> 30)).wrapping_mul(0xbf58476d1ce4e5b9);
            (y ^ (y >> 27)) % self.size
        }
    }
}

/// With `3f + 1` members a quorum is `2f + 1` and the validity threshold `f + 1`.
pub proof fn lemma_thresholds(f: nat)
    ensures
        quorum_of(3 * f + 1) == 2 * f + 1,
        validity_of(3 * f + 1) == f + 1,
{
}

/// Two quorums of one committee share at least a validity threshold of members:
/// their sizes add up to at least the committee plus that threshold.
pub proof fn lemma_quorum_intersection(size: nat)
    ensures
        2 * quorum_of(size) >= size + validity_of(size),
{
}

} // verus!
