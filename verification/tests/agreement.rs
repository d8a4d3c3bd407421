use mysticeti_core::block_store::BlockStore;
use mysticeti_core::committee::Committee;
use mysticeti_core::committer::{Committer, LeaderStatus};
use mysticeti_core::types::{BlockReference, StatementBlock};

fn reference(authority: u64, round: u64) -> BlockReference {
    BlockReference::new(authority, round, 31 * round + authority)
}

/// A DAG of four authorities without equivocation: genesis blocks in round 0, and
/// in every later round each authority names three or four blocks of the round
/// before, chosen by a fixed rule.
fn dag(rounds: u64, seed: u64) -> Vec<StatementBlock> {
    let mut state = seed;
    let mut blocks = vec![];
    for round in 0..=rounds {
        for authority in 0..4u64 {
            let mut parents = vec![];
            if round > 0 {
                state = state.wrapping_mul(6364136223846793005).wrapping_add(1442695040888963407);
                let left_out = (state >> 33) % 5;
                for a in 0..4u64 {
                    if a != left_out {
                        parents.push(reference(a, round - 1));
                    }
                }
            }
            blocks.push(StatementBlock::new(authority, round, 31 * round + authority, parents, vec![]));
        }
    }
    blocks
}

fn is_prefix(short: &[LeaderStatus], long: &[LeaderStatus]) -> bool {
    short.len() <= long.len() && short == &long[..short.len()]
}

#[test]
fn every_block_of_the_dag_builds_on_a_quorum() {
    let committee = Committee::new(4).unwrap();
    for block in dag(12, 7) {
        assert!(block.is_valid());
        assert!(committee.is_connected(&block));
    }
}

#[test]
fn looking_often_or_once_gives_the_same_decisions() {
    let committee = Committee::new(4).unwrap();
    for seed in 0..20u64 {
        for wave_length in [2u64, 3, 4] {
            let blocks = dag(14, seed);
            let mut eager = Committer::new(committee, wave_length).unwrap();
            let mut eager_store = BlockStore::new();
            let mut log_so_far: Vec<LeaderStatus> = vec![];
            for block in &blocks {
                assert_eq!(eager_store.insert(block.duplicate()), Ok(()));
                let fresh = eager.try_commit(&eager_store);
                let before = log_so_far.clone();
                log_so_far.extend(fresh);
                assert!(is_prefix(&before, &log_so_far));
                assert_eq!(eager.committed_sequence(), &log_so_far);
            }
            let mut lazy = Committer::new(committee, wave_length).unwrap();
            let mut lazy_store = BlockStore::new();
            for block in &blocks {
                assert_eq!(lazy_store.insert(block.duplicate()), Ok(()));
            }
            let at_once = lazy.try_commit(&lazy_store);
            assert_eq!(at_once, log_so_far, "seed {seed}, waves of {wave_length}");
            assert!(!at_once.is_empty());
        }
    }
}

#[test]
fn a_replica_with_fewer_blocks_has_decided_a_beginning_of_the_whole() {
    let committee = Committee::new(4).unwrap();
    for seed in 0..20u64 {
        let blocks = dag(14, seed);
        let mut whole_store = BlockStore::new();
        for block in &blocks {
            assert_eq!(whole_store.insert(block.duplicate()), Ok(()));
        }
        let whole = Committer::new(committee, 2).unwrap().try_commit(&whole_store);
        // every store that holds the blocks up to some point in some causal order
        for cut in (0..blocks.len()).step_by(3) {
            let mut part_store = BlockStore::new();
            for block in &blocks[..cut] {
                assert_eq!(part_store.insert(block.duplicate()), Ok(()));
            }
            let part = Committer::new(committee, 2).unwrap().try_commit(&part_store);
            assert!(is_prefix(&part, &whole), "seed {seed}, cut {cut}");
        }
    }
}

#[test]
fn skipped_and_indirectly_committed_leaders_occur_and_agree() {
    let committee = Committee::new(4).unwrap();
    let mut skips = 0;
    let mut commits = 0;
    for seed in 0..40u64 {
        let blocks = dag(16, seed);
        let mut store = BlockStore::new();
        for block in &blocks {
            assert_eq!(store.insert(block.duplicate()), Ok(()));
        }
        for status in Committer::new(committee, 2).unwrap().try_commit(&store) {
            match status {
                LeaderStatus::Skip(authority, round) => {
                    assert_eq!(round % 2, 0);
                    assert_eq!(authority, committee.elect_leader(round / 2));
                    skips += 1;
                }
                LeaderStatus::Commit(r) => {
                    assert_eq!(r.authority, committee.elect_leader(r.round / 2));
                    commits += 1;
                }
            }
        }
    }
    assert!(commits > 0);
    assert!(skips > 0);
}

/// As [`dag`], but authority 3 makes two blocks in every odd round, which is never
/// the first round of a wave of two rounds; the blocks of the next round name one
/// of the two, or both.
fn dag_with_twins(rounds: u64, seed: u64) -> Vec<StatementBlock> {
    let mut state = seed;
    let mut next = move || {
        state = state.wrapping_mul(6364136223846793005).wrapping_add(1442695040888963407);
        state >> 33
    };
    let mut blocks = vec![];
    for round in 0..=rounds {
        for authority in 0..4u64 {
            let copies = if authority == 3 && round % 2 == 1 { 2 } else { 1 };
            for copy in 0..copies {
                let mut parents = vec![];
                if round > 0 {
                    let left_out = next() % 5;
                    for a in 0..4u64 {
                        if a == left_out {
                            continue;
                        }
                        if a == 3 && (round - 1) % 2 == 1 {
                            let which = next() % 3;
                            if which != 1 {
                                parents.push(reference(3, round - 1));
                            }
                            if which != 0 {
                                parents.push(BlockReference::new(3, round - 1, 31 * (round - 1) + 3 + 500));
                            }
                        } else {
                            parents.push(reference(a, round - 1));
                        }
                    }
                }
                blocks.push(StatementBlock::new(
                    authority,
                    round,
                    31 * round + authority + 500 * copy,
                    parents,
                    vec![],
                ));
            }
        }
    }
    blocks
}

#[test]
fn an_equivocating_voter_does_not_break_agreement() {
    let committee = Committee::new(4).unwrap();
    let mut skips = 0;
    for seed in 0..30u64 {
        let blocks = dag_with_twins(14, seed);
        for block in &blocks {
            assert!(committee.is_connected(block));
        }
        let mut whole_store = BlockStore::new();
        for block in &blocks {
            assert_eq!(whole_store.insert(block.duplicate()), Ok(()));
        }
        let whole = Committer::new(committee, 2).unwrap().try_commit(&whole_store);
        skips += whole.iter().filter(|d| matches!(d, LeaderStatus::Skip(..))).count();
        let mut eager = Committer::new(committee, 2).unwrap();
        let mut store = BlockStore::new();
        for block in &blocks {
            assert_eq!(store.insert(block.duplicate()), Ok(()));
            eager.try_commit(&store);
            assert!(is_prefix(eager.committed_sequence(), &whole), "seed {seed}");
        }
        assert_eq!(eager.committed_sequence(), &whole);
    }
    assert!(skips > 0);
}
