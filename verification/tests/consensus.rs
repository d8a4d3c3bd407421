use mysticeti_core::block_store::BlockStore;
use mysticeti_core::commit_interpreter::CommitInterpreter;
use mysticeti_core::committee::Committee;
use mysticeti_core::committer::{support_of, Committer, LeaderStatus, DEFAULT_WAVE_LENGTH};
use mysticeti_core::threshold_clock::ThresholdClock;
use mysticeti_core::types::{BlockReference, StatementBlock};

fn reference(authority: u64, round: u64) -> BlockReference {
    BlockReference::new(authority, round, 1000 * round + authority)
}

fn block(authority: u64, round: u64, parents: &[BlockReference]) -> StatementBlock {
    StatementBlock::new(authority, round, 1000 * round + authority, parents.to_vec(), vec![])
}

/// Adds round `round` for the given authorities, each block naming `parents`.
fn add_round(store: &mut BlockStore, round: u64, authorities: &[u64], parents: &[BlockReference]) {
    for a in authorities {
        assert_eq!(store.insert(block(*a, round, parents)), Ok(()));
    }
}

fn all(round: u64) -> Vec<BlockReference> {
    (0..4).map(|a| reference(a, round)).collect()
}

/// Rounds 1 to `rounds`, each block naming every block of the round before.
fn full_dag(rounds: u64) -> BlockStore {
    let mut store = BlockStore::new();
    add_round(&mut store, 1, &[0, 1, 2, 3], &[]);
    for round in 2..=rounds {
        add_round(&mut store, round, &[0, 1, 2, 3], &all(round - 1));
    }
    store
}

#[test]
fn clock_starts_at_round_zero() {
    let clock = ThresholdClock::new(Committee::new(4).unwrap());
    assert_eq!(clock.ready_round(), 0);
}

#[test]
fn clock_advances_only_with_a_quorum_of_distinct_authorities() {
    let mut clock = ThresholdClock::new(Committee::new(4).unwrap());
    clock.add_block(&reference(0, 0));
    clock.add_block(&reference(1, 0));
    assert_eq!(clock.ready_round(), 0);
    // the same authority again, even with another digest, does not count twice
    clock.add_block(&BlockReference::new(1, 0, 77));
    assert_eq!(clock.ready_round(), 0);
    // nor does an authority outside the committee
    clock.add_block(&reference(9, 0));
    assert_eq!(clock.ready_round(), 0);
    clock.add_block(&reference(3, 0));
    assert_eq!(clock.ready_round(), 1);
}

#[test]
fn clock_ignores_other_rounds_and_never_moves_backward() {
    let mut clock = ThresholdClock::new(Committee::new(4).unwrap());
    clock.add_blocks(&all(0));
    assert_eq!(clock.ready_round(), 1);
    // late blocks of round 0 and early blocks of round 2 change nothing
    clock.add_blocks(&all(0));
    clock.add_blocks(&all(2));
    assert_eq!(clock.ready_round(), 1);
    clock.add_blocks(&all(1));
    assert_eq!(clock.ready_round(), 2);
    // the fourth block of round 1 came after the move to round 2
    clock.add_block(&reference(0, 2));
    clock.add_block(&reference(1, 2));
    assert_eq!(clock.ready_round(), 2);
    clock.add_block(&reference(2, 2));
    assert_eq!(clock.ready_round(), 3);
}

#[test]
fn clock_replay_rederives_the_round() {
    let committee = Committee::new(4).unwrap();
    let mut seen = vec![];
    for round in 0..3 {
        seen.extend(all(round));
    }
    seen.push(reference(0, 3));
    let replayed = ThresholdClock::replay(committee, &seen);
    let mut stepped = ThresholdClock::new(committee);
    stepped.add_blocks(&seen);
    assert_eq!(replayed.ready_round(), 3);
    assert_eq!(stepped.ready_round(), 3);
}

#[test]
fn support_counts_distinct_voters_of_the_next_round() {
    let committee = Committee::new(4).unwrap();
    let mut store = BlockStore::new();
    add_round(&mut store, 1, &[0, 1, 2, 3], &[]);
    add_round(&mut store, 2, &[0, 1], &[reference(2, 1), reference(0, 1)]);
    add_round(&mut store, 2, &[3], &[reference(0, 1)]);
    assert_eq!(support_of(&store, &reference(2, 1), &committee), 2);
    assert_eq!(support_of(&store, &reference(0, 1), &committee), 3);
    assert_eq!(support_of(&store, &reference(1, 1), &committee), 0);
    // a second block of authority 0 in round 2 does not add a voter
    assert_eq!(
        store.insert(StatementBlock::new(0, 2, 5, vec![reference(2, 1)], vec![])),
        Ok(())
    );
    assert_eq!(support_of(&store, &reference(2, 1), &committee), 2);
}

#[test]
fn committer_needs_waves_of_two_rounds() {
    let committee = Committee::new(4).unwrap();
    assert!(Committer::new(committee, 0).is_none());
    assert!(Committer::new(committee, 1).is_none());
    assert!(Committer::new(committee, 2).is_some());
    assert_eq!(DEFAULT_WAVE_LENGTH, 3);
}

#[test]
fn leader_of_round_three_is_committed_once_a_quorum_of_round_four_names_it() {
    let committee = Committee::new(4).unwrap();
    let leader = committee.elect_leader(1);
    assert_eq!(leader, 2);
    let mut committer = Committer::new(committee, DEFAULT_WAVE_LENGTH).unwrap();
    let mut interpreter = CommitInterpreter::new();

    let mut store = full_dag(3);
    assert_eq!(committer.try_commit(&store), vec![]);
    // two blocks of round 4 name the leader: not yet a quorum
    add_round(&mut store, 4, &[0, 1], &all(3));
    assert_eq!(committer.try_commit(&store), vec![]);
    // a third block of round 4 that does not name the leader changes nothing
    let without: Vec<BlockReference> = all(3).into_iter().filter(|r| r.authority != leader).collect();
    add_round(&mut store, 4, &[2], &without);
    assert_eq!(committer.try_commit(&store), vec![]);
    // the third vote commits the leader
    add_round(&mut store, 4, &[3], &all(3));
    let decided = committer.try_commit(&store);
    assert_eq!(decided, vec![LeaderStatus::Commit(reference(leader, 3))]);
    assert_eq!(committer.committed_sequence(), &decided);

    let sub_dags = interpreter.handle_commit(&store, &vec![reference(leader, 3)]);
    assert_eq!(sub_dags.len(), 1);
    assert_eq!(sub_dags[0].anchor, reference(leader, 3));
    let got: Vec<BlockReference> = sub_dags[0].blocks.iter().map(|b| b.reference()).collect();
    let mut expected = all(1);
    expected.extend(all(2));
    expected.push(reference(leader, 3));
    assert_eq!(got, expected);

    // round 5 adds nothing for wave 1, and wave 2 starts at round 6
    add_round(&mut store, 5, &[0, 1, 2, 3], &[reference(0, 4), reference(1, 4), reference(3, 4)]);
    assert_eq!(committer.try_commit(&store), vec![]);
}

#[test]
fn committing_twice_without_new_blocks_adds_nothing() {
    let committee = Committee::new(4).unwrap();
    let mut committer = Committer::new(committee, 3).unwrap();
    let store = full_dag(8);
    let first = committer.try_commit(&store);
    assert_eq!(
        first,
        vec![
            LeaderStatus::Commit(reference(committee.elect_leader(1), 3)),
            LeaderStatus::Commit(reference(committee.elect_leader(2), 6)),
        ]
    );
    assert_eq!(committer.try_commit(&store), vec![]);
    assert_eq!(committer.try_commit(&store), vec![]);
    assert_eq!(committer.committed_sequence(), &first);
}

#[test]
fn two_replicas_with_the_same_blocks_decide_the_same() {
    let committee = Committee::new(4).unwrap();
    let mut one = Committer::new(committee, 3).unwrap();
    let mut other = Committer::new(committee, 3).unwrap();
    let mut store = BlockStore::new();
    add_round(&mut store, 1, &[0, 1, 2, 3], &[]);
    for round in 2..=10 {
        add_round(&mut store, round, &[0, 1, 2, 3], &all(round - 1));
        let before = one.committed_sequence().clone();
        let a = one.try_commit(&store);
        let b = other.try_commit(&store);
        assert_eq!(a, b);
        assert_eq!(one.committed_sequence(), other.committed_sequence());
        assert_eq!(&one.committed_sequence()[..before.len()], &before[..]);
    }
    assert_eq!(one.committed_sequence().len(), 3);
}

#[test]
fn a_leader_without_a_quorum_is_settled_by_the_next_committed_leader() {
    // wave length 2 in a committee of 4: the leaders are those of rounds 2, 4, 6, ...
    let committee = Committee::new(4).unwrap();
    let l1 = committee.elect_leader(1);
    let l2 = committee.elect_leader(2);
    let mut committer = Committer::new(committee, 2).unwrap();
    let mut store = full_dag(2);
    // round 3: only one block names the leader of round 2
    let without: Vec<BlockReference> = all(2).into_iter().filter(|r| r.authority != l1).collect();
    add_round(&mut store, 3, &[0], &all(2));
    add_round(&mut store, 3, &[1, 2, 3], &without);
    assert_eq!(committer.try_commit(&store), vec![]);
    // the leader of round 4 reaches the leader of round 2 only through the block of authority 0
    let through_zero = vec![reference(0, 3), reference(1, 3), reference(2, 3)];
    let around_zero = vec![reference(1, 3), reference(2, 3), reference(3, 3)];
    for a in 0..4 {
        let parents = if a == l2 { &through_zero } else { &around_zero };
        add_round(&mut store, 4, &[a], parents);
    }
    add_round(&mut store, 5, &[0, 1, 2, 3], &all(4));
    assert_eq!(
        committer.try_commit(&store),
        vec![LeaderStatus::Commit(reference(l1, 2)), LeaderStatus::Commit(reference(l2, 4))]
    );
}

#[test]
fn a_leader_that_nobody_reaches_is_skipped() {
    let committee = Committee::new(4).unwrap();
    let l1 = committee.elect_leader(1);
    let l2 = committee.elect_leader(2);
    let mut committer = Committer::new(committee, 2).unwrap();
    let mut store = full_dag(2);
    let without: Vec<BlockReference> = all(2).into_iter().filter(|r| r.authority != l1).collect();
    add_round(&mut store, 3, &[0, 1, 2, 3], &without);
    add_round(&mut store, 4, &[0, 1, 2, 3], &all(3));
    assert_eq!(committer.try_commit(&store), vec![]);
    add_round(&mut store, 5, &[0, 1, 2, 3], &all(4));
    assert_eq!(
        committer.try_commit(&store),
        vec![LeaderStatus::Skip(l1, 2), LeaderStatus::Commit(reference(l2, 4))]
    );
    assert_eq!(committer.try_commit(&store), vec![]);
}

#[test]
fn a_missing_leader_block_is_skipped() {
    let committee = Committee::new(4).unwrap();
    let l1 = committee.elect_leader(1);
    let l2 = committee.elect_leader(2);
    let others: Vec<u64> = (0..4).filter(|a| *a != l1).collect();
    let mut committer = Committer::new(committee, 2).unwrap();
    let mut store = BlockStore::new();
    add_round(&mut store, 1, &[0, 1, 2, 3], &[]);
    add_round(&mut store, 2, &others, &all(1));
    let round_two: Vec<BlockReference> = others.iter().map(|a| reference(*a, 2)).collect();
    add_round(&mut store, 3, &[0, 1, 2, 3], &round_two);
    add_round(&mut store, 4, &[0, 1, 2, 3], &all(3));
    add_round(&mut store, 5, &[0, 1, 2, 3], &all(4));
    assert_eq!(
        committer.try_commit(&store),
        vec![LeaderStatus::Skip(l1, 2), LeaderStatus::Commit(reference(l2, 4))]
    );
}

#[test]
fn of_two_certified_blocks_of_one_leader_the_better_supported_wins() {
    // An equivocating leader: two blocks in round 2. With a committee of 4 both can
    // only reach a quorum if voters equivocate too; the rule still picks one.
    let committee = Committee::new(4).unwrap();
    let l1 = committee.elect_leader(1);
    let mut committer = Committer::new(committee, 2).unwrap();
    let mut store = full_dag(2);
    let twin = BlockReference::new(l1, 2, 1);
    assert_eq!(store.insert(StatementBlock::new(l1, 2, 1, all(1), vec![])), Ok(()));
    // three authorities vote for the first block, all four (with second blocks) for the twin
    add_round(&mut store, 3, &[0, 1, 2], &all(2));
    for a in 0..4 {
        assert_eq!(store.insert(StatementBlock::new(a, 3, 50 + a, vec![twin], vec![])), Ok(()));
    }
    assert_eq!(support_of(&store, &reference(l1, 2), &committee), 3);
    assert_eq!(support_of(&store, &twin, &committee), 4);
    assert_eq!(committer.try_commit(&store), vec![LeaderStatus::Commit(twin)]);
}

#[test]
fn of_two_equally_supported_blocks_the_lower_digest_wins() {
    let committee = Committee::new(4).unwrap();
    let l1 = committee.elect_leader(1);
    let mut committer = Committer::new(committee, 2).unwrap();
    let mut store = full_dag(2);
    let twin = BlockReference::new(l1, 2, 1);
    assert_eq!(store.insert(StatementBlock::new(l1, 2, 1, all(1), vec![])), Ok(()));
    let mut both = all(2);
    both.push(twin);
    add_round(&mut store, 3, &[0, 1, 2], &both);
    assert_eq!(committer.try_commit(&store), vec![LeaderStatus::Commit(twin)]);
}

#[test]
fn sub_dags_take_each_block_once() {
    let committee = Committee::new(4).unwrap();
    let mut committer = Committer::new(committee, 3).unwrap();
    let mut interpreter = CommitInterpreter::new();
    let store = full_dag(8);
    let leaders: Vec<BlockReference> = committer
        .try_commit(&store)
        .into_iter()
        .map(|d| match d {
            LeaderStatus::Commit(r) => r,
            LeaderStatus::Skip(..) => panic!("no skip expected"),
        })
        .collect();
    assert!(interpreter.is_empty());
    let sub_dags = interpreter.handle_commit(&store, &leaders);
    assert!(!interpreter.is_empty());
    assert_eq!(sub_dags.len(), 2);
    let first: Vec<BlockReference> = sub_dags[0].blocks.iter().map(|b| b.reference()).collect();
    let second: Vec<BlockReference> = sub_dags[1].blocks.iter().map(|b| b.reference()).collect();
    assert_eq!(first.len(), 9);
    // rounds 3 (without the first leader), 4 and 5, and the second leader
    assert_eq!(second.len(), 3 + 4 + 4 + 1);
    for r in &second {
        assert!(!first.contains(r));
        assert!(interpreter.is_committed(r));
    }
    assert_eq!(second.last(), Some(&leaders[1]));
    // handling the same leaders again yields empty sub-DAGs
    let again = interpreter.handle_commit(&store, &leaders);
    assert_eq!(again.len(), 2);
    assert!(again[0].blocks.is_empty() && again[1].blocks.is_empty());
}

#[test]
fn recovered_interpreter_does_not_emit_committed_blocks_again() {
    let store = full_dag(3);
    let mut interpreter = CommitInterpreter::new();
    let mut committed = all(1);
    committed.extend(all(2));
    interpreter.recover(committed);
    let sub_dags = interpreter.handle_commit(&store, &vec![reference(1, 3)]);
    let got: Vec<BlockReference> = sub_dags[0].blocks.iter().map(|b| b.reference()).collect();
    assert_eq!(got, vec![reference(1, 3)]);
}

#[test]
fn waiting_waves_are_settled_from_the_latest_committed_leader() {
    // Waves of two rounds: the leaders are those of rounds 2, 4 and 6.
    let committee = Committee::new(4).unwrap();
    let (l1, l2, l3) = (committee.elect_leader(1), committee.elect_leader(2), committee.elect_leader(3));
    assert_eq!((l1, l2, l3), (2, 1, 1));
    let mut committer = Committer::new(committee, 2).unwrap();
    let mut store = full_dag(2);
    // round 3: only authority 0 names the leader of round 2
    let without_l1: Vec<BlockReference> = all(2).into_iter().filter(|r| r.authority != l1).collect();
    add_round(&mut store, 3, &[0], &all(2));
    add_round(&mut store, 3, &[1, 2, 3], &without_l1);
    // round 4: the leader does not build on the block of authority 0, the others do
    let around_zero = vec![reference(1, 3), reference(2, 3), reference(3, 3)];
    add_round(&mut store, 4, &[l2], &around_zero);
    add_round(&mut store, 4, &[0, 2, 3], &all(3));
    // round 5: two votes for the leader of round 4, one short of a quorum
    let without_l2: Vec<BlockReference> = all(4).into_iter().filter(|r| r.authority != l2).collect();
    add_round(&mut store, 5, &[0, 1], &all(4));
    add_round(&mut store, 5, &[2, 3], &without_l2);
    add_round(&mut store, 6, &[0, 1, 2, 3], &all(5));
    assert_eq!(committer.try_commit(&store), vec![]);
    add_round(&mut store, 7, &[0, 1, 2, 3], &all(6));
    // The leader of round 6 reaches both earlier leaders, but the leader of
    // round 4, which it commits, does not reach the leader of round 2.
    let reached: Vec<BlockReference> =
        store.linked_ancestors(reference(l3, 6), &vec![]).iter().map(|b| b.reference()).collect();
    assert!(reached.contains(&reference(l1, 2)) && reached.contains(&reference(l2, 4)));
    assert_eq!(
        committer.try_commit(&store),
        vec![
            LeaderStatus::Skip(l1, 2),
            LeaderStatus::Commit(reference(l2, 4)),
            LeaderStatus::Commit(reference(l3, 6)),
        ]
    );
    assert_eq!(committer.try_commit(&store), vec![]);
}
