use mysticeti_core::block_handler::{
    share_of, BlockHandler, NoOpBlockHandler, RealBlockHandler, TestBlockHandler,
};
use mysticeti_core::block_store::BlockStore;
use mysticeti_core::codec::StateError;
use mysticeti_core::commit_handler::{CommitData, RecoveryError, TestCommitHandler};
use mysticeti_core::committee::Committee;
use mysticeti_core::latency::TransactionTimes;
use mysticeti_core::log::CertifiedTransactionLog;
use mysticeti_core::aggregator::TransactionAggregator;
use mysticeti_core::types::{BaseStatement, BlockReference, StatementBlock, Transaction};

fn share(id: u64) -> BaseStatement {
    BaseStatement::Share(id, Transaction::new(id.to_le_bytes().to_vec()))
}

fn block_with(authority: u64, round: u64, parents: Vec<BlockReference>, ids: &[u64]) -> StatementBlock {
    StatementBlock::new(authority, round, 10 * round + authority, parents, ids.iter().map(|i| share(*i)).collect())
}

fn ids(statements: &[BaseStatement]) -> Vec<u64> {
    statements.iter().map(|s| s.id()).collect()
}

#[test]
fn own_share_carries_the_id_as_payload() {
    match share_of(0x0102030405060708) {
        BaseStatement::Share(id, tx) => {
            assert_eq!(id, 0x0102030405060708);
            assert_eq!(tx.data(), &vec![8, 7, 6, 5, 4, 3, 2, 1]);
        }
    }
}

#[test]
fn test_handler_numbers_its_transactions_consecutively() {
    let committee = Committee::new(4).unwrap();
    let mut handler = TestBlockHandler::new(0, committee, 0);
    let mut times = TransactionTimes::new();
    let first = handler.handle_blocks(&vec![], &mut times, 100);
    assert_eq!(ids(&first), vec![1]);
    assert_eq!(handler.last_transaction(), 1);
    assert_eq!(times.get(1), Some(100));
    let second = handler.handle_blocks(&vec![], &mut times, 150);
    assert_eq!(ids(&second), vec![2]);
    assert_eq!(times.get(2), Some(150));
    assert_eq!(times.get(3), None);
}

#[test]
fn test_handler_recovers_its_last_transaction_from_own_blocks() {
    let committee = Committee::new(4).unwrap();
    let mut handler = TestBlockHandler::new(5, committee, 2);
    let mut times = TransactionTimes::new();
    let blocks = vec![
        block_with(2, 1, vec![], &[40, 7]),
        block_with(1, 1, vec![], &[900]),
        block_with(2, 2, vec![], &[12]),
    ];
    let response = handler.handle_blocks(&blocks, &mut times, 0);
    assert_eq!(response[0].id(), 41);
    assert_eq!(handler.last_transaction(), 41);
}

#[test]
fn transaction_is_reported_certified_on_the_third_distinct_echo() {
    let committee = Committee::new(4).unwrap();
    // authority 0 shares transaction 1 at time 10
    let mut handler = TestBlockHandler::new(0, committee, 0);
    let mut times = TransactionTimes::new();
    let response = handler.handle_blocks(&vec![], &mut times, 10);
    assert_eq!(ids(&response), vec![1]);
    assert!(!handler.is_certified(1));
    // authority 1 echoes it
    let response = handler.handle_blocks(&vec![block_with(1, 1, vec![], &[1])], &mut times, 20);
    assert_eq!(ids(&response), vec![2]);
    assert!(!handler.is_certified(1));
    assert_eq!(handler.transaction_certified_latency().len(), 0);
    // authority 1 again, and then authority 2: the third distinct echo certifies
    let response = handler.handle_blocks(
        &vec![block_with(1, 2, vec![], &[1]), block_with(2, 2, vec![], &[1, 1])],
        &mut times,
        35,
    );
    assert_eq!(ids(&response), vec![3, 1]);
    assert!(handler.is_certified(1));
    assert_eq!(handler.transaction_certified_latency().points(), &vec![25]);
    // a fourth echo reports nothing
    let response = handler.handle_blocks(&vec![block_with(3, 2, vec![], &[1])], &mut times, 50);
    assert_eq!(ids(&response), vec![4]);
    assert_eq!(handler.transaction_certified_latency().points(), &vec![25]);
}

#[test]
fn test_handler_state_round_trips_byte_for_byte() {
    let committee = Committee::new(4).unwrap();
    let mut handler = TestBlockHandler::new(0, committee, 0);
    let mut times = TransactionTimes::new();
    handler.handle_blocks(&vec![block_with(1, 1, vec![], &[8, 9]), block_with(2, 1, vec![], &[8])], &mut times, 1);
    let blob = handler.state();
    let mut fresh = TestBlockHandler::new(77, committee, 0);
    assert_eq!(fresh.recover_state(&blob), Ok(()));
    assert_eq!(fresh.last_transaction(), 1);
    assert_eq!(fresh.state(), blob);
    assert_eq!(handler.recover_state(&blob), Ok(()));
    assert_eq!(handler.state(), blob);
    // the recovered handler goes on as the first one would
    let a = handler.handle_blocks(&vec![block_with(3, 1, vec![], &[8])], &mut times, 2);
    let b = fresh.handle_blocks(&vec![block_with(3, 1, vec![], &[8])], &mut times, 2);
    assert_eq!(ids(&a), vec![2, 8]);
    assert_eq!(ids(&a), ids(&b));
    assert_eq!(handler.state(), fresh.state());
}

#[test]
fn test_handler_state_has_the_documented_layout() {
    let committee = Committee::new(4).unwrap();
    let mut handler = TestBlockHandler::new(6, committee, 3);
    let mut times = TransactionTimes::new();
    handler.handle_blocks(&vec![], &mut times, 0);
    let mut votes = vec![];
    votes.extend(1u64.to_le_bytes()); // one record
    votes.extend(7u64.to_le_bytes()); // transaction 7
    votes.push(0); // not certified
    votes.extend(1u64.to_le_bytes()); // one vote
    votes.extend(3u64.to_le_bytes()); // by authority 3
    let mut expected = vec![];
    expected.extend((votes.len() as u64).to_le_bytes());
    expected.extend(votes);
    expected.extend(7u64.to_le_bytes());
    assert_eq!(handler.state(), expected);
}

#[test]
fn test_handler_refuses_malformed_state_and_stays_as_it_was() {
    let committee = Committee::new(4).unwrap();
    let mut handler = TestBlockHandler::new(3, committee, 0);
    let mut times = TransactionTimes::new();
    handler.handle_blocks(&vec![], &mut times, 0);
    let blob = handler.state();
    assert_eq!(handler.recover_state(&vec![]), Err(StateError::Malformed));
    assert_eq!(handler.recover_state(&vec![1, 2, 3]), Err(StateError::Malformed));
    assert_eq!(handler.recover_state(&blob[..blob.len() - 1].to_vec()), Err(StateError::Malformed));
    let mut broken = blob.clone();
    broken[8 + 8 + 8] = 2; // the certified flag of the first record
    assert_eq!(handler.recover_state(&broken), Err(StateError::Malformed));
    assert_eq!(handler.state(), blob);
    assert_eq!(handler.last_transaction(), 4);
    // bytes after the pair are ignored
    let mut longer = blob.clone();
    longer.push(9);
    assert_eq!(handler.recover_state(&longer), Ok(()));
    assert_eq!(handler.state(), blob);
}

#[test]
fn aggregator_state_round_trips_and_rejects_what_is_no_state() {
    let committee = Committee::new(4).unwrap();
    let mut aggregator = TransactionAggregator::new();
    assert_eq!(aggregator.state(), 0u64.to_le_bytes().to_vec());
    for (id, authority) in [(5u64, 0u64), (5, 1), (6, 2), (5, 2), (6, 0)] {
        aggregator.register(id, authority, &committee);
    }
    let blob = aggregator.state();
    let mut other = TransactionAggregator::new();
    assert_eq!(other.with_state(&blob), Ok(()));
    assert_eq!(other.state(), blob);
    assert!(other.is_processed(&5));
    assert!(!other.is_processed(&6));
    // trailing bytes, a missing byte, a repeated record and a repeated vote are refused
    let mut longer = blob.clone();
    longer.push(0);
    assert_eq!(other.with_state(&longer), Err(StateError::Malformed));
    assert_eq!(other.with_state(&blob[..blob.len() - 1].to_vec()), Err(StateError::Malformed));
    let record = |id: u64, votes: &[u64]| {
        let mut r = vec![];
        r.extend(id.to_le_bytes());
        r.push(0);
        r.extend((votes.len() as u64).to_le_bytes());
        for v in votes {
            r.extend(v.to_le_bytes());
        }
        r
    };
    let mut twice = 2u64.to_le_bytes().to_vec();
    twice.extend(record(1, &[0]));
    twice.extend(record(1, &[2]));
    assert_eq!(other.with_state(&twice), Err(StateError::Malformed));
    let mut double_vote = 1u64.to_le_bytes().to_vec();
    double_vote.extend(record(1, &[3, 3]));
    assert_eq!(other.with_state(&double_vote), Err(StateError::Malformed));
    let mut too_many = u64::MAX.to_le_bytes().to_vec();
    too_many.extend(record(1, &[0]));
    assert_eq!(other.with_state(&too_many), Err(StateError::Malformed));
    assert_eq!(other.state(), blob);
}

#[test]
fn real_handler_shares_the_given_transaction_and_logs_every_echo() {
    let committee = Committee::new(4).unwrap();
    let mut handler = RealBlockHandler::new(committee, 1);
    let mut times = TransactionTimes::new();
    let blocks = vec![block_with(0, 1, vec![], &[70, 71]), block_with(2, 1, vec![], &[70])];
    let response = handler.handle_blocks_with(500, &blocks, &mut times, 9);
    assert_eq!(ids(&response), vec![500]);
    assert_eq!(times.get(500), Some(9));
    assert_eq!(handler.take_log(), vec![500, 70, 71, 70]);
    assert_eq!(handler.take_log(), vec![]);
    let response = handler.handle_blocks_with(501, &vec![block_with(3, 1, vec![], &[70, 500])], &mut times, 12);
    assert_eq!(ids(&response), vec![501, 70]);
    assert!(handler.is_certified(70));
    assert!(!handler.is_certified(500));
    assert_eq!(handler.take_log(), vec![501, 70, 500]);
}

#[test]
fn real_handler_draws_its_own_transactions() {
    let committee = Committee::new(4).unwrap();
    let mut a = RealBlockHandler::new(committee, 1);
    let mut b = RealBlockHandler::new(committee, 1);
    let mut times = TransactionTimes::new();
    let first = a.handle_blocks(&vec![], &mut times, 0);
    assert_eq!(first.len(), 1);
    let id = first[0].id();
    assert_eq!(times.get(id), Some(0));
    match &first[0] {
        BaseStatement::Share(_, tx) => assert_eq!(tx.data(), &id.to_le_bytes().to_vec()),
    }
    // the generator is seeded with the authority's index
    let same = b.handle_blocks(&vec![], &mut times, 0);
    assert_eq!(same[0].id(), id);
    let next = a.handle_blocks(&vec![], &mut times, 0);
    assert_ne!(next[0].id(), id);
}

#[test]
fn real_handler_state_round_trips_byte_for_byte() {
    let committee = Committee::new(4).unwrap();
    let mut handler = RealBlockHandler::new(committee, 0);
    let mut times = TransactionTimes::new();
    handler.handle_blocks_with(3, &vec![block_with(1, 1, vec![], &[3, 4])], &mut times, 0);
    let blob = handler.state();
    let mut fresh = RealBlockHandler::new(committee, 0);
    assert_eq!(fresh.recover_state(&blob), Ok(()));
    assert_eq!(fresh.state(), blob);
    let mut longer = blob.clone();
    longer.push(1);
    assert_eq!(fresh.recover_state(&longer), Err(StateError::Malformed));
    assert_eq!(fresh.state(), blob);
}

#[test]
fn log_keeps_the_order_of_what_it_was_given() {
    let mut log = CertifiedTransactionLog::new();
    log.record(4);
    log.record_blocks(&vec![block_with(0, 1, vec![], &[9, 8]), block_with(1, 1, vec![], &[])]);
    log.record(4);
    assert_eq!(log.pending(), &vec![4, 9, 8, 4]);
    assert_eq!(log.take(), vec![4, 9, 8, 4]);
    assert!(log.pending().is_empty());
}

fn small_store() -> (BlockStore, Vec<BlockReference>) {
    let mut store = BlockStore::new();
    let mut round_one = vec![];
    for a in 0..4u64 {
        let b = block_with(a, 1, vec![], &[100 + a, 7]);
        round_one.push(b.reference());
        assert_eq!(store.insert(b), Ok(()));
    }
    let leader = block_with(1, 2, round_one.clone(), &[7, 200]);
    let anchor = leader.reference();
    assert_eq!(store.insert(leader), Ok(()));
    (store, vec![anchor])
}

#[test]
fn commit_handler_reports_sub_dags_and_measures_latencies() {
    let committee = Committee::new(4).unwrap();
    let (store, leaders) = small_store();
    let mut times = TransactionTimes::new();
    times.insert(7, 40);
    times.insert(101, 90);
    times.insert(200, 500);
    let mut handler = TestCommitHandler::new(committee);
    let data: Vec<CommitData> = handler.handle_commit(&store, &leaders, &times, 100);
    assert_eq!(data.len(), 1);
    assert_eq!(data[0].leader, leaders[0]);
    assert_eq!(data[0].sub_dag.len(), 5);
    assert_eq!(data[0].sub_dag[4], leaders[0]);
    assert_eq!(handler.committed_leaders(), &leaders);
    assert_eq!(handler.committed_dags().len(), 1);
    // transaction 7 is certified by the third block of round 1; its time is known
    assert_eq!(handler.certificate_committed_latency().points(), &vec![60]);
    // every statement with a known time counts; the clock never runs backward
    assert_eq!(handler.transaction_committed_latency().points(), &vec![60, 10, 60, 60, 60, 60, 0]);
    // nothing is committed twice
    let again = handler.handle_commit(&store, &leaders, &times, 100);
    assert_eq!(again.len(), 1);
    assert!(again[0].sub_dag.is_empty());
    assert_eq!(handler.committed_leaders().len(), 2);
    assert_eq!(handler.transaction_committed_latency().len(), 7);
}

#[test]
fn recovery_needs_committed_blocks_and_state_together() {
    let committee = Committee::new(4).unwrap();
    let (store, leaders) = small_store();
    let times = TransactionTimes::new();
    let mut first = TestCommitHandler::new(committee);
    let data = first.handle_commit(&store, &leaders, &times, 0);
    let committed = data[0].sub_dag.clone();
    let state = first.aggregator_state();

    let mut handler = TestCommitHandler::new(committee);
    assert_eq!(
        handler.recover_committed(committed.clone(), None),
        Err(RecoveryError::InconsistentRecoveryState)
    );
    assert_eq!(
        handler.recover_committed(vec![], Some(state.clone())),
        Err(RecoveryError::InconsistentRecoveryState)
    );
    assert_eq!(
        handler.recover_committed(committed.clone(), Some(vec![1, 2])),
        Err(RecoveryError::MalformedState)
    );
    assert_eq!(handler.aggregator_state(), TestCommitHandler::new(committee).aggregator_state());
    assert_eq!(handler.recover_committed(vec![], None), Ok(()));
    assert_eq!(handler.recover_committed(committed, Some(state.clone())), Ok(()));
    assert_eq!(handler.aggregator_state(), state);
    // what was committed before the restart is not committed again
    let again = handler.handle_commit(&store, &leaders, &times, 0);
    assert!(again[0].sub_dag.is_empty());
}

#[test]
fn no_op_handler_says_nothing_and_keeps_nothing() {
    let mut handler = NoOpBlockHandler::new();
    let mut times = TransactionTimes::new();
    let response = handler.handle_blocks(&vec![block_with(1, 1, vec![], &[4])], &mut times, 3);
    assert!(response.is_empty());
    assert_eq!(times.get(4), None);
    assert_eq!(handler.state(), Vec::<u8>::new());
    assert_eq!(handler.recover_state(&vec![]), Ok(()));
    assert_eq!(handler.recover_state(&vec![0]), Err(StateError::Malformed));
}
