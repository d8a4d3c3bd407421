use mysticeti_core::aggregator::TransactionAggregator;
use mysticeti_core::committee::Committee;
use mysticeti_core::types::{BaseStatement, StatementBlock, Transaction};

fn share(id: u64) -> BaseStatement {
    BaseStatement::Share(id, Transaction::new(id.to_le_bytes().to_vec()))
}

fn block_with(authority: u64, round: u64, ids: &[u64]) -> StatementBlock {
    StatementBlock::new(authority, round, 7, vec![], ids.iter().map(|id| share(*id)).collect())
}

#[test]
fn thresholds_for_four_authorities() {
    let committee = Committee::new(4).unwrap();
    assert_eq!(committee.len(), 4);
    assert_eq!(committee.quorum_threshold(), 3);
    assert_eq!(committee.validity_threshold(), 2);
    assert!(committee.known_authority(3));
    assert!(!committee.known_authority(4));
}

#[test]
fn thresholds_for_other_sizes() {
    for (size, quorum, validity) in [(1u64, 1u64, 1u64), (2, 2, 1), (3, 3, 2), (7, 5, 3), (10, 7, 4)] {
        let committee = Committee::new(size).unwrap();
        assert_eq!(committee.quorum_threshold(), quorum);
        assert_eq!(committee.validity_threshold(), validity);
    }
    let huge = Committee::new(u64::MAX).unwrap();
    assert_eq!(huge.quorum_threshold(), 12297829382473034411);
    assert!(Committee::new(0).is_none());
}

#[test]
fn leader_is_a_fixed_member() {
    let committee = Committee::new(4).unwrap();
    assert_eq!(committee.elect_leader(0), 0);
    assert_eq!(committee.elect_leader(1), 2);
    assert_eq!(committee.elect_leader(2), 1);
    assert_eq!(committee.elect_leader(3), 1);
    assert_eq!(committee.elect_leader(5), 3);
    for wave in 0..200 {
        assert!(committee.elect_leader(wave) < 4);
        assert_eq!(committee.elect_leader(wave), committee.elect_leader(wave));
    }
}

#[test]
fn transaction_is_certified_once_on_the_third_distinct_echo() {
    let committee = Committee::new(4).unwrap();
    let mut aggregator = TransactionAggregator::new();
    let t = 42;
    assert_eq!(aggregator.process_block(&block_with(0, 1, &[t]), None, &committee), vec![]);
    assert!(!aggregator.is_processed(&t));
    // the same authority again, in a later round: no new echo
    assert_eq!(aggregator.process_block(&block_with(0, 2, &[t]), None, &committee), vec![]);
    assert_eq!(aggregator.process_block(&block_with(1, 2, &[t]), None, &committee), vec![]);
    assert!(!aggregator.is_processed(&t));
    assert_eq!(aggregator.process_block(&block_with(2, 3, &[t]), None, &committee), vec![t]);
    assert!(aggregator.is_processed(&t));
    // a fourth echo does not certify again
    assert_eq!(aggregator.process_block(&block_with(3, 3, &[t]), None, &committee), vec![]);
    assert!(aggregator.is_processed(&t));
}

#[test]
fn register_counts_as_an_echo() {
    let committee = Committee::new(4).unwrap();
    let mut aggregator = TransactionAggregator::new();
    aggregator.register(9, 0, &committee);
    assert_eq!(aggregator.len(), 1);
    assert_eq!(aggregator.process_block(&block_with(1, 1, &[9]), None, &committee), vec![]);
    assert_eq!(aggregator.process_block(&block_with(2, 1, &[9]), None, &committee), vec![9]);
}

#[test]
fn sink_receives_the_newly_certified_statements() {
    let committee = Committee::new(4).unwrap();
    let mut aggregator = TransactionAggregator::new();
    aggregator.register(1, 0, &committee);
    aggregator.register(1, 1, &committee);
    aggregator.register(2, 0, &committee);
    let mut sink = vec![share(77)];
    let certified = aggregator.process_block(&block_with(2, 1, &[2, 1, 1, 3]), Some(&mut sink), &committee);
    assert_eq!(certified, vec![1]);
    assert_eq!(sink.len(), 2);
    assert_eq!(sink[0].id(), 77);
    assert_eq!(sink[1].id(), 1);
    match &sink[1] {
        BaseStatement::Share(_, tx) => assert_eq!(tx.data(), &1u64.to_le_bytes().to_vec()),
    }
    assert_eq!(aggregator.len(), 3);
}

#[test]
fn votes_from_outside_the_committee_are_not_counted() {
    let committee = Committee::new(4).unwrap();
    let mut aggregator = TransactionAggregator::new();
    aggregator.register(5, 4, &committee);
    assert_eq!(aggregator.len(), 0);
    assert_eq!(aggregator.process_block(&block_with(9, 1, &[5]), None, &committee), vec![]);
    assert_eq!(aggregator.len(), 0);
}

#[test]
fn single_authority_certifies_at_once() {
    let committee = Committee::new(1).unwrap();
    let mut aggregator = TransactionAggregator::new();
    assert_eq!(aggregator.process_block(&block_with(0, 1, &[3, 3, 4]), None, &committee), vec![3, 4]);
}

#[test]
fn certified_stays_certified() {
    let committee = Committee::new(4).unwrap();
    let mut aggregator = TransactionAggregator::new();
    for authority in 0..3 {
        aggregator.process_block(&block_with(authority, 1, &[8]), None, &committee);
    }
    assert!(aggregator.is_processed(&8));
    for round in 2..6 {
        for authority in 0..4 {
            aggregator.process_block(&block_with(authority, round, &[8, 9, round]), None, &committee);
            assert!(aggregator.is_processed(&8));
        }
    }
}
