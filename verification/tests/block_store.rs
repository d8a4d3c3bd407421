use mysticeti_core::block_store::{BlockStore, StoreError};
use mysticeti_core::types::{BaseStatement, BlockReference, StatementBlock, Transaction};

fn block(authority: u64, round: u64, includes: Vec<BlockReference>) -> StatementBlock {
    StatementBlock::new(authority, round, 100 * round + authority, includes, vec![])
}

fn reference(authority: u64, round: u64) -> BlockReference {
    BlockReference::new(authority, round, 100 * round + authority)
}

/// Four authorities, rounds 0 to `rounds`, every block naming all blocks of the round before.
fn full_store(rounds: u64) -> BlockStore {
    let mut store = BlockStore::new();
    for round in 0..=rounds {
        for authority in 0..4 {
            let parents = if round == 0 {
                vec![]
            } else {
                (0..4).map(|a| reference(a, round - 1)).collect()
            };
            assert_eq!(store.insert(block(authority, round, parents)), Ok(()));
        }
    }
    store
}

#[test]
fn insert_then_get_and_contains() {
    let mut store = BlockStore::new();
    assert_eq!(store.len(), 0);
    assert!(!store.contains(&reference(0, 0)));
    assert_eq!(store.insert(block(0, 0, vec![])), Ok(()));
    assert!(store.contains(&reference(0, 0)));
    let got = store.get(&reference(0, 0)).expect("stored block");
    assert_eq!(got.reference(), reference(0, 0));
    assert!(store.get(&reference(1, 0)).is_none());
}

#[test]
fn insert_rejects_duplicate_block() {
    let mut store = BlockStore::new();
    assert_eq!(store.insert(block(0, 0, vec![])), Ok(()));
    assert_eq!(store.insert(block(0, 0, vec![])), Err(StoreError::DuplicateBlock));
    assert_eq!(store.len(), 1);
}

#[test]
fn insert_rejects_unknown_parent() {
    let mut store = BlockStore::new();
    assert_eq!(store.insert(block(0, 0, vec![])), Ok(()));
    let orphan = block(1, 1, vec![reference(0, 0), reference(1, 0)]);
    assert_eq!(store.insert(orphan), Err(StoreError::UnknownParent));
    assert_eq!(store.len(), 1);
}

#[test]
fn duplicate_is_reported_before_unknown_parent() {
    let mut store = BlockStore::new();
    assert_eq!(store.insert(block(0, 0, vec![])), Ok(()));
    assert_eq!(store.insert(block(0, 1, vec![reference(0, 0)])), Ok(()));
    let again = block(0, 1, vec![reference(3, 0)]);
    assert_eq!(store.insert(again), Err(StoreError::DuplicateBlock));
}

#[test]
fn store_keeps_blocks_in_round_then_author_order() {
    let mut store = BlockStore::new();
    assert_eq!(store.insert(block(2, 0, vec![])), Ok(()));
    assert_eq!(store.insert(block(0, 0, vec![])), Ok(()));
    assert_eq!(store.insert(block(1, 1, vec![reference(0, 0)])), Ok(()));
    assert_eq!(store.insert(block(1, 0, vec![])), Ok(()));
    let order: Vec<BlockReference> = (0..store.len()).map(|i| store.block_at(i).reference()).collect();
    assert_eq!(order, vec![reference(0, 0), reference(1, 0), reference(2, 0), reference(1, 1)]);
}

#[test]
fn highest_round_per_authority() {
    let mut store = BlockStore::new();
    assert_eq!(store.highest_round(0), 0);
    assert_eq!(store.insert(block(0, 0, vec![])), Ok(()));
    assert_eq!(store.insert(block(1, 0, vec![])), Ok(()));
    assert_eq!(store.insert(block(0, 1, vec![reference(0, 0)])), Ok(()));
    assert_eq!(store.insert(block(0, 2, vec![reference(0, 1)])), Ok(()));
    assert_eq!(store.highest_round(0), 2);
    assert_eq!(store.highest_round(1), 0);
    assert_eq!(store.highest_round(7), 0);
}

#[test]
fn linked_ancestors_are_ordered_by_round_then_authority() {
    let store = full_store(2);
    let linked = store.linked_ancestors(reference(2, 2), &vec![]);
    let got: Vec<BlockReference> = linked.iter().map(|b| b.reference()).collect();
    let mut expected = vec![];
    for round in 0..2 {
        for authority in 0..4 {
            expected.push(reference(authority, round));
        }
    }
    expected.push(reference(2, 2));
    assert_eq!(got, expected);
}

#[test]
fn linked_ancestors_stop_at_the_frontier() {
    let store = full_store(2);
    let stop: Vec<BlockReference> = (0..4).map(|a| reference(a, 0)).collect();
    let linked = store.linked_ancestors(reference(1, 2), &stop);
    let got: Vec<BlockReference> = linked.iter().map(|b| b.reference()).collect();
    assert_eq!(
        got,
        vec![reference(0, 1), reference(1, 1), reference(2, 1), reference(3, 1), reference(1, 2)]
    );
}

#[test]
fn linked_ancestors_do_not_pass_through_a_stopped_block() {
    // 0:0 <- 0:1 <- 0:2, and 1:0 on its own; stopping at 0:1 hides 0:0 as well.
    let mut store = BlockStore::new();
    assert_eq!(store.insert(block(0, 0, vec![])), Ok(()));
    assert_eq!(store.insert(block(1, 0, vec![])), Ok(()));
    assert_eq!(store.insert(block(0, 1, vec![reference(0, 0)])), Ok(()));
    assert_eq!(store.insert(block(0, 2, vec![reference(0, 1), reference(1, 0)])), Ok(()));
    let linked = store.linked_ancestors(reference(0, 2), &vec![reference(0, 1)]);
    let got: Vec<BlockReference> = linked.iter().map(|b| b.reference()).collect();
    assert_eq!(got, vec![reference(1, 0), reference(0, 2)]);
}

#[test]
fn linked_ancestors_of_an_unknown_or_stopped_block_are_empty() {
    let store = full_store(1);
    assert!(store.linked_ancestors(reference(0, 5), &vec![]).is_empty());
    assert!(store.linked_ancestors(reference(0, 1), &vec![reference(0, 1)]).is_empty());
}

#[test]
fn block_validity_and_copies() {
    let good = block(0, 1, vec![reference(0, 0)]);
    assert!(good.is_valid());
    let bad = block(0, 1, vec![reference(0, 1)]);
    assert!(!bad.is_valid());
    let with_statement = StatementBlock::new(
        1,
        2,
        9,
        vec![reference(0, 1)],
        vec![BaseStatement::Share(5, Transaction::new(vec![1, 2, 3]))],
    );
    let copy = with_statement.duplicate();
    assert_eq!(copy.reference(), with_statement.reference());
    assert_eq!(copy.includes(), with_statement.includes());
    assert_eq!(copy.statements().len(), 1);
    assert_eq!(copy.statements()[0].id(), 5);
    match &copy.statements()[0] {
        BaseStatement::Share(_, tx) => assert_eq!(tx.data(), &vec![1, 2, 3]),
    }
    assert!(with_statement.includes_reference(&reference(0, 1)));
    assert!(!with_statement.includes_reference(&reference(1, 1)));
    assert!(reference(3, 0).precedes(&reference(0, 1)));
    assert!(!reference(0, 1).precedes(&reference(0, 1)));
}
