//! The log of echoed transactions that the production handler writes
//! through before it counts a vote.
//!
//! The log only grows. Whoever owns the disk takes what is pending and
//! makes it durable.

use crate::types::{statement_ids, statement_views, BlockView, StatementBlock, TransactionId};
use vstd::prelude::*;

verus! {

/// The transactions referred to in `blocks`, in order.
pub open spec fn all_statement_ids(blocks: Seq<BlockView>) -> Seq<TransactionId>
    decreases blocks.len(),
{
    if blocks.len() == 0 {
        Seq::empty()
    } else {
        all_statement_ids(blocks.drop_last()) + statement_ids(blocks.last().statements)
    }
}

/// The transactions of two lists of blocks laid end to end.
pub proof fn lemma_all_statement_ids_concat(a: Seq<BlockView>, b: Seq<BlockView>)
    ensures
        all_statement_ids(a + b) == all_statement_ids(a) + all_statement_ids(b),
    decreases b.len(),
{
    if b.len() == 0 {
        assert(a + b =~= a);
        assert(all_statement_ids(a) + all_statement_ids(b) =~= all_statement_ids(a));
    } else {
        lemma_all_statement_ids_concat(a, b.drop_last());
        assert((a + b).drop_last() =~= a + b.drop_last());
        assert((a + b).last() == b.last());
        assert(all_statement_ids(a + b) =~= all_statement_ids(a) + all_statement_ids(b));
    }
}

/// The transactions a block refers to, in order.
pub fn ids_of(block: &StatementBlock) -> (r: Vec<TransactionId>)
    ensures
        r@ == statement_ids(block@.statements),
{
    let statements = block.statements();
    let mut ids: Vec<TransactionId> = Vec::new();
    let mut i: usize = 0;
    while i < statements.len()
        invariant
            i <= statements.len(),
            statement_views(statements@) == block@.statements,
            ids@ == statement_ids(block@.statements).take(i as int),
        decreases statements.len() - i,
    {
        ids.push(statements[i].id());
        proof {
            assert(block@.statements[i as int] == statements@[i as int]@);
            assert(ids@ =~= statement_ids(block@.statements).take(i as int + 1));
        }
        i += 1;
    }
    proof {
        assert(statement_ids(block@.statements).take(i as int) =~= statement_ids(block@.statements));
    }
    ids
}

/// An append-only list of transaction ids that wait to be made durable.
pub struct CertifiedTransactionLog {
    pending: Vec<TransactionId>,
}

impl View for CertifiedTransactionLog {
    type V = Seq<TransactionId>;

    closed spec fn view(&self) -> Seq<TransactionId> {
        self.pending@
    }
}

impl CertifiedTransactionLog {
    /// A log with nothing pending.
    pub fn new() -> (r: Self)
        ensures
            r@ == Seq::<TransactionId>::empty(),
    {
        CertifiedTransactionLog { pending: Vec::new() }
    }

    /// Appends one transaction.
    pub fn record(&mut self, id: TransactionId)
        ensures
            final(self)@ == old(self)@.push(id),
    {
        self.pending.push(id);
    }

    /// Appends every transaction that `blocks` refer to, in order.
    pub fn record_blocks(&mut self, blocks: &Vec<StatementBlock>)
        ensures
            final(self)@ == old(self)@ + all_statement_ids(crate::types::block_views(blocks@)),
    {
        let ghost start = self@;
        let ghost views = crate::types::block_views(blocks@);
        let mut k: usize = 0;
        proof {
            assert(start + Seq::<TransactionId>::empty() =~= start);
        }
        while k < blocks.len()
            invariant
                k <= blocks.len(),
                views == crate::types::block_views(blocks@),
                self@ == start + all_statement_ids(views.take(k as int)),
            decreases blocks.len() - k,
        {
            let mut ids = ids_of(&blocks[k]);
            proof {
                assert(views.take(k as int + 1).drop_last() == views.take(k as int));
                assert(views.take(k as int + 1).last() == blocks@[k as int]@);
                assert((start + all_statement_ids(views.take(k as int))) + ids@ =~= start + (
                all_statement_ids(views.take(k as int)) + ids@));
            }
            self.pending.append(&mut ids);
            k += 1;
        }
        proof {
            assert(views.take(k as int) == views);
        }
    }

    /// What is pending, in the order it was appended.
    pub fn pending(&self) -> (r: &Vec<TransactionId>)
        ensures
            r@ == self@,
    {
        &self.pending
    }

    /// Hands out what is pending and starts afresh.
    pub fn take(&mut self) -> (r: Vec<TransactionId>)
        ensures
            r@ == old(self)@,
            final(self)@ == Seq::<TransactionId>::empty(),
    {
        let mut out: Vec<TransactionId> = Vec::new();
        out.append(&mut self.pending);
        out
    }
}

} // verus!
