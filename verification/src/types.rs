//! The data model of the block DAG: references, statements and blocks.

use vstd::prelude::*;

verus! {

/// Index of one committee member, in `[0, committee size)`.
pub type AuthorityIndex = u64;

/// A logical layer of the DAG. Round 0 is the genesis round.
pub type RoundNumber = u64;

/// Content hash of a block.
pub type BlockDigest = u64;

/// Identifier of a transaction.
pub type TransactionId = u64;

/// Names one block: who made it, in which round, and the hash of its contents.
#[derive(Clone, Copy, Debug, PartialEq, Eq, Structural, Hash)]
pub struct BlockReference {
    pub authority: AuthorityIndex,
    pub round: RoundNumber,
    pub digest: BlockDigest,
}

/// Strict lexicographic order on references: round, then authority, then digest.
pub open spec fn reference_lt(a: BlockReference, b: BlockReference) -> bool {
    a.round < b.round || (a.round == b.round && (a.authority < b.authority || (a.authority
        == b.authority && a.digest < b.digest)))
}

impl BlockReference {
    pub fn new(authority: AuthorityIndex, round: RoundNumber, digest: BlockDigest) -> (r: Self)
        ensures
            r == (BlockReference { authority, round, digest }),
    {
        BlockReference { authority, round, digest }
    }

    /// Whether `self` comes strictly before `other` in the order of [`reference_lt`].
    pub fn precedes(&self, other: &BlockReference) -> (r: bool)
        ensures
            r == reference_lt(*self, *other),
    {
        self.round < other.round || (self.round == other.round && (self.authority
            < other.authority || (self.authority == other.authority && self.digest
            < other.digest)))
    }
}

/// Payload of a transaction.
#[derive(Debug)]
pub struct Transaction {
    data: Vec<u8>,
}

impl View for Transaction {
    type V = Seq<u8>;

    closed spec fn view(&self) -> Seq<u8> {
        self.data@
    }
}

impl Transaction {
    pub fn new(data: Vec<u8>) -> (r: Self)
        ensures
            r@ == data@,
    {
        Transaction { data }
    }

    pub fn data(&self) -> (r: &Vec<u8>)
        ensures
            r@ == self@,
    {
        &self.data
    }

    /// A copy with the same payload.
    pub fn duplicate(&self) -> (r: Self)
        ensures
            r@ == self@,
    {
        let mut data: Vec<u8> = Vec::new();
        let mut i: usize = 0;
        while i < self.data.len()
            invariant
                i <= self.data.len(),
                data@ == self.data@.take(i as int),
            decreases self.data.len() - i,
        {
            data.push(self.data[i]);
            assert(self.data@.take(i as int + 1) == self.data@.take(i as int).push(
                self.data@[i as int],
            ));
            i += 1;
        }
        assert(self.data@.take(self.data@.len() as int) == self.data@);
        Transaction { data }
    }
}

/// What a statement says, as plain values.
pub struct StatementView {
    pub id: TransactionId,
    pub payload: Seq<u8>,
}

/// One entry of a block. An authority proposes a transaction by sharing it;
/// a later block that carries the same id echoes it.
#[derive(Debug)]
pub enum BaseStatement {
    Share(TransactionId, Transaction),
}

impl View for BaseStatement {
    type V = StatementView;

    open spec fn view(&self) -> StatementView {
        match self {
            BaseStatement::Share(id, tx) => StatementView { id: *id, payload: tx@ },
        }
    }
}

impl BaseStatement {
    /// The transaction id the statement refers to.
    pub fn id(&self) -> (r: TransactionId)
        ensures
            r == self@.id,
    {
        match self {
            BaseStatement::Share(id, _) => *id,
        }
    }

    /// A copy that says the same.
    pub fn duplicate(&self) -> (r: Self)
        ensures
            r@ == self@,
    {
        match self {
            BaseStatement::Share(id, tx) => BaseStatement::Share(*id, tx.duplicate()),
        }
    }
}

/// The views of a sequence of statements.
pub open spec fn statement_views(s: Seq<BaseStatement>) -> Seq<StatementView> {
    s.map_values(|x: BaseStatement| x@)
}

/// The ids of a sequence of statements, in order.
pub open spec fn statement_ids(s: Seq<StatementView>) -> Seq<TransactionId> {
    s.map_values(|x: StatementView| x.id)
}

/// A block as plain values.
pub struct BlockView {
    pub reference: BlockReference,
    pub includes: Seq<BlockReference>,
    pub statements: Seq<StatementView>,
}

impl BlockView {
    /// The round of a block is strictly greater than the round of each parent.
    pub open spec fn valid(self) -> bool {
        forall|i: int|
            0 <= i < self.includes.len() ==> (#[trigger] self.includes[i]).round
                < self.reference.round
    }
}

/// A vertex of the DAG: its own reference, the references of its parents and
/// an ordered list of statements. A block is not changed after it was made.
#[derive(Debug)]
pub struct StatementBlock {
    reference: BlockReference,
    includes: Vec<BlockReference>,
    statements: Vec<BaseStatement>,
}

impl View for StatementBlock {
    type V = BlockView;

    closed spec fn view(&self) -> BlockView {
        BlockView {
            reference: self.reference,
            includes: self.includes@,
            statements: statement_views(self.statements@),
        }
    }
}

/// The views of a sequence of blocks.
pub open spec fn block_views(s: Seq<StatementBlock>) -> Seq<BlockView> {
    s.map_values(|b: StatementBlock| b@)
}

impl StatementBlock {
    /// A block with these contents. The digest is taken as given: whoever
    /// receives blocks checks that it is the hash of the rest.
    pub fn new(
        authority: AuthorityIndex,
        round: RoundNumber,
        digest: BlockDigest,
        includes: Vec<BlockReference>,
        statements: Vec<BaseStatement>,
    ) -> (r: Self)
        ensures
            r@.reference == (BlockReference { authority, round, digest }),
            r@.includes == includes@,
            r@.statements == statement_views(statements@),
    {
        StatementBlock { reference: BlockReference { authority, round, digest }, includes, statements }
    }

    pub fn reference(&self) -> (r: BlockReference)
        ensures
            r == self@.reference,
    {
        self.reference
    }

    pub fn author(&self) -> (r: AuthorityIndex)
        ensures
            r == self@.reference.authority,
    {
        self.reference.authority
    }

    pub fn round(&self) -> (r: RoundNumber)
        ensures
            r == self@.reference.round,
    {
        self.reference.round
    }

    pub fn digest(&self) -> (r: BlockDigest)
        ensures
            r == self@.reference.digest,
    {
        self.reference.digest
    }

    pub fn includes(&self) -> (r: &Vec<BlockReference>)
        ensures
            r@ == self@.includes,
    {
        &self.includes
    }

    pub fn statements(&self) -> (r: &Vec<BaseStatement>)
        ensures
            statement_views(r@) == self@.statements,
    {
        &self.statements
    }

    /// Whether every parent lies in an earlier round.
    pub fn is_valid(&self) -> (r: bool)
        ensures
            r == self@.valid(),
    {
        let mut i: usize = 0;
        while i < self.includes.len()
            invariant
                i <= self.includes.len(),
                forall|k: int|
                    0 <= k < i ==> (#[trigger] self.includes@[k]).round < self.reference.round,
            decreases self.includes.len() - i,
        {
            if self.includes[i].round >= self.reference.round {
                assert(self@.includes[i as int].round >= self@.reference.round);
                assert(!self@.valid());
                return false;
            }
            i += 1;
        }
        true
    }

    /// Whether `parent` is among the references this block includes.
    pub fn includes_reference(&self, parent: &BlockReference) -> (r: bool)
        ensures
            r == self@.includes.contains(*parent),
    {
        let mut i: usize = 0;
        while i < self.includes.len()
            invariant
                i <= self.includes.len(),
                forall|k: int| 0 <= k < i ==> self.includes@[k] != *parent,
            decreases self.includes.len() - i,
        {
            if self.includes[i] == *parent {
                return true;
            }
            i += 1;
        }
        false
    }

    /// A copy with the same contents.
    pub fn duplicate(&self) -> (r: Self)
        ensures
            r@ == self@,
    {
        let mut includes: Vec<BlockReference> = Vec::new();
        let mut i: usize = 0;
        while i < self.includes.len()
            invariant
                i <= self.includes.len(),
                includes@ == self.includes@.take(i as int),
            decreases self.includes.len() - i,
        {
            includes.push(self.includes[i]);
            assert(self.includes@.take(i as int + 1) == self.includes@.take(i as int).push(
                self.includes@[i as int],
            ));
            i += 1;
        }
        assert(self.includes@.take(self.includes@.len() as int) == self.includes@);
        let mut statements: Vec<BaseStatement> = Vec::new();
        let mut j: usize = 0;
        while j < self.statements.len()
            invariant
                j <= self.statements.len(),
                statements@.len() == j,
                forall|k: int| 0 <= k < j ==> (#[trigger] statements@[k])@ == self.statements@[k]@,
            decreases self.statements.len() - j,
        {
            statements.push(self.statements[j].duplicate());
            j += 1;
        }
        assert(statement_views(statements@) == statement_views(self.statements@));
        StatementBlock { reference: self.reference, includes, statements }
    }
}

} // verus!
