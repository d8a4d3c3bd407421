//! The glue between the core loop and the aggregator: what a replica does
//! with each batch of blocks, and what it hands back for broadcast.

use crate::aggregator::{
    cast_vote, certified_ids, certified_statements, process_votes, TransactionAggregator,
    VoteRecord,
};
use crate::codec::{encode_state, parse_state, StateError};
use crate::committee::Committee;
use crate::log::{all_statement_ids, CertifiedTransactionLog};
use crate::latency::{latencies, lemma_latencies_concat, observe_latencies, TransactionTimes};
use crate::stat::{
    histogram, lemma_observe_all_concat, observe_all, HistogramView, PreciseHistogram,
};
use crate::types::{
    block_views, statement_ids, statement_views, AuthorityIndex, BaseStatement, BlockView,
    StatementBlock, StatementView, Transaction, TransactionId,
};
use rand::rngs::StdRng;
use rand::{RngCore, SeedableRng};
use vstd::bytes::{spec_u64_from_le_bytes, spec_u64_to_le_bytes, u64_to_le_bytes};
use vstd::prelude::*;

verus! {

/// The records after the author of each of `blocks` has echoed, in order,
/// every transaction its block refers to.
pub open spec fn votes_after(v: Seq<VoteRecord>, blocks: Seq<BlockView>, size: u64) -> Seq<VoteRecord>
    decreases blocks.len(),
{
    if blocks.len() == 0 {
        v
    } else {
        let b = blocks.last();
        process_votes(
            votes_after(v, blocks.drop_last(), size),
            statement_ids(b.statements),
            b.reference.authority,
            size,
        )
    }
}

/// The transactions that become certified while `blocks` are processed in order.
pub open spec fn certified_in(v: Seq<VoteRecord>, blocks: Seq<BlockView>, size: u64) -> Seq<
    TransactionId,
>
    decreases blocks.len(),
{
    if blocks.len() == 0 {
        Seq::empty()
    } else {
        let b = blocks.last();
        certified_in(v, blocks.drop_last(), size) + certified_ids(
            votes_after(v, blocks.drop_last(), size),
            statement_ids(b.statements),
            b.reference.authority,
            size,
        )
    }
}

/// The statements of the transactions that become certified while `blocks`
/// are processed in order.
pub open spec fn echoes_in(v: Seq<VoteRecord>, blocks: Seq<BlockView>, size: u64) -> Seq<
    StatementView,
>
    decreases blocks.len(),
{
    if blocks.len() == 0 {
        Seq::empty()
    } else {
        let b = blocks.last();
        echoes_in(v, blocks.drop_last(), size) + certified_statements(
            votes_after(v, blocks.drop_last(), size),
            b.statements,
            b.reference.authority,
            size,
        )
    }
}

/// Processing two lists of blocks one after the other is processing them
/// laid end to end.
pub proof fn lemma_votes_after_concat(v: Seq<VoteRecord>, a: Seq<BlockView>, b: Seq<BlockView>, size: u64)
    ensures
        votes_after(v, a + b, size) == votes_after(votes_after(v, a, size), b, size),
        certified_in(v, a + b, size) == certified_in(v, a, size) + certified_in(
            votes_after(v, a, size),
            b,
            size,
        ),
    decreases b.len(),
{
    if b.len() == 0 {
        assert(a + b =~= a);
        assert(certified_in(v, a, size) + Seq::<TransactionId>::empty() =~= certified_in(v, a, size));
    } else {
        lemma_votes_after_concat(v, a, b.drop_last(), size);
        assert((a + b).drop_last() =~= a + b.drop_last());
        assert((a + b).last() == b.last());
        let mid = votes_after(v, a, size);
        let last = certified_ids(
            votes_after(mid, b.drop_last(), size),
            statement_ids(b.last().statements),
            b.last().reference.authority,
            size,
        );
        assert((certified_in(v, a, size) + certified_in(mid, b.drop_last(), size)) + last
            =~= certified_in(v, a, size) + (certified_in(mid, b.drop_last(), size) + last));
    }
}

/// A certified transaction stays certified whatever blocks are processed afterwards.
pub proof fn lemma_blocks_keep_certified(
    v: Seq<VoteRecord>,
    blocks: Seq<BlockView>,
    size: u64,
    id: TransactionId,
)
    requires
        crate::aggregator::is_certified(v, id),
    ensures
        crate::aggregator::is_certified(votes_after(v, blocks, size), id),
    decreases blocks.len(),
{
    if blocks.len() > 0 {
        lemma_blocks_keep_certified(v, blocks.drop_last(), size, id);
        crate::aggregator::lemma_votes_keep_certified(
            votes_after(v, blocks.drop_last(), size),
            statement_ids(blocks.last().statements),
            blocks.last().reference.authority,
            size,
            id,
        );
    }
}

/// The statement by which an authority shares its own transaction `id`:
/// the payload is the id, eight bytes, lowest first.
pub open spec fn own_share(id: TransactionId) -> StatementView {
    StatementView { id, payload: spec_u64_to_le_bytes(id) }
}

/// The greatest of `start` and `ids`.
pub open spec fn max_id(start: TransactionId, ids: Seq<TransactionId>) -> TransactionId
    decreases ids.len(),
{
    if ids.len() == 0 {
        start
    } else {
        let before = max_id(start, ids.drop_last());
        if ids.last() > before {
            ids.last()
        } else {
            before
        }
    }
}

/// The greatest of `last` and the transactions shared in those of `blocks`
/// that `authority` made.
pub open spec fn recovered_last(
    last: TransactionId,
    blocks: Seq<BlockView>,
    authority: AuthorityIndex,
) -> TransactionId
    decreases blocks.len(),
{
    if blocks.len() == 0 {
        last
    } else {
        let before = recovered_last(last, blocks.drop_last(), authority);
        if blocks.last().reference.authority == authority {
            max_id(before, statement_ids(blocks.last().statements))
        } else {
            before
        }
    }
}

/// Processes `blocks` in order: each author echoes the transactions of
/// its block, and the time each newly certified transaction took is observed.
/// Returns the statements of the newly certified transactions where they are
/// wanted, nothing otherwise.
pub fn process_blocks(
    votes: &mut TransactionAggregator,
    blocks: &Vec<StatementBlock>,
    wanted: bool,
    committee: &Committee,
    times: &TransactionTimes,
    now: u64,
    latency: &mut PreciseHistogram,
) -> (r: Vec<BaseStatement>)
    requires
        old(votes).wf(),
        old(latency).wf(),
    ensures
        final(votes).wf(),
        final(latency).wf(),
        final(votes)@ == votes_after(old(votes)@, block_views(blocks@), committee.len()),
        statement_views(r@) == if wanted {
            echoes_in(old(votes)@, block_views(blocks@), committee.len())
        } else {
            Seq::empty()
        },
        final(latency)@ == observe_all(
            old(latency)@,
            latencies(certified_in(old(votes)@, block_views(blocks@), committee.len()), times@, now),
        ),
{
    let ghost v0 = votes@;
    let ghost h0 = latency@;
    let ghost views = block_views(blocks@);
    let ghost size = committee.len();
    let mut response: Vec<BaseStatement> = Vec::new();
    let mut k: usize = 0;
    proof {
        assert(h0.points + Seq::<u64>::empty() =~= h0.points);
        assert(statement_views(response@) =~= Seq::<StatementView>::empty());
    }
    while k < blocks.len()
        invariant
            k <= blocks.len(),
            views == block_views(blocks@),
            size == committee.len(),
            votes.wf(),
            latency.wf(),
            votes@ == votes_after(v0, views.take(k as int), size),
            statement_views(response@) == if wanted {
                echoes_in(v0, views.take(k as int), size)
            } else {
                Seq::empty()
            },
            latency@ == observe_all(h0, latencies(certified_in(v0, views.take(k as int), size), times@, now)),
        decreases blocks.len() - k,
    {
        let block = &blocks[k];
        let ghost done = certified_in(v0, views.take(k as int), size);
        proof {
            assert(views.take(k as int + 1).drop_last() == views.take(k as int));
            assert(views.take(k as int + 1).last() == block@);
        }
        let certified = if wanted {
            votes.process_block(block, Some(&mut response), committee)
        } else {
            votes.process_block(block, None, committee)
        };
        observe_latencies(latency, &certified, times, now);
        proof {
            lemma_latencies_concat(done, certified@, times@, now);
            lemma_observe_all_concat(
                h0,
                latencies(done, times@, now),
                latencies(certified@, times@, now),
            );
        }
        k += 1;
    }
    proof {
        assert(views.take(k as int) == views);
    }
    response
}

/// What a replica does with the blocks it receives: it takes note of them
/// and says which statements it wants broadcast next.
pub trait BlockHandler {
    /// The invariant of the handler.
    spec fn wf(&self) -> bool;

    /// Whether the handler can take this batch: it can unless it has run
    /// out of transaction ids.
    spec fn accepts(&self, blocks: Seq<BlockView>) -> bool;

    /// The byte form of what the handler would export now.
    spec fn exported(&self) -> Seq<u8>;

    /// Takes note of `blocks`, seen at time `now`. Returns the statements to
    /// broadcast next.
    fn handle_blocks(&mut self, blocks: &Vec<StatementBlock>, times: &mut TransactionTimes, now: u64) -> (r:
        Vec<BaseStatement>)
        requires
            old(self).wf(),
            old(self).accepts(block_views(blocks@)),
        ensures
            final(self).wf(),
    ;

    /// What the handler needs to start again where it is now, as bytes.
    fn state(&self) -> (r: Vec<u8>)
        requires
            self.wf(),
        ensures
            r@ == self.exported(),
    ;

    /// Starts again from an exported state. A state exported by this
    /// handler is always taken, and exporting again gives the same bytes. Bytes
    /// that are refused change nothing.
    fn recover_state(&mut self, state: &Vec<u8>) -> (r: Result<(), StateError>)
        requires
            old(self).wf(),
        ensures
            final(self).wf(),
            state@ == old(self).exported() ==> r is Ok && final(self).exported() == state@,
            r is Err ==> final(self).exported() == old(self).exported(),
    ;
}

/// A handler for tests: numbers its own transactions consecutively, and
/// echoes at once.
pub struct TestBlockHandler {
    last_transaction: TransactionId,
    transaction_votes: TransactionAggregator,
    committee: Committee,
    authority: AuthorityIndex,
    transaction_certified_latency: PreciseHistogram,
}

/// The bytes of the pair of a byte string and a number in bincode's default
/// form: the length of the string in eight bytes, lowest first, the string,
/// and the number in eight bytes, lowest first.
pub open spec fn pair_bytes(bytes: Seq<u8>, number: u64) -> Seq<u8> {
    spec_u64_to_le_bytes(bytes.len() as u64) + bytes + spec_u64_to_le_bytes(number)
}

/// Whether `b` starts with the bytes of a pair: eight bytes of length, that
/// many bytes, and eight more.
pub open spec fn starts_with_pair(b: Seq<u8>) -> bool {
    b.len() >= 8 && 16 + spec_u64_from_le_bytes(b.subrange(0, 8)) <= b.len()
}

/// The byte string of the pair that `b` starts with.
pub open spec fn pair_string(b: Seq<u8>) -> Seq<u8> {
    b.subrange(8, 8 + spec_u64_from_le_bytes(b.subrange(0, 8)))
}

/// The number of the pair that `b` starts with.
pub open spec fn pair_number(b: Seq<u8>) -> u64 {
    let n = spec_u64_from_le_bytes(b.subrange(0, 8));
    spec_u64_from_le_bytes(b.subrange(8 + n, 16 + n))
}

/// bincode's `ErrorKind`, the reason for which reading or writing failed.
/// Nothing inside it is looked at here.
#[verifier::external_type_specification]
#[verifier::external_body]
pub struct ExBincodeErrorKind(bincode::ErrorKind);

/// Writes the pair of `bytes` and `number` with `bincode::serialize`. With
/// the options that function fixes (eight-byte numbers, lowest byte first, no
/// size limit) and a vector as its sink it has nothing to fail on, and the
/// result is the length of `bytes`, `bytes`, then `number`.
#[verifier::external_body]
fn serialize_pair(bytes: &Vec<u8>, number: u64) -> (r: Result<Vec<u8>, Box<bincode::ErrorKind>>)
    ensures
        r is Ok,
        r matches Ok(v) ==> v@ == pair_bytes(bytes@, number),
{
    bincode::serialize(&(bytes, number))
}

/// Reads a pair of a byte string and a number with `bincode::deserialize`.
/// It succeeds exactly when `bytes` starts with a pair; what follows the pair
/// is ignored.
#[verifier::external_body]
fn deserialize_pair(bytes: &Vec<u8>) -> (r: Result<(Vec<u8>, u64), Box<bincode::ErrorKind>>)
    ensures
        r is Ok == starts_with_pair(bytes@),
        r matches Ok(pair) ==> pair.0@ == pair_string(bytes@) && pair.1 == pair_number(bytes@),
{
    bincode::deserialize::<(Vec<u8>, u64)>(bytes)
}

/// A pair is read back from its own bytes.
pub proof fn lemma_pair_round_trip(bytes: Seq<u8>, number: u64)
    requires
        bytes.len() <= u64::MAX - 16,
    ensures
        starts_with_pair(pair_bytes(bytes, number)),
        pair_string(pair_bytes(bytes, number)) == bytes,
        pair_number(pair_bytes(bytes, number)) == number,
{
    vstd::bytes::lemma_auto_spec_u64_to_from_le_bytes();
    let b = pair_bytes(bytes, number);
    let n = bytes.len() as u64;
    assert(b.subrange(0, 8) =~= spec_u64_to_le_bytes(n));
    assert(b.subrange(8, 8 + n) =~= bytes);
    assert(b.subrange(8 + n, 16 + n) =~= spec_u64_to_le_bytes(number));
}

/// The statement by which an authority shares its own transaction `id`.
pub fn share_of(id: TransactionId) -> (r: BaseStatement)
    ensures
        r@ == own_share(id),
{
    BaseStatement::Share(id, Transaction::new(u64_to_le_bytes(id)))
}

impl TestBlockHandler {
    /// A handler for `authority` whose last own transaction was `last_transaction`.
    pub fn new(last_transaction: TransactionId, committee: Committee, authority: AuthorityIndex) -> (r:
        Self)
        ensures
            r.wf(),
            r.last() == last_transaction,
            r.votes() == Seq::<VoteRecord>::empty(),
            r.committee() == committee,
            r.authority() == authority,
            r.latency().points == Seq::<u64>::empty(),
            r.latency().sum == 0,
    {
        let (latency, _) = histogram();
        Self {
            last_transaction,
            transaction_votes: TransactionAggregator::new(),
            committee,
            authority,
            transaction_certified_latency: latency,
        }
    }

    /// The last transaction of its own that the handler has shared.
    pub closed spec fn last(&self) -> TransactionId {
        self.last_transaction
    }

    /// The times that transactions took to be certified.
    pub closed spec fn latency(&self) -> HistogramView {
        self.transaction_certified_latency@
    }

    /// Whether the histogram of the handler is in order.
    pub closed spec fn latency_wf(&self) -> bool {
        self.transaction_certified_latency.wf()
    }

    /// The last transaction of its own that the handler has shared.
    pub fn last_transaction(&self) -> (r: TransactionId)
        ensures
            r == self.last(),
    {
        self.last_transaction
    }

    /// The times that transactions took to be certified.
    pub fn transaction_certified_latency(&self) -> (r: &PreciseHistogram)
        ensures
            r@ == self.latency(),
            self.wf() ==> r.wf(),
    {
        &self.transaction_certified_latency
    }

    /// What the handler's aggregator knows.
    pub closed spec fn votes(&self) -> Seq<VoteRecord> {
        self.transaction_votes@
    }

    /// The committee the handler works for.
    pub closed spec fn committee(&self) -> Committee {
        self.committee
    }

    /// The authority the handler works for.
    pub closed spec fn authority(&self) -> AuthorityIndex {
        self.authority
    }

    /// Whether the transaction `txid` is certified.
    pub fn is_certified(&self, txid: TransactionId) -> (r: bool)
        requires
            self.wf(),
        ensures
            r == crate::aggregator::is_certified(self.votes(), txid),
    {
        self.transaction_votes.is_processed(&txid)
    }

    /// What it means that the handler has taken `blocks` at time `now`: its
    /// new transaction is numbered one above the greatest that it remembers or
    /// finds in blocks of its own among `blocks`, and the time of the new
    /// transaction is noted; the handler itself and then the author of each
    /// block have echoed; the response is the share of the new transaction
    /// followed by the statements of the transactions certified on the way; and
    /// the times those took are observed.
    pub open spec fn handled(
        before: Self,
        after: Self,
        times_before: Map<TransactionId, u64>,
        times_after: Map<TransactionId, u64>,
        response: Seq<StatementView>,
        blocks: Seq<BlockView>,
        now: u64,
    ) -> bool {
        let size = before.committee().len();
        let next = after.last();
        let first = cast_vote(before.votes(), next, before.authority(), size);
        &&& after.committee() == before.committee()
        &&& after.authority() == before.authority()
        &&& next == recovered_last(before.last(), blocks, before.authority()) + 1
        &&& times_after == times_before.insert(next, now)
        &&& after.votes() == votes_after(first, blocks, size)
        &&& response == seq![own_share(next)] + echoes_in(first, blocks, size)
        &&& after.latency() == observe_all(
            before.latency(),
            latencies(certified_in(first, blocks, size), times_after, now),
        )
    }

    /// The greatest transaction of its own that the handler knows of: the
    /// last it remembers, or a greater one shared in a block of its own among
    /// `blocks`.
    pub fn recovered(&self, blocks: &Vec<StatementBlock>) -> (r: TransactionId)
        ensures
            r == recovered_last(self.last(), block_views(blocks@), self.authority()),
    {
        let ghost views = block_views(blocks@);
        let mut last = self.last_transaction;
        let mut k: usize = 0;
        while k < blocks.len()
            invariant
                k <= blocks.len(),
                views == block_views(blocks@),
                last == recovered_last(self.last_transaction, views.take(k as int), self.authority),
            decreases blocks.len() - k,
        {
            let block = &blocks[k];
            proof {
                assert(views.take(k as int + 1).drop_last() == views.take(k as int));
                assert(views.take(k as int + 1).last() == block@);
            }
            if block.author() == self.authority {
                // Our own block can come back to us while the core recovers.
                let statements = block.statements();
                let ghost ids = statement_ids(block@.statements);
                let ghost before = last;
                let mut i: usize = 0;
                while i < statements.len()
                    invariant
                        i <= statements.len(),
                        statement_views(statements@) == block@.statements,
                        ids == statement_ids(block@.statements),
                        last == max_id(before, ids.take(i as int)),
                    decreases statements.len() - i,
                {
                    let id = statements[i].id();
                    proof {
                        assert(block@.statements[i as int] == statements@[i as int]@);
                        assert(ids.take(i as int + 1).drop_last() == ids.take(i as int));
                        assert(ids.take(i as int + 1).last() == id);
                    }
                    if id > last {
                        last = id;
                    }
                    i += 1;
                }
                proof {
                    assert(ids.take(i as int) == ids);
                }
            }
            k += 1;
        }
        proof {
            assert(views.take(k as int) == views);
        }
        last
    }

    /// Whether the handler can take `blocks`: it can unless it has run out
    /// of numbers for its own transactions.
    pub fn can_handle(&self, blocks: &Vec<StatementBlock>) -> (r: bool)
        ensures
            r == self.accepts(block_views(blocks@)),
    {
        self.recovered(blocks) < u64::MAX
    }
}

impl BlockHandler for TestBlockHandler {
    open spec fn wf(&self) -> bool {
        crate::aggregator::records_wf(self.votes()) && self.latency_wf()
    }

    open spec fn accepts(&self, blocks: Seq<BlockView>) -> bool {
        recovered_last(self.last(), blocks, self.authority()) < u64::MAX
    }

    open spec fn exported(&self) -> Seq<u8> {
        pair_bytes(encode_state(self.votes()), self.last())
    }

    /// Takes the next number for a transaction of its own, shares it, and
    /// processes `blocks`: see [`TestBlockHandler::handled`].
    fn handle_blocks(&mut self, blocks: &Vec<StatementBlock>, times: &mut TransactionTimes, now: u64) -> (r:
        Vec<BaseStatement>)
        ensures
            Self::handled(
                *old(self),
                *final(self),
                old(times)@,
                final(times)@,
                statement_views(r@),
                block_views(blocks@),
                now,
            ),
    {
        self.last_transaction = self.recovered(blocks) + 1;
        let mut response: Vec<BaseStatement> = Vec::new();
        response.push(share_of(self.last_transaction));
        times.insert(self.last_transaction, now);
        self.transaction_votes.register(self.last_transaction, self.authority, &self.committee);
        let ghost said = statement_views(response@);
        let mut echoes = process_blocks(
            &mut self.transaction_votes,
            blocks,
            true,
            &self.committee,
            times,
            now,
            &mut self.transaction_certified_latency,
        );
        let ghost heard = statement_views(echoes@);
        response.append(&mut echoes);
        proof {
            assert(said =~= seq![own_share(self.last_transaction)]);
            assert(statement_views(response@) =~= said + heard);
        }
        response
    }

    fn state(&self) -> (r: Vec<u8>)
        ensures
            r@ == pair_bytes(encode_state(self.votes()), self.last()),
    {
        let votes = self.transaction_votes.state();
        serialize_pair(&votes, self.last_transaction).unwrap()
    }

    /// Takes the state if `state` starts with a pair whose byte string is
    /// the byte form of an aggregator's state.
    fn recover_state(&mut self, state: &Vec<u8>) -> (r: Result<(), StateError>)
        ensures
            final(self).committee() == old(self).committee(),
            final(self).authority() == old(self).authority(),
            final(self).latency() == old(self).latency(),
            match r {
                Ok(()) => starts_with_pair(state@) && parse_state(pair_string(state@)) == Some(
                    final(self).votes(),
                ) && final(self).last() == pair_number(state@),
                Err(StateError::Malformed) => (!starts_with_pair(state@) || parse_state(
                    pair_string(state@),
                ) is None) && final(self).votes() == old(self).votes() && final(self).last()
                    == old(self).last(),
            },
    {
        proof {
            let votes = encode_state(self.votes());
            if state@ == self.exported() {
                vstd::bytes::lemma_auto_spec_u64_to_from_le_bytes();
                assert(state.len() <= usize::MAX);
                assert(state@.len() == 16 + votes.len());
                lemma_pair_round_trip(votes, self.last_transaction);
                self.transaction_votes.lemma_encodable();
                crate::codec::lemma_parse_of_encode(self.votes());
            }
        }
        match deserialize_pair(state) {
            Ok((votes, last_transaction)) => {
                match self.transaction_votes.with_state(&votes) {
                    Ok(()) => {
                        self.last_transaction = last_transaction;
                        proof {
                            crate::codec::lemma_encode_of_parse(votes@);
                        }
                        Ok(())
                    },
                    Err(e) => Err(e),
                }
            },
            Err(_) => Err(StateError::Malformed),
        }
    }
}

/// rand's `StdRng`, a generator of numbers. Nothing inside it is looked at here.
#[verifier::external_type_specification]
#[verifier::external_body]
pub struct ExStdRng(StdRng);

/// A generator seeded with `seed`, by rand's `StdRng::seed_from_u64`.
/// Nothing is claimed of it.
#[verifier::external_body]
fn seeded_rng(seed: u64) -> (r: StdRng) {
    StdRng::seed_from_u64(seed)
}

/// The next number of the generator, by rand's `RngCore::next_u64`. Nothing
/// is claimed of the number.
#[verifier::external_body]
fn next_number(rng: &mut StdRng) -> (r: u64) {
    rng.next_u64()
}

/// The handler for production: draws the ids of its own transactions from
/// a seeded generator, and writes every echoed transaction to a log before it
/// counts the echo.
pub struct RealBlockHandler {
    transaction_votes: TransactionAggregator,
    log: CertifiedTransactionLog,
    committee: Committee,
    authority: AuthorityIndex,
    transaction_certified_latency: PreciseHistogram,
    rng: StdRng,
}

impl RealBlockHandler {
    /// A handler for `authority`, whose generator is seeded with the authority's index.
    pub fn new(committee: Committee, authority: AuthorityIndex) -> (r: Self)
        ensures
            r.wf(),
            r.votes() == Seq::<VoteRecord>::empty(),
            r.logged() == Seq::<TransactionId>::empty(),
            r.committee() == committee,
            r.authority() == authority,
            r.latency().points == Seq::<u64>::empty(),
            r.latency().sum == 0,
    {
        let rng = seeded_rng(authority);
        let (latency, _) = histogram();
        Self {
            transaction_votes: TransactionAggregator::new(),
            log: CertifiedTransactionLog::new(),
            committee,
            authority,
            transaction_certified_latency: latency,
            rng,
        }
    }

    /// What the handler's aggregator knows.
    pub closed spec fn votes(&self) -> Seq<VoteRecord> {
        self.transaction_votes@
    }

    /// The transactions written to the log and not yet taken from it.
    pub closed spec fn logged(&self) -> Seq<TransactionId> {
        self.log@
    }

    /// The committee the handler works for.
    pub closed spec fn committee(&self) -> Committee {
        self.committee
    }

    /// The authority the handler works for.
    pub closed spec fn authority(&self) -> AuthorityIndex {
        self.authority
    }

    /// The times that transactions took to be certified.
    pub closed spec fn latency(&self) -> HistogramView {
        self.transaction_certified_latency@
    }

    /// Whether the histogram of the handler is in order.
    pub closed spec fn latency_wf(&self) -> bool {
        self.transaction_certified_latency.wf()
    }

    /// The times that transactions took to be certified.
    pub fn transaction_certified_latency(&self) -> (r: &PreciseHistogram)
        ensures
            r@ == self.latency(),
            self.wf() ==> r.wf(),
    {
        &self.transaction_certified_latency
    }

    /// Whether the transaction `txid` is certified.
    pub fn is_certified(&self, txid: TransactionId) -> (r: bool)
        requires
            self.wf(),
        ensures
            r == crate::aggregator::is_certified(self.votes(), txid),
    {
        self.transaction_votes.is_processed(&txid)
    }

    /// Hands out the logged transactions that wait to be made durable.
    pub fn take_log(&mut self) -> (r: Vec<TransactionId>)
        ensures
            r@ == old(self).logged(),
            final(self).logged() == Seq::<TransactionId>::empty(),
            final(self).votes() == old(self).votes(),
            final(self).committee() == old(self).committee(),
            final(self).authority() == old(self).authority(),
            final(self).latency() == old(self).latency(),
            final(self).latency_wf() == old(self).latency_wf(),
    {
        self.log.take()
    }

    /// What it means that the handler has shared `next` as its own
    /// transaction and processed `blocks` at time `now`: the time of `next` is
    /// noted; `next` and every transaction of `blocks` are logged; the handler
    /// itself and then the author of each block have echoed; the response is the
    /// share of `next` followed by the statements of the transactions certified
    /// on the way; and the times those took are observed.
    pub open spec fn handled(
        before: Self,
        after: Self,
        times_before: Map<TransactionId, u64>,
        times_after: Map<TransactionId, u64>,
        response: Seq<StatementView>,
        next: TransactionId,
        blocks: Seq<BlockView>,
        now: u64,
    ) -> bool {
        let size = before.committee().len();
        let first = cast_vote(before.votes(), next, before.authority(), size);
        &&& after.committee() == before.committee()
        &&& after.authority() == before.authority()
        &&& times_after == times_before.insert(next, now)
        &&& after.logged() == before.logged().push(next) + all_statement_ids(blocks)
        &&& after.votes() == votes_after(first, blocks, size)
        &&& response == seq![own_share(next)] + echoes_in(first, blocks, size)
        &&& after.latency() == observe_all(
            before.latency(),
            latencies(certified_in(first, blocks, size), times_after, now),
        )
    }

    /// Shares `next_transaction` as the replica's own and processes
    /// `blocks`: see [`RealBlockHandler::handled`]. Every transaction echoed on
    /// the way is logged first.
    pub fn handle_blocks_with(
        &mut self,
        next_transaction: TransactionId,
        blocks: &Vec<StatementBlock>,
        times: &mut TransactionTimes,
        now: u64,
    ) -> (r: Vec<BaseStatement>)
        requires
            old(self).wf(),
        ensures
            final(self).wf(),
            r@.len() > 0,
            Self::handled(
                *old(self),
                *final(self),
                old(times)@,
                final(times)@,
                statement_views(r@),
                next_transaction,
                block_views(blocks@),
                now,
            ),
    {
        let mut response: Vec<BaseStatement> = Vec::new();
        response.push(share_of(next_transaction));
        times.insert(next_transaction, now);
        self.log.record(next_transaction);
        self.transaction_votes.register(next_transaction, self.authority, &self.committee);
        self.log.record_blocks(blocks);
        let ghost said = statement_views(response@);
        let mut echoes = process_blocks(
            &mut self.transaction_votes,
            blocks,
            true,
            &self.committee,
            times,
            now,
            &mut self.transaction_certified_latency,
        );
        let ghost heard = statement_views(echoes@);
        response.append(&mut echoes);
        proof {
            assert(said =~= seq![own_share(next_transaction)]);
            assert(statement_views(response@) =~= said + heard);
        }
        response
    }
}

impl BlockHandler for RealBlockHandler {
    open spec fn wf(&self) -> bool {
        crate::aggregator::records_wf(self.votes()) && self.latency_wf()
    }

    open spec fn accepts(&self, blocks: Seq<BlockView>) -> bool {
        true
    }

    open spec fn exported(&self) -> Seq<u8> {
        encode_state(self.votes())
    }

    /// Draws the id of a new transaction and goes on as
    /// [`RealBlockHandler::handle_blocks_with`] says for that id, whichever id
    /// was drawn.
    fn handle_blocks(&mut self, blocks: &Vec<StatementBlock>, times: &mut TransactionTimes, now: u64) -> (r:
        Vec<BaseStatement>)
        ensures
            exists|next: TransactionId|
                #[trigger] Self::handled(
                    *old(self),
                    *final(self),
                    old(times)@,
                    final(times)@,
                    statement_views(r@),
                    next,
                    block_views(blocks@),
                    now,
                ),
    {
        let next_transaction = next_number(&mut self.rng);
        let ghost drawn = *self;
        let r = self.handle_blocks_with(next_transaction, blocks, times, now);
        proof {
            assert(drawn.votes() == old(self).votes() && drawn.logged() == old(self).logged());
            assert(drawn.committee() == old(self).committee() && drawn.authority() == old(
                self,
            ).authority());
            assert(drawn.latency() == old(self).latency());
            assert(Self::handled(
                *old(self),
                *self,
                old(times)@,
                times@,
                statement_views(r@),
                next_transaction,
                block_views(blocks@),
                now,
            ));
        }
        r
    }

    fn state(&self) -> (r: Vec<u8>) {
        self.transaction_votes.state()
    }

    /// Takes the state if `state` is the byte form of an aggregator's state.
    fn recover_state(&mut self, state: &Vec<u8>) -> (r: Result<(), StateError>)
        ensures
            final(self).committee() == old(self).committee(),
            final(self).authority() == old(self).authority(),
            final(self).latency() == old(self).latency(),
            final(self).logged() == old(self).logged(),
            match r {
                Ok(()) => parse_state(state@) == Some(final(self).votes()),
                Err(StateError::Malformed) => parse_state(state@) is None && final(self).votes() == old(
                    self,
                ).votes(),
            },
    {
        proof {
            if state@ == self.exported() {
                self.transaction_votes.lemma_encodable();
                crate::codec::lemma_parse_of_encode(self.votes());
            }
        }
        let r = self.transaction_votes.with_state(state);
        proof {
            if r is Ok {
                crate::codec::lemma_encode_of_parse(state@);
            }
        }
        r
    }
}

/// A handler that takes note of nothing and has nothing to say.
pub struct NoOpBlockHandler {}

impl NoOpBlockHandler {
    pub fn new() -> (r: Self)
        ensures
            r.wf(),
    {
        NoOpBlockHandler {  }
    }
}

impl BlockHandler for NoOpBlockHandler {
    open spec fn wf(&self) -> bool {
        true
    }

    open spec fn accepts(&self, blocks: Seq<BlockView>) -> bool {
        true
    }

    open spec fn exported(&self) -> Seq<u8> {
        Seq::empty()
    }

    /// Leaves everything as it is and returns no statement.
    fn handle_blocks(&mut self, blocks: &Vec<StatementBlock>, times: &mut TransactionTimes, now: u64) -> (r:
        Vec<BaseStatement>)
        ensures
            r@.len() == 0,
            final(times)@ == old(times)@,
    {
        Vec::new()
    }

    fn state(&self) -> (r: Vec<u8>) {
        Vec::new()
    }

    /// Takes the empty state and no other.
    fn recover_state(&mut self, state: &Vec<u8>) -> (r: Result<(), StateError>)
        ensures
            r is Ok == (state@.len() == 0),
    {
        if state.len() == 0 {
            Ok(())
        } else {
            Err(StateError::Malformed)
        }
    }
}

} // verus!
