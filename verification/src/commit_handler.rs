//! The observer of commits: it cuts each committed leader's sub-DAG out of
//! the store, certifies the transactions of committed blocks, and measures how
//! long certificates and transactions took to be committed.

use crate::aggregator::{records_wf, TransactionAggregator, VoteRecord};
use crate::block_handler::{certified_in, lemma_votes_after_concat, process_blocks, votes_after};
use crate::block_store::BlockStore;
use crate::codec::parse_state;
use crate::commit_interpreter::{
    committed_after, interpret, sub_dag_views, CommitInterpreter, CommittedSubDag, SubDagView,
};
use crate::committee::Committee;
use crate::latency::{latencies, lemma_latencies_concat, observe_latencies, TransactionTimes};
use crate::log::{all_statement_ids, ids_of, lemma_all_statement_ids_concat};
use crate::stat::{histogram, lemma_observe_all_concat, observe_all, HistogramView, PreciseHistogram};
use crate::types::{block_views, BlockReference, BlockView};
use vstd::prelude::*;

verus! {

/// Why a recovery was refused.
#[derive(Clone, Copy, Debug, PartialEq, Eq, Structural)]
pub enum RecoveryError {
    /// Committed blocks came without an aggregator state, or an aggregator
    /// state without committed blocks.
    InconsistentRecoveryState,
    /// The aggregator state is not the byte form of any state.
    MalformedState,
}

/// What is handed on for each commit, as plain values.
pub struct CommitDataView {
    pub leader: BlockReference,
    pub sub_dag: Seq<BlockReference>,
}

/// What is handed on for each commit: the references of the leader and of
/// the blocks committed with it.
#[derive(Debug)]
pub struct CommitData {
    pub leader: BlockReference,
    pub sub_dag: Vec<BlockReference>,
}

impl View for CommitData {
    type V = CommitDataView;

    open spec fn view(&self) -> CommitDataView {
        CommitDataView { leader: self.leader, sub_dag: self.sub_dag@ }
    }
}

/// The references of a sequence of blocks, in order.
pub open spec fn block_references(blocks: Seq<BlockView>) -> Seq<BlockReference> {
    blocks.map_values(|b: BlockView| b.reference)
}

/// What is handed on for a sub-DAG.
pub open spec fn commit_data_of(d: SubDagView) -> CommitDataView {
    CommitDataView { leader: d.anchor, sub_dag: block_references(d.blocks) }
}

/// The views of a sequence of commit data.
pub open spec fn commit_data_views(s: Seq<CommitData>) -> Seq<CommitDataView> {
    s.map_values(|c: CommitData| c@)
}

/// The blocks of a sequence of sub-DAGs, in order.
pub open spec fn all_blocks(commits: Seq<SubDagView>) -> Seq<BlockView>
    decreases commits.len(),
{
    if commits.len() == 0 {
        Seq::empty()
    } else {
        all_blocks(commits.drop_last()) + commits.last().blocks
    }
}

/// The anchors of a sequence of sub-DAGs, in order.
pub open spec fn anchors(commits: Seq<SubDagView>) -> Seq<BlockReference> {
    commits.map_values(|d: SubDagView| d.anchor)
}

impl CommitData {
    /// What is handed on for `commit`.
    pub fn from(commit: &CommittedSubDag) -> (r: Self)
        ensures
            r@ == commit_data_of(commit@),
    {
        let mut sub_dag: Vec<BlockReference> = Vec::new();
        let mut i: usize = 0;
        while i < commit.blocks.len()
            invariant
                i <= commit.blocks.len(),
                sub_dag@ == block_references(block_views(commit.blocks@)).take(i as int),
            decreases commit.blocks.len() - i,
        {
            sub_dag.push(commit.blocks[i].reference());
            assert(sub_dag@ =~= block_references(block_views(commit.blocks@)).take(i as int + 1));
            i += 1;
        }
        assert(block_references(block_views(commit.blocks@)).take(i as int) =~= block_references(
            block_views(commit.blocks@),
        ));
        CommitData { leader: commit.anchor, sub_dag }
    }
}

/// Observes commits for tests and benchmarks.
pub struct TestCommitHandler {
    commit_interpreter: CommitInterpreter,
    transaction_votes: TransactionAggregator,
    committee: Committee,
    committed_leaders: Vec<BlockReference>,
    committed_dags: Vec<CommittedSubDag>,
    certificate_committed_latency: PreciseHistogram,
    transaction_committed_latency: PreciseHistogram,
}

impl TestCommitHandler {
    /// An observer that has seen no commit.
    pub fn new(committee: Committee) -> (r: Self)
        ensures
            r.wf(),
            r.committee() == committee,
            r.committed() == Set::<BlockReference>::empty(),
            r.votes() == Seq::<VoteRecord>::empty(),
            r.leaders() == Seq::<BlockReference>::empty(),
            r.dags() == Seq::<SubDagView>::empty(),
            r.certificate_latency() == (HistogramView { points: Seq::empty(), sum: 0 }),
            r.transaction_latency() == (HistogramView { points: Seq::empty(), sum: 0 }),
    {
        let (certificate, _) = histogram();
        let (transaction, _) = histogram();
        let r = Self {
            commit_interpreter: CommitInterpreter::new(),
            transaction_votes: TransactionAggregator::new(),
            committee,
            committed_leaders: Vec::new(),
            committed_dags: Vec::new(),
            certificate_committed_latency: certificate,
            transaction_committed_latency: transaction,
        };
        assert(r.dags() =~= Seq::<SubDagView>::empty());
        r
    }

    /// The invariant of the observer.
    pub closed spec fn wf(&self) -> bool {
        &&& records_wf(self.transaction_votes@)
        &&& self.certificate_committed_latency.wf()
        &&& self.transaction_committed_latency.wf()
    }

    /// The committee the observer works for.
    pub closed spec fn committee(&self) -> Committee {
        self.committee
    }

    /// The blocks committed so far.
    pub closed spec fn committed(&self) -> Set<BlockReference> {
        self.commit_interpreter@
    }

    /// What the observer's aggregator knows.
    pub closed spec fn votes(&self) -> Seq<VoteRecord> {
        self.transaction_votes@
    }

    /// The leaders committed so far, in order.
    pub closed spec fn leaders(&self) -> Seq<BlockReference> {
        self.committed_leaders@
    }

    /// The sub-DAGs committed so far, in order.
    pub closed spec fn dags(&self) -> Seq<SubDagView> {
        sub_dag_views(self.committed_dags@)
    }

    /// The times that certified transactions took to be committed.
    pub closed spec fn certificate_latency(&self) -> HistogramView {
        self.certificate_committed_latency@
    }

    /// The times that transactions took to be committed.
    pub closed spec fn transaction_latency(&self) -> HistogramView {
        self.transaction_committed_latency@
    }

    /// The leaders committed so far, in order.
    pub fn committed_leaders(&self) -> (r: &Vec<BlockReference>)
        ensures
            r@ == self.leaders(),
    {
        &self.committed_leaders
    }

    /// The sub-DAGs committed so far, in order.
    pub fn committed_dags(&self) -> (r: &Vec<CommittedSubDag>)
        ensures
            sub_dag_views(r@) == self.dags(),
    {
        &self.committed_dags
    }

    /// The times that certified transactions took to be committed.
    pub fn certificate_committed_latency(&self) -> (r: &PreciseHistogram)
        ensures
            r@ == self.certificate_latency(),
            self.wf() ==> r.wf(),
    {
        &self.certificate_committed_latency
    }

    /// The times that transactions took to be committed.
    pub fn transaction_committed_latency(&self) -> (r: &PreciseHistogram)
        ensures
            r@ == self.transaction_latency(),
            self.wf() ==> r.wf(),
    {
        &self.transaction_committed_latency
    }

    /// Cuts the sub-DAG of each leader out of the store, in order. The
    /// author of every committed block echoes the transactions of its block; the
    /// time each transaction certified on the way took until `now` is observed,
    /// and so is the time each transaction of a committed block took.
    pub fn handle_commit(
        &mut self,
        block_store: &BlockStore,
        committed_leaders: &Vec<BlockReference>,
        times: &TransactionTimes,
        now: u64,
    ) -> (r: Vec<CommitData>)
        requires
            old(self).wf(),
        ensures
            final(self).wf(),
            final(self).committee() == old(self).committee(),
            final(self).committed() == committed_after(
                block_store@,
                old(self).committed(),
                committed_leaders@,
            ),
            final(self).leaders() == old(self).leaders() + committed_leaders@,
            final(self).dags() == old(self).dags() + interpret(
                block_store@,
                old(self).committed(),
                committed_leaders@,
            ),
            commit_data_views(r@) == interpret(
                block_store@,
                old(self).committed(),
                committed_leaders@,
            ).map_values(|d: SubDagView| commit_data_of(d)),
            final(self).votes() == votes_after(
                old(self).votes(),
                all_blocks(interpret(block_store@, old(self).committed(), committed_leaders@)),
                old(self).committee().len(),
            ),
            final(self).certificate_latency() == observe_all(
                old(self).certificate_latency(),
                latencies(
                    certified_in(
                        old(self).votes(),
                        all_blocks(interpret(block_store@, old(self).committed(), committed_leaders@)),
                        old(self).committee().len(),
                    ),
                    times@,
                    now,
                ),
            ),
            final(self).transaction_latency() == observe_all(
                old(self).transaction_latency(),
                latencies(
                    all_statement_ids(
                        all_blocks(interpret(block_store@, old(self).committed(), committed_leaders@)),
                    ),
                    times@,
                    now,
                ),
            ),
    {
        let ghost v0 = self.votes();
        let ghost c0 = self.certificate_latency();
        let ghost t0 = self.transaction_latency();
        let ghost size = self.committee.len();
        let ghost leaders0 = self.leaders();
        let ghost dags0 = self.dags();
        let mut committed = self.commit_interpreter.handle_commit(block_store, committed_leaders);
        let ghost commits = sub_dag_views(committed@);
        proof {
            lemma_interpret_anchors(block_store@, old(self).committed(), committed_leaders@);
        }
        let mut commit_data: Vec<CommitData> = Vec::new();
        let mut i: usize = 0;
        proof {
            assert(c0.points + Seq::<u64>::empty() =~= c0.points);
            assert(t0.points + Seq::<u64>::empty() =~= t0.points);
            assert(leaders0 + anchors(commits).take(0) =~= leaders0);
            assert(commit_data_views(commit_data@) =~= commits.take(0).map_values(
                |d: SubDagView| commit_data_of(d),
            ));
        }
        while i < committed.len()
            invariant
                i <= committed.len(),
                commits == sub_dag_views(committed@),
                size == self.committee.len(),
                self.committee == old(self).committee,
                self.commit_interpreter@ == committed_after(
                    block_store@,
                    old(self).committed(),
                    committed_leaders@,
                ),
                self.committed_dags == old(self).committed_dags,
                self.wf(),
                self.committed_leaders@ == leaders0 + anchors(commits).take(i as int),
                commit_data_views(commit_data@) == commits.take(i as int).map_values(
                    |d: SubDagView| commit_data_of(d),
                ),
                self.transaction_votes@ == votes_after(v0, all_blocks(commits.take(i as int)), size),
                self.certificate_committed_latency@ == observe_all(
                    c0,
                    latencies(certified_in(v0, all_blocks(commits.take(i as int)), size), times@, now),
                ),
                self.transaction_committed_latency@ == observe_all(
                    t0,
                    latencies(all_statement_ids(all_blocks(commits.take(i as int))), times@, now),
                ),
            decreases committed.len() - i,
        {
            let commit = &committed[i];
            let ghost done = all_blocks(commits.take(i as int));
            let ghost blocks = block_views(commit.blocks@);
            let ghost leaders_before = self.committed_leaders@;
            let ghost data_before = commit_data@;
            proof {
                assert(commits.take(i as int + 1).drop_last() == commits.take(i as int));
                assert(commits.take(i as int + 1).last() == commit@);
                assert(commit@.blocks == blocks);
                lemma_votes_after_concat(v0, done, blocks, size);
                lemma_latencies_concat(
                    certified_in(v0, done, size),
                    certified_in(votes_after(v0, done, size), blocks, size),
                    times@,
                    now,
                );
                lemma_observe_all_concat(
                    c0,
                    latencies(certified_in(v0, done, size), times@, now),
                    latencies(certified_in(votes_after(v0, done, size), blocks, size), times@, now),
                );
                lemma_all_statement_ids_concat(done, blocks);
            }
            self.committed_leaders.push(commit.anchor);
            let _ = process_blocks(
                &mut self.transaction_votes,
                &commit.blocks,
                false,
                &self.committee,
                times,
                now,
                &mut self.certificate_committed_latency,
            );
            let ghost t1 = self.transaction_committed_latency@;
            let mut k: usize = 0;
            proof {
                assert(t1.points + Seq::<u64>::empty() =~= t1.points);
            }
            while k < commit.blocks.len()
                invariant
                    k <= commit.blocks.len(),
                    blocks == block_views(commit.blocks@),
                    self.committee == old(self).committee,
                    self.commit_interpreter@ == committed_after(
                        block_store@,
                        old(self).committed(),
                        committed_leaders@,
                    ),
                    self.committed_dags == old(self).committed_dags,
                    self.wf(),
                    self.committed_leaders@ == leaders_before.push(commit.anchor),
                    self.transaction_votes@ == votes_after(v0, done + blocks, size),
                    self.certificate_committed_latency@ == observe_all(
                        c0,
                        latencies(certified_in(v0, done + blocks, size), times@, now),
                    ),
                    self.transaction_committed_latency@ == observe_all(
                        t1,
                        latencies(all_statement_ids(blocks.take(k as int)), times@, now),
                    ),
                decreases commit.blocks.len() - k,
            {
                let ids = ids_of(&commit.blocks[k]);
                proof {
                    assert(blocks.take(k as int + 1).drop_last() == blocks.take(k as int));
                    assert(blocks.take(k as int + 1).last() == commit.blocks@[k as int]@);
                    lemma_latencies_concat(
                        all_statement_ids(blocks.take(k as int)),
                        ids@,
                        times@,
                        now,
                    );
                    lemma_observe_all_concat(
                        t1,
                        latencies(all_statement_ids(blocks.take(k as int)), times@, now),
                        latencies(ids@, times@, now),
                    );
                }
                observe_latencies(&mut self.transaction_committed_latency, &ids, times, now);
                k += 1;
            }
            commit_data.push(CommitData::from(commit));
            proof {
                assert(blocks.take(k as int) == blocks);
                lemma_latencies_concat(
                    all_statement_ids(done),
                    all_statement_ids(blocks),
                    times@,
                    now,
                );
                lemma_observe_all_concat(
                    t0,
                    latencies(all_statement_ids(done), times@, now),
                    latencies(all_statement_ids(blocks), times@, now),
                );
                assert(leaders_before.push(commit.anchor) =~= leaders0 + anchors(commits).take(
                    i as int + 1,
                ));
                assert(commit_data@ == data_before.push(commit_data@.last()));
                assert(commit_data@.last()@ == commit_data_of(commit@));
                let now_views = commit_data_views(commit_data@);
                let want = commits.take(i as int + 1).map_values(|d: SubDagView| commit_data_of(d));
                let had = commits.take(i as int).map_values(|d: SubDagView| commit_data_of(d));
                assert(commit_data_views(data_before) == had);
                assert(commits.len() == committed@.len());
                assert(commits.take(i as int).len() == i);
                assert(had.len() == i);
                assert(commit_data_views(data_before).len() == data_before.len());
                assert(commits.take(i as int + 1).len() == i + 1);
                assert(want.len() == i + 1);
                assert(now_views.len() == commit_data@.len());
                assert(now_views.len() == want.len());
                assert forall|j: int| 0 <= j < want.len() implies now_views[j] == want[j] by {
                    if j < i {
                        assert(commit_data@[j] == data_before[j]);
                        assert(commit_data_views(data_before)[j] == had[j]);
                        assert(commits.take(i as int + 1)[j] == commits.take(i as int)[j]);
                    } else {
                        assert(commits.take(i as int + 1)[j] == commit@);
                    }
                }
                assert(now_views =~= want);
            }
            i += 1;
        }
        proof {
            assert(commits.take(i as int) == commits);
            assert(anchors(commits).take(i as int) =~= anchors(commits));
            assert(sub_dag_views(self.committed_dags@ + committed@) =~= dags0 + commits);
        }
        self.committed_dags.append(&mut committed);
        commit_data
    }

    /// The aggregator's state as bytes.
    pub fn aggregator_state(&self) -> (r: Vec<u8>)
        ensures
            r@ == crate::codec::encode_state(self.votes()),
            self.wf() ==> parse_state(r@) == Some(self.votes()),
    {
        self.transaction_votes.state()
    }

    /// Starts again from the committed blocks and the aggregator state of
    /// an earlier run. The two belong together: blocks come with a state, and
    /// no blocks with none. Nothing changes when the recovery is refused.
    pub fn recover_committed(&mut self, committed: Vec<BlockReference>, state: Option<Vec<u8>>) -> (r:
        Result<(), RecoveryError>)
        requires
            old(self).wf(),
        ensures
            final(self).wf(),
            final(self).committee() == old(self).committee(),
            final(self).leaders() == old(self).leaders(),
            final(self).dags() == old(self).dags(),
            final(self).certificate_latency() == old(self).certificate_latency(),
            final(self).transaction_latency() == old(self).transaction_latency(),
            match r {
                Ok(()) => {
                    &&& (committed@.len() == 0) == (state is None)
                    &&& final(self).committed() == committed@.to_set()
                    &&& match state {
                        Some(bytes) => parse_state(bytes@) == Some(final(self).votes())
                            && crate::codec::encode_state(final(self).votes()) == bytes@,
                        None => final(self).votes() == old(self).votes(),
                    }
                },
                Err(RecoveryError::InconsistentRecoveryState) => {
                    &&& (committed@.len() == 0) != (state is None)
                    &&& final(self).committed() == old(self).committed()
                    &&& final(self).votes() == old(self).votes()
                },
                Err(RecoveryError::MalformedState) => {
                    &&& committed@.len() != 0
                    &&& state matches Some(bytes) && parse_state(bytes@) is None
                    &&& final(self).committed() == old(self).committed()
                    &&& final(self).votes() == old(self).votes()
                },
            },
    {
        if (committed.len() == 0) != state.is_none() {
            return Err(RecoveryError::InconsistentRecoveryState);
        }
        match &state {
            Some(bytes) => {
                if self.transaction_votes.with_state(bytes).is_err() {
                    return Err(RecoveryError::MalformedState);
                }
            },
            None => {},
        }
        self.commit_interpreter.recover(committed);
        Ok(())
    }
}

/// Every leader gets a sub-DAG, in order: the anchors of the sub-DAGs are the leaders.
pub proof fn lemma_interpret_anchors(
    s: Seq<BlockView>,
    committed: Set<BlockReference>,
    leaders: Seq<BlockReference>,
)
    ensures
        anchors(interpret(s, committed, leaders)) == leaders,
    decreases leaders.len(),
{
    if leaders.len() == 0 {
        assert(anchors(interpret(s, committed, leaders)) =~= leaders);
    } else {
        lemma_interpret_anchors(s, committed, leaders.drop_last());
        let prev = interpret(s, committed, leaders.drop_last());
        let all = interpret(s, committed, leaders);
        assert(all.len() == prev.len() + 1);
        assert(all.last().anchor == leaders.last());
        assert(all.drop_last() =~= prev);
        assert forall|i: int| 0 <= i < leaders.len() implies anchors(all)[i] == leaders[i] by {
            if i < prev.len() {
                assert(all[i] == prev[i]);
                assert(anchors(prev)[i] == leaders.drop_last()[i]);
            }
        }
        assert(anchors(all) =~= leaders);
    }
}

} // verus!
