//! Turns committed leaders into committed sub-DAGs: for each leader, the
//! blocks it finalises that no earlier leader finalised.

use crate::block_store::{
    ancestor_closed, descends, lemma_descends_linked, lemma_linked_descends, lemma_linked_prefix,
    lemma_parent_before, linked_at, linked_blocks, listed, reference_in, store_contains,
    store_sorted, store_wf, BlockStore,
};
use crate::types::{block_views, BlockReference, BlockView, StatementBlock};
use vstd::prelude::*;

verus! {

/// A committed sub-DAG as plain values.
pub struct SubDagView {
    pub anchor: BlockReference,
    pub blocks: Seq<BlockView>,
}

/// The blocks finalised by one committed leader: the leader's reference and
/// the blocks reached from it that were not committed before, ordered by
/// round, then author, then digest.
pub struct CommittedSubDag {
    pub anchor: BlockReference,
    pub blocks: Vec<StatementBlock>,
}

impl View for CommittedSubDag {
    type V = SubDagView;

    open spec fn view(&self) -> SubDagView {
        SubDagView { anchor: self.anchor, blocks: block_views(self.blocks@) }
    }
}

/// The views of a sequence of sub-DAGs.
pub open spec fn sub_dag_views(s: Seq<CommittedSubDag>) -> Seq<SubDagView> {
    s.map_values(|d: CommittedSubDag| d@)
}

/// The references of a sequence of blocks, as a set.
pub open spec fn references_of(blocks: Seq<BlockView>) -> Set<BlockReference> {
    Set::new(|r: BlockReference| exists|i: int| 0 <= i < blocks.len() && (#[trigger] blocks[i]).reference == r)
}

/// The set of committed blocks after the leaders `leaders` were handled in
/// order, starting from `committed`.
pub open spec fn committed_after(
    s: Seq<BlockView>,
    committed: Set<BlockReference>,
    leaders: Seq<BlockReference>,
) -> Set<BlockReference>
    decreases leaders.len(),
{
    if leaders.len() == 0 {
        committed
    } else {
        let before = committed_after(s, committed, leaders.drop_last());
        before.union(references_of(linked_blocks(s, leaders.last(), before)))
    }
}

/// The sub-DAGs of the leaders `leaders`, handled in order starting from `committed`.
pub open spec fn interpret(
    s: Seq<BlockView>,
    committed: Set<BlockReference>,
    leaders: Seq<BlockReference>,
) -> Seq<SubDagView>
    decreases leaders.len(),
{
    if leaders.len() == 0 {
        Seq::empty()
    } else {
        let before = committed_after(s, committed, leaders.drop_last());
        interpret(s, committed, leaders.drop_last()).push(
            SubDagView { anchor: leaders.last(), blocks: linked_blocks(s, leaders.last(), before) },
        )
    }
}

/// Remembers which blocks are committed, and cuts the DAG into one sub-DAG
/// per committed leader.
pub struct CommitInterpreter {
    committed: Vec<BlockReference>,
}

impl View for CommitInterpreter {
    type V = Set<BlockReference>;

    /// The committed blocks.
    closed spec fn view(&self) -> Set<BlockReference> {
        self.committed@.to_set()
    }
}

impl CommitInterpreter {
    /// An interpreter for which nothing is committed yet.
    pub fn new() -> (r: Self)
        ensures
            r@ == Set::<BlockReference>::empty(),
    {
        let r = CommitInterpreter { committed: Vec::new() };
        assert(r@ =~= Set::<BlockReference>::empty());
        r
    }

    /// Whether nothing is committed yet.
    pub fn is_empty(&self) -> (r: bool)
        ensures
            r == (self@ == Set::<BlockReference>::empty()),
    {
        let r = self.committed.len() == 0;
        proof {
            if r {
                assert(self@ =~= Set::<BlockReference>::empty());
            } else {
                assert(self.committed@.contains(self.committed@[0]));
                assert(self@.contains(self.committed@[0]));
            }
        }
        r
    }

    /// Whether the block `r` is committed.
    pub fn is_committed(&self, r: &BlockReference) -> (found: bool)
        ensures
            found == self@.contains(*r),
    {
        reference_in(&self.committed, r)
    }

    /// Takes `committed` as the set of committed blocks.
    pub fn recover(&mut self, committed: Vec<BlockReference>)
        ensures
            final(self)@ == committed@.to_set(),
    {
        self.committed = committed;
    }

    /// For each leader, in order: the blocks reached from it that are not
    /// committed yet become one sub-DAG, and are committed from then on.
    pub fn handle_commit(&mut self, block_store: &BlockStore, leaders: &Vec<BlockReference>) -> (r: Vec<
        CommittedSubDag,
    >)
        ensures
            sub_dag_views(r@) == interpret(block_store@, old(self)@, leaders@),
            final(self)@ == committed_after(block_store@, old(self)@, leaders@),
            store_wf(block_store@) && ancestor_closed(block_store@, old(self)@) ==> ancestor_closed(
                block_store@,
                final(self)@,
            ),
    {
        proof {
            if store_wf(block_store@) && ancestor_closed(block_store@, old(self)@) {
                lemma_closed_after(block_store@, old(self)@, leaders@);
            }
        }
        let ghost s = block_store@;
        let ghost start = self@;
        let mut out: Vec<CommittedSubDag> = Vec::new();
        let mut i: usize = 0;
        while i < leaders.len()
            invariant
                i <= leaders.len(),
                s == block_store@,
                sub_dag_views(out@) == interpret(s, start, leaders@.take(i as int)),
                self@ == committed_after(s, start, leaders@.take(i as int)),
            decreases leaders.len() - i,
        {
            let leader = leaders[i];
            let ghost before = self@;
            let ghost prior = out@;
            let blocks = block_store.linked_ancestors(leader, &self.committed);
            let ghost linked = linked_blocks(s, leader, before);
            let mut k: usize = 0;
            while k < blocks.len()
                invariant
                    k <= blocks.len(),
                    block_views(blocks@) == linked,
                    self@ == before.union(references_of(linked.take(k as int))),
                decreases blocks.len() - k,
            {
                let ghost inner = self.committed@;
                self.committed.push(blocks[k].reference());
                proof {
                    let r = linked[k as int].reference;
                    assert(blocks@[k as int]@ == linked[k as int]);
                    assert(self.committed@ == inner.push(r));
                    let a = linked.take(k as int);
                    let b = linked.take(k as int + 1);
                    let now = self.committed@;
                    assert(inner.to_set() == before.union(references_of(a)));
                    assert forall|x: BlockReference| now.contains(x) == (inner.contains(x) || x == r) by {
                        if now.contains(x) {
                            let w = choose|w: int| 0 <= w < now.len() && now[w] == x;
                            if w < inner.len() {
                                assert(inner[w] == x);
                            }
                        }
                        if inner.contains(x) {
                            let w = choose|w: int| 0 <= w < inner.len() && inner[w] == x;
                            assert(now[w] == x);
                        }
                        if x == r {
                            assert(now[inner.len() as int] == x);
                        }
                    }
                    assert forall|x: BlockReference|
                        references_of(b).contains(x) == (references_of(a).contains(x) || x == r) by {
                        if references_of(b).contains(x) {
                            let w = choose|w: int| 0 <= w < b.len() && (#[trigger] b[w]).reference == x;
                            if w < k {
                                assert(a[w].reference == x);
                            }
                        }
                        if references_of(a).contains(x) {
                            let w = choose|w: int| 0 <= w < a.len() && (#[trigger] a[w]).reference == x;
                            assert(b[w].reference == x);
                        }
                        if x == r {
                            assert(b[k as int].reference == x);
                        }
                    }
                    assert forall|x: BlockReference|
                        self@.contains(x) == before.union(references_of(b)).contains(x) by {
                        assert(inner.to_set().contains(x) == inner.contains(x));
                        assert(self@.contains(x) == now.contains(x));
                    }
                    assert(self@ =~= before.union(references_of(linked.take(k as int + 1))));
                }
                k += 1;
            }
            out.push(CommittedSubDag { anchor: leader, blocks });
            proof {
                assert(linked.take(k as int) == linked);
                assert(leaders@.take(i as int + 1).drop_last() == leaders@.take(i as int));
                assert(leaders@.take(i as int + 1).last() == leader);
                assert(out@ == prior.push(out@.last()));
                assert(sub_dag_views(out@) =~= sub_dag_views(prior).push(
                    SubDagView { anchor: leader, blocks: linked },
                ));
            }
            i += 1;
        }
        proof {
            assert(leaders@.take(i as int) == leaders@);
        }
        out
    }
}

/// Handling the first `k` leaders gives the first `k` sub-DAGs.
pub proof fn lemma_interpret_prefix(
    s: Seq<BlockView>,
    committed: Set<BlockReference>,
    leaders: Seq<BlockReference>,
    k: int,
)
    requires
        0 <= k <= leaders.len(),
    ensures
        interpret(s, committed, leaders).len() == leaders.len(),
        interpret(s, committed, leaders.take(k)) == interpret(s, committed, leaders).take(k),
    decreases leaders.len(),
{
    if leaders.len() == 0 {
        assert(leaders.take(k) == leaders);
        assert(interpret(s, committed, leaders).take(k) =~= interpret(s, committed, leaders));
    } else if k == leaders.len() {
        lemma_interpret_prefix(s, committed, leaders.drop_last(), k - 1);
        assert(leaders.take(k) == leaders);
        assert(interpret(s, committed, leaders).take(k) =~= interpret(s, committed, leaders));
    } else {
        lemma_interpret_prefix(s, committed, leaders.drop_last(), k);
        assert(leaders.take(k) =~= leaders.drop_last().take(k));
        assert(interpret(s, committed, leaders).take(k) =~= interpret(
            s,
            committed,
            leaders.drop_last(),
        ).take(k));
    }
}

/// The sub-DAG of the leader at position `a`: what that leader reaches of
/// the blocks not committed when its turn comes.
pub proof fn lemma_sub_dag_at(
    s: Seq<BlockView>,
    committed: Set<BlockReference>,
    leaders: Seq<BlockReference>,
    a: int,
)
    requires
        0 <= a < leaders.len(),
    ensures
        interpret(s, committed, leaders).len() == leaders.len(),
        interpret(s, committed, leaders)[a] == (SubDagView {
            anchor: leaders[a],
            blocks: linked_blocks(s, leaders[a], committed_after(s, committed, leaders.take(a))),
        }),
        committed_after(s, committed, leaders.take(a + 1)) == committed_after(
            s,
            committed,
            leaders.take(a),
        ).union(
            references_of(
                linked_blocks(s, leaders[a], committed_after(s, committed, leaders.take(a))),
            ),
        ),
{
    lemma_interpret_prefix(s, committed, leaders, a + 1);
    let short = leaders.take(a + 1);
    assert(short.drop_last() == leaders.take(a));
    assert(short.last() == leaders[a]);
    lemma_interpret_prefix(s, committed, leaders.take(a), a);
    assert(interpret(s, committed, leaders.take(a)).len() == a);
    assert(interpret(s, committed, short) == interpret(s, committed, leaders.take(a)).push(
        SubDagView {
            anchor: leaders[a],
            blocks: linked_blocks(s, leaders[a], committed_after(s, committed, leaders.take(a))),
        },
    ));
    assert(interpret(s, committed, short)[a] == interpret(s, committed, leaders).take(a + 1)[a]);
}

/// The committed blocks only become more.
pub proof fn lemma_committed_grows(
    s: Seq<BlockView>,
    committed: Set<BlockReference>,
    leaders: Seq<BlockReference>,
    a: int,
    b: int,
)
    requires
        0 <= a <= b <= leaders.len(),
    ensures
        committed_after(s, committed, leaders.take(a)).subset_of(
            committed_after(s, committed, leaders.take(b)),
        ),
    decreases b - a,
{
    if a < b {
        lemma_committed_grows(s, committed, leaders, a, b - 1);
        lemma_sub_dag_at(s, committed, leaders, b - 1);
    }
}

/// A block that is reached is listed among the reached blocks, and a block
/// listed is reached, at its own position.
pub proof fn lemma_linked_blocks(s: Seq<BlockView>, from: BlockReference, stop: Set<BlockReference>)
    ensures
        forall|k: int|
            0 <= k < s.len() && linked_at(s, from, stop, k) ==> references_of(
                linked_blocks(s, from, stop),
            ).contains((#[trigger] s[k]).reference),
        forall|x: int|
            0 <= x < linked_blocks(s, from, stop).len() ==> !stop.contains(
                (#[trigger] linked_blocks(s, from, stop)[x]).reference,
            ) && listed(s, from, stop, s.len() as int, linked_blocks(s, from, stop)[x]),
        store_sorted(s) ==> forall|k: int|
            0 <= k < s.len() && references_of(linked_blocks(s, from, stop)).contains(
                (#[trigger] s[k]).reference,
            ) ==> linked_at(s, from, stop, k),
{
    let lb = linked_blocks(s, from, stop);
    lemma_linked_prefix(s, from, stop, s.len() as int);
    assert forall|k: int| 0 <= k < s.len() && linked_at(s, from, stop, k) implies references_of(
        lb,
    ).contains((#[trigger] s[k]).reference) by {
        let x = choose|x: int| 0 <= x < lb.len() && lb[x] == s[k];
        assert(lb[x].reference == s[k].reference);
    }
    assert forall|x: int| 0 <= x < lb.len() implies !stop.contains((#[trigger] lb[x]).reference)
        && listed(s, from, stop, s.len() as int, lb[x]) by {
        assert(listed(s, from, stop, s.len() as int, lb[x]));
        let k = choose|k: int|
            0 <= k < s.len() && linked_at(s, from, stop, k) && #[trigger] s[k] == lb[x];
        assert(!stop.contains(s[k].reference));
    }
    if store_sorted(s) {
        assert forall|k: int|
            0 <= k < s.len() && references_of(lb).contains(
                (#[trigger] s[k]).reference,
            ) implies linked_at(s, from, stop, k) by {
            let x = choose|x: int| 0 <= x < lb.len() && (#[trigger] lb[x]).reference == s[k].reference;
            assert(listed(s, from, stop, s.len() as int, lb[x]));
            let m = choose|m: int|
                0 <= m < s.len() && linked_at(s, from, stop, m) && #[trigger] s[m] == lb[x];
            if m < k {
                assert(crate::types::reference_lt(s[m].reference, s[k].reference));
            }
            if k < m {
                assert(crate::types::reference_lt(s[k].reference, s[m].reference));
            }
        }
    }
}

/// Where the committed blocks come with all their ancestors, they still
/// do after a leader was handled.
pub proof fn lemma_closed_step(s: Seq<BlockView>, committed: Set<BlockReference>, from: BlockReference)
    requires
        store_wf(s),
        ancestor_closed(s, committed),
    ensures
        ancestor_closed(s, committed.union(references_of(linked_blocks(s, from, committed)))),
{
    let lb = linked_blocks(s, from, committed);
    let after = committed.union(references_of(lb));
    lemma_linked_blocks(s, from, committed);
    assert forall|i: int, k: int|
        0 <= i < s.len() && after.contains((#[trigger] s[i]).reference) && 0 <= k
            < s[i].includes.len() implies after.contains(#[trigger] s[i].includes[k]) by {
        let parent = s[i].includes[k];
        if !committed.contains(s[i].reference) {
            assert(linked_at(s, from, committed, i));
            assert(store_contains(s, parent));
            let m = choose|m: int| 0 <= m < s.len() && (#[trigger] s[m]).reference == parent;
            lemma_parent_before(s, i, m);
            if !committed.contains(parent) {
                assert(s[i].includes.contains(s[m].reference));
                assert(linked_at(s, from, committed, m));
                assert(references_of(lb).contains(s[m].reference));
            }
        }
    }
}

/// Where the committed blocks come with all their ancestors at the start,
/// they do after any number of leaders was handled.
pub proof fn lemma_closed_after(
    s: Seq<BlockView>,
    committed: Set<BlockReference>,
    leaders: Seq<BlockReference>,
)
    requires
        store_wf(s),
        ancestor_closed(s, committed),
    ensures
        ancestor_closed(s, committed_after(s, committed, leaders)),
    decreases leaders.len(),
{
    if leaders.len() > 0 {
        lemma_closed_after(s, committed, leaders.drop_last());
        lemma_closed_step(s, committed_after(s, committed, leaders.drop_last()), leaders.last());
    }
}

/// Causal completeness, first half: every block of a sub-DAG is the
/// anchor of the sub-DAG or one of its ancestors.
pub proof fn lemma_sub_dag_descends(
    s: Seq<BlockView>,
    committed: Set<BlockReference>,
    leaders: Seq<BlockReference>,
    a: int,
    x: int,
)
    requires
        0 <= a < leaders.len(),
        0 <= x < interpret(s, committed, leaders)[a].blocks.len(),
    ensures
        exists|i: int, j: int|
            #[trigger] descends(s, i, j) && s[i] == interpret(s, committed, leaders)[a].blocks[x]
                && s[j].reference == interpret(s, committed, leaders)[a].anchor,
{
    lemma_sub_dag_at(s, committed, leaders, a);
    let stop = committed_after(s, committed, leaders.take(a));
    let lb = linked_blocks(s, leaders[a], stop);
    lemma_linked_blocks(s, leaders[a], stop);
    assert(listed(s, leaders[a], stop, s.len() as int, lb[x]));
    let i = choose|i: int|
        0 <= i < s.len() && linked_at(s, leaders[a], stop, i) && #[trigger] s[i] == lb[x];
    lemma_linked_descends(s, leaders[a], stop, i);
    let j = choose|j: int|
        0 <= j < s.len() && (#[trigger] s[j]).reference == leaders[a] && descends(s, i, j);
    assert(descends(s, i, j));
}

/// Causal completeness, second half: once a leader was handled, the
/// leader and all its ancestors are committed. Those that were not committed
/// before are in the leader's sub-DAG.
pub proof fn lemma_ancestors_committed(
    s: Seq<BlockView>,
    committed: Set<BlockReference>,
    leaders: Seq<BlockReference>,
    a: int,
    i: int,
    j: int,
)
    requires
        store_wf(s),
        ancestor_closed(s, committed),
        0 <= a < leaders.len(),
        descends(s, i, j),
        s[j].reference == leaders[a],
    ensures
        committed_after(s, committed, leaders.take(a + 1)).contains(s[i].reference),
        !committed_after(s, committed, leaders.take(a)).contains(s[i].reference) ==> references_of(
            interpret(s, committed, leaders)[a].blocks,
        ).contains(s[i].reference),
{
    lemma_sub_dag_at(s, committed, leaders, a);
    let stop = committed_after(s, committed, leaders.take(a));
    lemma_closed_after(s, committed, leaders.take(a));
    lemma_linked_blocks(s, leaders[a], stop);
    if !stop.contains(s[i].reference) {
        lemma_descends_linked(s, leaders[a], stop, i, j);
    }
}

/// Exactly once: no block stands twice in the sub-DAGs, and none of them
/// was committed before.
pub proof fn lemma_committed_once(
    s: Seq<BlockView>,
    committed: Set<BlockReference>,
    leaders: Seq<BlockReference>,
    a: int,
    b: int,
    x: int,
    y: int,
)
    requires
        store_sorted(s),
        0 <= a <= b < leaders.len(),
        0 <= x < interpret(s, committed, leaders)[a].blocks.len(),
        0 <= y < interpret(s, committed, leaders)[b].blocks.len(),
        a != b || x != y,
    ensures
        interpret(s, committed, leaders)[a].blocks[x].reference != interpret(
            s,
            committed,
            leaders,
        )[b].blocks[y].reference,
        !committed.contains(interpret(s, committed, leaders)[a].blocks[x].reference),
{
    lemma_sub_dag_at(s, committed, leaders, a);
    lemma_sub_dag_at(s, committed, leaders, b);
    let stop_a = committed_after(s, committed, leaders.take(a));
    let stop_b = committed_after(s, committed, leaders.take(b));
    let la = linked_blocks(s, leaders[a], stop_a);
    let lb = linked_blocks(s, leaders[b], stop_b);
    lemma_linked_blocks(s, leaders[a], stop_a);
    lemma_linked_blocks(s, leaders[b], stop_b);
    lemma_committed_grows(s, committed, leaders, 0, a);
    assert(leaders.take(0) =~= Seq::<BlockReference>::empty());
    assert(!stop_a.contains(la[x].reference));
    if a == b {
        lemma_linked_prefix(s, leaders[a], stop_a, s.len() as int);
        if x < y {
            assert(crate::types::reference_lt(la[x].reference, la[y].reference));
        } else {
            assert(crate::types::reference_lt(la[y].reference, la[x].reference));
        }
    } else {
        lemma_committed_grows(s, committed, leaders, a + 1, b);
        assert(references_of(la).contains(la[x].reference));
        assert(stop_b.contains(la[x].reference));
        assert(!stop_b.contains(lb[y].reference));
    }
}

} // verus!
