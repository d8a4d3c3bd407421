//! Storage of the block DAG, with the queries the other components need.
//!
//! Blocks are kept ordered by round, then author, then digest. A block can
//! only be added after its parents, so every parent of a stored block is
//! stored too, at an earlier position.

use crate::types::{
    block_views, reference_lt, AuthorityIndex, BlockReference, BlockView, RoundNumber,
    StatementBlock,
};
use vstd::prelude::*;

verus! {

/// Why a block was not added to the store.
#[derive(Clone, Copy, Debug, PartialEq, Eq, Structural)]
pub enum StoreError {
    /// A block with this reference is stored already.
    DuplicateBlock,
    /// A parent of the block is not stored.
    UnknownParent,
}

/// Whether a block with reference `r` is among `s`.
pub open spec fn store_contains(s: Seq<BlockView>, r: BlockReference) -> bool {
    exists|i: int| 0 <= i < s.len() && (#[trigger] s[i]).reference == r
}

/// The blocks come in strictly increasing order of their references.
pub open spec fn store_sorted(s: Seq<BlockView>) -> bool {
    forall|i: int, j: int|
        0 <= i < j < s.len() ==> reference_lt((#[trigger] s[i]).reference, (#[trigger] s[j]).reference)
}

/// Every parent of a stored block is stored.
pub open spec fn store_closed(s: Seq<BlockView>) -> bool {
    forall|i: int, k: int|
        0 <= i < s.len() && 0 <= k < s[i].includes.len() ==> store_contains(
            s,
            #[trigger] s[i].includes[k],
        )
}

/// Every stored block lies in a later round than its parents.
pub open spec fn store_valid(s: Seq<BlockView>) -> bool {
    forall|i: int| 0 <= i < s.len() ==> (#[trigger] s[i]).valid()
}

/// The invariant of a store's contents.
pub open spec fn store_wf(s: Seq<BlockView>) -> bool {
    store_sorted(s) && store_closed(s) && store_valid(s)
}

/// Whether every parent of `b` is among `s`.
pub open spec fn parents_known(s: Seq<BlockView>, b: BlockView) -> bool {
    forall|k: int| 0 <= k < b.includes.len() ==> store_contains(s, #[trigger] b.includes[k])
}

/// `after` is `before` with `b` put in at position `p`, where everything
/// earlier has a smaller reference and everything later a greater one.
pub open spec fn inserted_at(before: Seq<BlockView>, after: Seq<BlockView>, b: BlockView, p: int) -> bool {
    &&& 0 <= p <= before.len()
    &&& forall|k: int| 0 <= k < p ==> reference_lt((#[trigger] before[k]).reference, b.reference)
    &&& forall|k: int|
        p <= k < before.len() ==> reference_lt(b.reference, (#[trigger] before[k]).reference)
    &&& after == before.insert(p, b)
}

/// `after` is `before` with `b` put in at its place in the order.
pub open spec fn inserted(before: Seq<BlockView>, after: Seq<BlockView>, b: BlockView) -> bool {
    exists|p: int| inserted_at(before, after, b, p)
}

/// Whether the block at position `i` is reached from the block `from` along
/// parent links, on a way that touches no block of `stop`: it is not in `stop`,
/// and it is `from` itself or a parent of a later block that is reached.
pub open spec fn linked_at(
    s: Seq<BlockView>,
    from: BlockReference,
    stop: Set<BlockReference>,
    i: int,
) -> bool
    decreases s.len() - i,
{
    &&& 0 <= i < s.len()
    &&& !stop.contains(s[i].reference)
    &&& (s[i].reference == from || exists|j: int|
        i < j < s.len() && (#[trigger] s[j]).includes.contains(s[i].reference) && linked_at(
            s,
            from,
            stop,
            j,
        ))
}

/// The reached blocks among the first `n`, in the order of the store.
pub open spec fn linked_prefix(
    s: Seq<BlockView>,
    from: BlockReference,
    stop: Set<BlockReference>,
    n: int,
) -> Seq<BlockView>
    decreases n,
{
    if n <= 0 {
        Seq::empty()
    } else {
        let rest = linked_prefix(s, from, stop, n - 1);
        if linked_at(s, from, stop, n - 1) {
            rest.push(s[n - 1])
        } else {
            rest
        }
    }
}

/// All blocks reached from `from` without touching `stop`, by round, then
/// author, then digest.
pub open spec fn linked_blocks(
    s: Seq<BlockView>,
    from: BlockReference,
    stop: Set<BlockReference>,
) -> Seq<BlockView> {
    linked_prefix(s, from, stop, s.len() as int)
}

/// Whether the block at position `i` is the block at position `j` or one of
/// its ancestors: `j` is reached from `i` by going from a block to one that
/// names it as a parent, any number of times.
pub open spec fn descends(s: Seq<BlockView>, i: int, j: int) -> bool
    decreases j - i,
{
    &&& 0 <= i <= j < s.len()
    &&& (i == j || exists|k: int|
        i < k <= j && (#[trigger] s[k]).includes.contains(s[i].reference) && descends(s, k, j))
}

/// In a store that is in order, every parent of a block stands before it.
pub proof fn lemma_parent_before(s: Seq<BlockView>, i: int, m: int)
    requires
        store_wf(s),
        0 <= i < s.len(),
        0 <= m < s.len(),
        s[i].includes.contains(s[m].reference),
    ensures
        m < i,
{
    let k = choose|k: int| 0 <= k < s[i].includes.len() && s[i].includes[k] == s[m].reference;
    assert(s[i].valid());
    assert(s[i].includes[k].round < s[i].reference.round);
    if m > i {
        assert(reference_lt(s[i].reference, s[m].reference));
    }
}

/// Every block that is reached from `from` is `from` itself or one of its ancestors.
pub proof fn lemma_linked_descends(s: Seq<BlockView>, from: BlockReference, stop: Set<BlockReference>, i: int)
    requires
        linked_at(s, from, stop, i),
    ensures
        exists|j: int| 0 <= j < s.len() && (#[trigger] s[j]).reference == from && descends(s, i, j),
    decreases s.len() - i,
{
    if s[i].reference == from {
        assert(descends(s, i, i));
    } else {
        let c = choose|c: int|
            i < c < s.len() && (#[trigger] s[c]).includes.contains(s[i].reference) && linked_at(
                s,
                from,
                stop,
                c,
            );
        lemma_linked_descends(s, from, stop, c);
        let j = choose|j: int| 0 <= j < s.len() && (#[trigger] s[j]).reference == from && descends(s, c, j);
        assert(descends(s, i, j));
    }
}

/// Whether `committed` holds, with each stored block, the parents of that block.
pub open spec fn ancestor_closed(s: Seq<BlockView>, committed: Set<BlockReference>) -> bool {
    forall|i: int, k: int|
        0 <= i < s.len() && committed.contains((#[trigger] s[i]).reference) && 0 <= k
            < s[i].includes.len() ==> committed.contains(#[trigger] s[i].includes[k])
}

/// Where the blocks of `stop` come with all their ancestors, every ancestor
/// of `from` outside `stop` is reached from `from`.
pub proof fn lemma_descends_linked(
    s: Seq<BlockView>,
    from: BlockReference,
    stop: Set<BlockReference>,
    i: int,
    j: int,
)
    requires
        ancestor_closed(s, stop),
        descends(s, i, j),
        s[j].reference == from,
        !stop.contains(s[i].reference),
    ensures
        linked_at(s, from, stop, i),
    decreases j - i,
{
    if i != j {
        let k = choose|k: int|
            i < k <= j && (#[trigger] s[k]).includes.contains(s[i].reference) && descends(s, k, j);
        let p = choose|p: int| 0 <= p < s[k].includes.len() && s[k].includes[p] == s[i].reference;
        if stop.contains(s[k].reference) {
            assert(stop.contains(s[k].includes[p]));
        }
        lemma_descends_linked(s, from, stop, k, j);
    }
}

/// Whether `b` is the block at a position below `n` that is reached from `from`.
pub open spec fn listed(
    s: Seq<BlockView>,
    from: BlockReference,
    stop: Set<BlockReference>,
    n: int,
    b: BlockView,
) -> bool {
    exists|k: int| 0 <= k < n && linked_at(s, from, stop, k) && #[trigger] s[k] == b
}

/// The blocks listed as reached among the first `n` are those at the
/// positions below `n` that are reached; in a sorted store they come in
/// strictly increasing order of round, then author, then digest.
pub proof fn lemma_linked_prefix(
    s: Seq<BlockView>,
    from: BlockReference,
    stop: Set<BlockReference>,
    n: int,
)
    requires
        0 <= n <= s.len(),
    ensures
        forall|k: int|
            0 <= k < n && linked_at(s, from, stop, k) ==> linked_prefix(s, from, stop, n).contains(
                #[trigger] s[k],
            ),
        forall|x: int|
            0 <= x < linked_prefix(s, from, stop, n).len() ==> listed(
                s,
                from,
                stop,
                n,
                #[trigger] linked_prefix(s, from, stop, n)[x],
            ),
        store_sorted(s) ==> forall|x: int, y: int|
            0 <= x < y < linked_prefix(s, from, stop, n).len() ==> reference_lt(
                (#[trigger] linked_prefix(s, from, stop, n)[x]).reference,
                (#[trigger] linked_prefix(s, from, stop, n)[y]).reference,
            ),
    decreases n,
{
    if n > 0 {
        lemma_linked_prefix(s, from, stop, n - 1);
        let before = linked_prefix(s, from, stop, n - 1);
        let all = linked_prefix(s, from, stop, n);
        assert forall|k: int| 0 <= k < n && linked_at(s, from, stop, k) implies all.contains(
            #[trigger] s[k],
        ) by {
            if k < n - 1 {
                let x = choose|x: int| 0 <= x < before.len() && before[x] == s[k];
                assert(all[x] == s[k]);
            } else {
                assert(all[all.len() - 1] == s[k]);
            }
        }
        assert forall|x: int| 0 <= x < all.len() implies listed(s, from, stop, n, #[trigger] all[x]) by {
            if x < before.len() {
                assert(all[x] == before[x]);
                assert(listed(s, from, stop, n - 1, before[x]));
                let k = choose|k: int|
                    0 <= k < n - 1 && linked_at(s, from, stop, k) && #[trigger] s[k] == before[x];
                assert(s[k] == all[x]);
            } else {
                assert(s[n - 1] == all[x]);
            }
        }
        if store_sorted(s) {
            assert forall|x: int, y: int| 0 <= x < y < all.len() implies reference_lt(
                (#[trigger] all[x]).reference,
                (#[trigger] all[y]).reference,
            ) by {
                assert(all[x] == before[x]);
                if y < before.len() {
                    assert(all[y] == before[y]);
                } else {
                    assert(listed(s, from, stop, n - 1, before[x]));
                    let k = choose|k: int|
                        0 <= k < n - 1 && linked_at(s, from, stop, k) && #[trigger] s[k] == before[x];
                    assert(all[y] == s[n - 1]);
                    assert(reference_lt(s[k].reference, s[n - 1].reference));
                }
            }
        }
    }
}

/// The highest round in which `authority` has a block among `s`; 0 if it has none.
pub open spec fn is_highest_round(s: Seq<BlockView>, authority: AuthorityIndex, r: RoundNumber) -> bool {
    &&& forall|i: int|
        0 <= i < s.len() && (#[trigger] s[i]).reference.authority == authority
            ==> s[i].reference.round <= r
    &&& (r == 0 || exists|i: int|
        0 <= i < s.len() && (#[trigger] s[i]).reference.authority == authority
            && s[i].reference.round == r)
}

/// The highest round of any block among `s`; 0 if there is none.
pub open spec fn top_round(s: Seq<BlockView>) -> RoundNumber
    decreases s.len(),
{
    if s.len() == 0 {
        0
    } else {
        let before = top_round(s.drop_last());
        if s.last().reference.round > before {
            s.last().reference.round
        } else {
            before
        }
    }
}

/// No block lies in a round above the highest.
pub proof fn lemma_top_round(s: Seq<BlockView>, i: int)
    requires
        0 <= i < s.len(),
    ensures
        s[i].reference.round <= top_round(s),
    decreases s.len(),
{
    if i < s.len() - 1 {
        lemma_top_round(s.drop_last(), i);
    }
}

/// The blocks received so far.
pub struct BlockStore {
    blocks: Vec<StatementBlock>,
}

impl View for BlockStore {
    type V = Seq<BlockView>;

    closed spec fn view(&self) -> Seq<BlockView> {
        block_views(self.blocks@)
    }
}

pub(crate) fn reference_in(list: &Vec<BlockReference>, r: &BlockReference) -> (found: bool)
    ensures
        found == list@.contains(*r),
{
    let mut i: usize = 0;
    while i < list.len()
        invariant
            i <= list.len(),
            forall|k: int| 0 <= k < i ==> list@[k] != *r,
        decreases list.len() - i,
    {
        if list[i] == *r {
            return true;
        }
        i += 1;
    }
    false
}

impl BlockStore {
    /// The invariant of the store: see [`store_wf`].
    pub open spec fn wf(&self) -> bool {
        store_wf(self@)
    }

    /// An empty store.
    pub fn new() -> (r: Self)
        ensures
            r.wf(),
            r@ == Seq::<BlockView>::empty(),
    {
        let r = BlockStore { blocks: Vec::new() };
        assert(r@ =~= Seq::<BlockView>::empty());
        r
    }

    /// Number of stored blocks.
    pub fn len(&self) -> (r: usize)
        ensures
            r == self@.len(),
    {
        self.blocks.len()
    }

    /// The block at position `i` in the order of the store.
    pub fn block_at(&self, i: usize) -> (r: &StatementBlock)
        requires
            i < self@.len(),
        ensures
            r@ == self@[i as int],
    {
        &self.blocks[i]
    }

    /// The position of the block with reference `r`, if it is stored.
    pub fn position(&self, r: &BlockReference) -> (p: Option<usize>)
        ensures
            match p {
                Some(i) => i < self@.len() && self@[i as int].reference == *r,
                None => !store_contains(self@, *r),
            },
    {
        let mut i: usize = 0;
        while i < self.blocks.len()
            invariant
                i <= self.blocks.len(),
                forall|k: int| 0 <= k < i ==> (#[trigger] self@[k]).reference != *r,
            decreases self.blocks.len() - i,
        {
            if self.blocks[i].reference() == *r {
                return Some(i);
            }
            i += 1;
        }
        None
    }

    /// Whether a block with reference `r` is stored.
    pub fn contains(&self, r: &BlockReference) -> (found: bool)
        ensures
            found == store_contains(self@, *r),
    {
        self.position(r).is_some()
    }

    /// The block with reference `r`, if it is stored.
    pub fn get(&self, r: &BlockReference) -> (b: Option<&StatementBlock>)
        ensures
            b is Some == store_contains(self@, *r),
            b matches Some(block) ==> block@.reference == *r && self@.contains(block@),
    {
        match self.position(r) {
            Some(i) => Some(&self.blocks[i]),
            None => None,
        }
    }

    fn knows_parents(&self, block: &StatementBlock) -> (r: bool)
        ensures
            r == parents_known(self@, block@),
    {
        let includes = block.includes();
        let mut k: usize = 0;
        while k < includes.len()
            invariant
                k <= includes.len(),
                includes@ == block@.includes,
                forall|j: int| 0 <= j < k ==> store_contains(self@, #[trigger] includes@[j]),
            decreases includes.len() - k,
        {
            if !self.contains(&includes[k]) {
                return false;
            }
            k += 1;
        }
        true
    }

    /// Adds a block whose parents are stored. Nothing changes when the block
    /// is refused.
    pub fn insert(&mut self, block: StatementBlock) -> (r: Result<(), StoreError>)
        requires
            old(self).wf(),
            block@.valid(),
        ensures
            final(self).wf(),
            forall|x: BlockReference|
                store_contains(old(self)@, x) ==> #[trigger] store_contains(final(self)@, x),
            match r {
                Ok(()) => !store_contains(old(self)@, block@.reference) && parents_known(
                    old(self)@,
                    block@,
                ) && inserted(old(self)@, final(self)@, block@),
                Err(StoreError::DuplicateBlock) => store_contains(old(self)@, block@.reference)
                    && final(self)@ == old(self)@,
                Err(StoreError::UnknownParent) => !store_contains(old(self)@, block@.reference)
                    && !parents_known(old(self)@, block@) && final(self)@ == old(self)@,
            },
    {
        let reference = block.reference();
        if self.contains(&reference) {
            return Err(StoreError::DuplicateBlock);
        }
        if !self.knows_parents(&block) {
            return Err(StoreError::UnknownParent);
        }
        let ghost before = self@;
        let ghost b = block@;
        let mut p: usize = 0;
        while p < self.blocks.len() && self.blocks[p].reference().precedes(&reference)
            invariant
                p <= self.blocks.len(),
                self@ == before,
                forall|k: int| 0 <= k < p ==> reference_lt((#[trigger] before[k]).reference, reference),
            decreases self.blocks.len() - p,
        {
            p += 1;
        }
        proof {
            assert forall|k: int| p <= k < before.len() implies reference_lt(
                reference,
                (#[trigger] before[k]).reference,
            ) by {
                assert(before[k].reference != reference);
                if k > p {
                    assert(reference_lt(before[p as int].reference, before[k].reference));
                }
                assert(!reference_lt(before[p as int].reference, reference));
            }
        }
        self.blocks.insert(p, block);
        proof {
            let after = self@;
            assert(after =~= before.insert(p as int, b));
            assert forall|x: BlockReference| store_contains(before, x) implies #[trigger] store_contains(
                after,
                x,
            ) by {
                let w = choose|w: int| 0 <= w < before.len() && (#[trigger] before[w]).reference == x;
                if w < p {
                    assert(after[w].reference == x);
                } else {
                    assert(after[w + 1].reference == x);
                }
            }
            assert(inserted_at(before, after, b, p as int));
            assert forall|i: int, k: int|
                0 <= i < after.len() && 0 <= k < after[i].includes.len() implies store_contains(
                after,
                #[trigger] after[i].includes[k],
            ) by {
                let parent = after[i].includes[k];
                if i == p {
                    assert(store_contains(before, b.includes[k]));
                } else if i < p {
                    assert(store_contains(before, before[i].includes[k]));
                } else {
                    assert(store_contains(before, before[i - 1].includes[k]));
                }
                let w = choose|w: int| 0 <= w < before.len() && (#[trigger] before[w]).reference == parent;
                if w < p {
                    assert(after[w].reference == parent);
                } else {
                    assert(after[w + 1].reference == parent);
                }
            }
        }
        Ok(())
    }

    /// The highest round in which `authority` has a stored block; 0 if it has none.
    pub fn highest_round(&self, authority: AuthorityIndex) -> (r: RoundNumber)
        ensures
            is_highest_round(self@, authority, r),
    {
        let mut best: RoundNumber = 0;
        let mut i: usize = 0;
        while i < self.blocks.len()
            invariant
                i <= self.blocks.len(),
                forall|k: int|
                    0 <= k < i && (#[trigger] self@[k]).reference.authority == authority
                        ==> self@[k].reference.round <= best,
                best == 0 || exists|k: int|
                    0 <= k < i && (#[trigger] self@[k]).reference.authority == authority
                        && self@[k].reference.round == best,
            decreases self.blocks.len() - i,
        {
            if self.blocks[i].author() == authority && self.blocks[i].round() > best {
                best = self.blocks[i].round();
                assert(self@[i as int].reference.authority == authority && self@[i as int].reference.round
                    == best);
            } else if best != 0 {
                let ghost w = choose|k: int|
                    0 <= k < i && (#[trigger] self@[k]).reference.authority == authority
                        && self@[k].reference.round == best;
                assert(self@[w].reference.round == best);
            }
            i += 1;
        }
        best
    }

    /// The highest round of any stored block; 0 for an empty store.
    pub fn highest_round_overall(&self) -> (r: RoundNumber)
        ensures
            r == top_round(self@),
    {
        let mut best: RoundNumber = 0;
        let mut i: usize = 0;
        while i < self.blocks.len()
            invariant
                i <= self.blocks.len(),
                best == top_round(self@.take(i as int)),
            decreases self.blocks.len() - i,
        {
            proof {
                assert(self@.take(i as int + 1).drop_last() == self@.take(i as int));
                assert(self@.take(i as int + 1).last() == self@[i as int]);
            }
            if self.blocks[i].round() > best {
                best = self.blocks[i].round();
            }
            i += 1;
        }
        proof {
            assert(self@.take(i as int) == self@);
        }
        best
    }

    /// For each position of the store, whether its block is reached from
    /// `from` along parent links without touching a block of `stop_at`.
    pub fn linked_flags(&self, from: BlockReference, stop_at: &Vec<BlockReference>) -> (flags: Vec<bool>)
        ensures
            flags@.len() == self@.len(),
            forall|k: int|
                0 <= k < self@.len() ==> flags@[k] == linked_at(self@, from, stop_at@.to_set(), k),
    {
        let n = self.blocks.len();
        let ghost s = self@;
        let ghost stop = stop_at@.to_set();
        let mut flags: Vec<bool> = Vec::new();
        let mut f: usize = 0;
        while f < n
            invariant
                f <= n,
                flags@.len() == f,
            decreases n - f,
        {
            flags.push(false);
            f += 1;
        }
        let mut i: usize = n;
        while i > 0
            invariant
                i <= n,
                n == self.blocks.len(),
                s == self@,
                stop == stop_at@.to_set(),
                flags@.len() == n,
                forall|k: int| i <= k < n ==> flags@[k] == linked_at(s, from, stop, k),
            decreases i,
        {
            i -= 1;
            let reference = self.blocks[i].reference();
            let mut reached = false;
            if !reference_in(stop_at, &reference) {
                if reference == from {
                    reached = true;
                } else {
                    let mut j: usize = i + 1;
                    while j < n && !reached
                        invariant
                            i < j <= n,
                            n == self.blocks.len(),
                            s == self@,
                            flags@.len() == n,
                            reference == s[i as int].reference,
                            forall|k: int| i < k < n ==> flags@[k] == linked_at(s, from, stop, k),
                            reached ==> exists|k: int|
                                i < k < n && (#[trigger] s[k]).includes.contains(reference)
                                    && linked_at(s, from, stop, k),
                            !reached ==> forall|k: int|
                                i < k < j ==> !((#[trigger] s[k]).includes.contains(reference)
                                    && linked_at(s, from, stop, k)),
                        decreases n - j + (if reached { 0int } else { 1int }),
                    {
                        if flags[j] && self.blocks[j].includes_reference(&reference) {
                            reached = true;
                        } else {
                            j += 1;
                        }
                    }
                }
            }
            proof {
                assert(stop.contains(reference) == stop_at@.contains(reference));
                assert(reached == linked_at(s, from, stop, i as int));
            }
            flags.set(i, reached);
        }
        flags
    }

    /// The blocks reached from `from` along parent links without touching a
    /// block of `stop_at`, ordered by round, then author, then digest.
    pub fn linked_ancestors(&self, from: BlockReference, stop_at: &Vec<BlockReference>) -> (r: Vec<
        StatementBlock,
    >)
        ensures
            block_views(r@) == linked_blocks(self@, from, stop_at@.to_set()),
    {
        let n = self.blocks.len();
        let ghost s = self@;
        let ghost stop = stop_at@.to_set();
        let flags = self.linked_flags(from, stop_at);
        let mut out: Vec<StatementBlock> = Vec::new();
        let mut k: usize = 0;
        while k < n
            invariant
                k <= n,
                n == self.blocks.len(),
                s == self@,
                flags@.len() == n,
                forall|m: int| 0 <= m < n ==> flags@[m] == linked_at(s, from, stop, m),
                block_views(out@) == linked_prefix(s, from, stop, k as int),
            decreases n - k,
        {
            let ghost prior = out@;
            if flags[k] {
                out.push(self.blocks[k].duplicate());
                proof {
                    assert(out@ == prior.push(out@.last()));
                    assert(block_views(out@) =~= block_views(prior).push(s[k as int]));
                }
            }
            k += 1;
        }
        out
    }
}

} // verus!
