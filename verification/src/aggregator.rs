//! Certification of transactions: per transaction, the authorities that have
//! echoed it, and whether a quorum of them has been reached.

use crate::codec::{
    encode_record, encode_records, encode_state, encode_votes, lemma_encode_records_push,
    lemma_encode_votes_push, parse_records, parse_state, read_record, read_u64, write_u64,
    StateError,
};
use crate::committee::{quorum_of, Committee};
use crate::types::{
    statement_ids, statement_views, AuthorityIndex, BaseStatement, StatementBlock, StatementView,
    TransactionId,
};
use vstd::bytes::spec_u64_to_le_bytes;
use vstd::prelude::*;

verus! {

/// What the aggregator knows of one transaction, as plain values.
pub struct VoteRecord {
    pub id: TransactionId,
    /// The authorities that have echoed the transaction, in the order they came.
    pub votes: Seq<AuthorityIndex>,
    /// Whether a quorum was reached at some point.
    pub certified: bool,
}

/// No transaction has two records, and no authority votes twice for one transaction.
pub open spec fn records_wf(s: Seq<VoteRecord>) -> bool {
    &&& forall|i: int, j: int|
        0 <= i < j < s.len() ==> (#[trigger] s[i]).id != (#[trigger] s[j]).id
    &&& forall|i: int| 0 <= i < s.len() ==> (#[trigger] s[i]).votes.no_duplicates()
}

/// Whether `id` has a record.
pub open spec fn has_record(s: Seq<VoteRecord>, id: TransactionId) -> bool {
    exists|i: int| 0 <= i < s.len() && (#[trigger] s[i]).id == id
}

/// Whether `id` has been certified.
pub open spec fn is_certified(s: Seq<VoteRecord>, id: TransactionId) -> bool {
    exists|i: int| 0 <= i < s.len() && (#[trigger] s[i]).id == id && s[i].certified
}

/// Whether `authority` has echoed `id`.
pub open spec fn has_voted(s: Seq<VoteRecord>, id: TransactionId, authority: AuthorityIndex) -> bool {
    exists|i: int| 0 <= i < s.len() && (#[trigger] s[i]).id == id && s[i].votes.contains(authority)
}

/// A record after `authority` has echoed it: the vote is added unless it was
/// there, and the record is certified once `quorum` votes are in.
pub open spec fn with_vote(e: VoteRecord, authority: AuthorityIndex, quorum: nat) -> VoteRecord {
    let votes = if e.votes.contains(authority) {
        e.votes
    } else {
        e.votes.push(authority)
    };
    VoteRecord { id: e.id, votes, certified: e.certified || votes.len() >= quorum }
}

/// The records after `authority` has echoed `id`: the record of `id` takes the
/// vote, or a new record is added at the end.
pub open spec fn add_vote(
    s: Seq<VoteRecord>,
    id: TransactionId,
    authority: AuthorityIndex,
    quorum: nat,
) -> Seq<VoteRecord> {
    if has_record(s, id) {
        Seq::new(
            s.len(),
            |i: int|
                if s[i].id == id {
                    with_vote(s[i], authority, quorum)
                } else {
                    s[i]
                },
        )
    } else {
        s.push(with_vote(VoteRecord { id, votes: Seq::empty(), certified: false }, authority, quorum))
    }
}

/// The records after a vote in a committee of `size` members. A vote by an
/// authority outside the committee is not counted.
pub open spec fn cast_vote(
    s: Seq<VoteRecord>,
    id: TransactionId,
    authority: AuthorityIndex,
    size: u64,
) -> Seq<VoteRecord> {
    if authority < size {
        add_vote(s, id, authority, quorum_of(size as nat))
    } else {
        s
    }
}

/// Whether this vote is the one that certifies `id`.
pub open spec fn certifies(
    s: Seq<VoteRecord>,
    id: TransactionId,
    authority: AuthorityIndex,
    size: u64,
) -> bool {
    !is_certified(s, id) && is_certified(cast_vote(s, id, authority, size), id)
}

/// The records after `authority` has echoed each of `ids`, in order.
pub open spec fn process_votes(
    s: Seq<VoteRecord>,
    ids: Seq<TransactionId>,
    authority: AuthorityIndex,
    size: u64,
) -> Seq<VoteRecord>
    decreases ids.len(),
{
    if ids.len() == 0 {
        s
    } else {
        cast_vote(process_votes(s, ids.drop_last(), authority, size), ids.last(), authority, size)
    }
}

/// The positions in `ids` at which a transaction becomes certified while
/// `authority` echoes each of `ids` in order.
pub open spec fn certified_positions(
    s: Seq<VoteRecord>,
    ids: Seq<TransactionId>,
    authority: AuthorityIndex,
    size: u64,
) -> Seq<int>
    decreases ids.len(),
{
    if ids.len() == 0 {
        Seq::empty()
    } else {
        let before = certified_positions(s, ids.drop_last(), authority, size);
        if certifies(
            process_votes(s, ids.drop_last(), authority, size),
            ids.last(),
            authority,
            size,
        ) {
            before.push(ids.len() - 1)
        } else {
            before
        }
    }
}

/// The transactions that become certified while `authority` echoes each of `ids` in order.
pub open spec fn certified_ids(
    s: Seq<VoteRecord>,
    ids: Seq<TransactionId>,
    authority: AuthorityIndex,
    size: u64,
) -> Seq<TransactionId> {
    certified_positions(s, ids, authority, size).map_values(|p: int| ids[p])
}

/// The statements of `statements` whose transactions become certified while
/// `authority` echoes all of them in order.
pub open spec fn certified_statements(
    s: Seq<VoteRecord>,
    statements: Seq<StatementView>,
    authority: AuthorityIndex,
    size: u64,
) -> Seq<StatementView> {
    certified_positions(s, statement_ids(statements), authority, size).map_values(
        |p: int| statements[p],
    )
}

/// A certified transaction stays certified when a vote is counted.
pub proof fn lemma_vote_keeps_certified(
    s: Seq<VoteRecord>,
    voted: TransactionId,
    authority: AuthorityIndex,
    size: u64,
    id: TransactionId,
)
    requires
        is_certified(s, id),
    ensures
        is_certified(cast_vote(s, voted, authority, size), id),
{
    let i = choose|i: int| 0 <= i < s.len() && (#[trigger] s[i]).id == id && s[i].certified;
    let after = cast_vote(s, voted, authority, size);
    assert(after[i].id == id && after[i].certified);
}

/// Certification is monotone: a certified transaction stays certified
/// whatever is echoed afterwards.
pub proof fn lemma_votes_keep_certified(
    s: Seq<VoteRecord>,
    ids: Seq<TransactionId>,
    authority: AuthorityIndex,
    size: u64,
    id: TransactionId,
)
    requires
        is_certified(s, id),
    ensures
        is_certified(process_votes(s, ids, authority, size), id),
    decreases ids.len(),
{
    if ids.len() > 0 {
        lemma_votes_keep_certified(s, ids.drop_last(), authority, size, id);
        lemma_vote_keeps_certified(
            process_votes(s, ids.drop_last(), authority, size),
            ids.last(),
            authority,
            size,
            id,
        );
    }
}

/// A transaction is reported as newly certified at most once while the
/// statements of a block are processed: the positions reported are those of
/// different transactions.
pub proof fn lemma_certified_once(
    s: Seq<VoteRecord>,
    ids: Seq<TransactionId>,
    authority: AuthorityIndex,
    size: u64,
)
    ensures
        forall|a: int, b: int|
            0 <= a < b < certified_positions(s, ids, authority, size).len() ==> ids[certified_positions(
                s,
                ids,
                authority,
                size,
            )[a]] != ids[certified_positions(s, ids, authority, size)[b]],
        forall|a: int|
            0 <= a < certified_positions(s, ids, authority, size).len() ==> {
                let p = #[trigger] certified_positions(s, ids, authority, size)[a];
                0 <= p < ids.len() && !is_certified(s, ids[p]) && is_certified(
                    process_votes(s, ids, authority, size),
                    ids[p],
                )
            },
    decreases ids.len(),
{
    if ids.len() > 0 {
        let front = ids.drop_last();
        let before = certified_positions(s, front, authority, size);
        let mid = process_votes(s, front, authority, size);
        let all = certified_positions(s, ids, authority, size);
        lemma_certified_once(s, front, authority, size);
        assert forall|a: int| 0 <= a < all.len() implies {
            let p = #[trigger] all[a];
            0 <= p < ids.len() && !is_certified(s, ids[p]) && is_certified(
                process_votes(s, ids, authority, size),
                ids[p],
            )
        } by {
            let p = all[a];
            if a < before.len() {
                assert(p == before[a]);
                assert(front[p] == ids[p]);
                lemma_vote_keeps_certified(mid, ids.last(), authority, size, ids[p]);
            } else {
                assert(p == ids.len() - 1);
                if is_certified(s, ids[p]) {
                    lemma_votes_keep_certified(s, front, authority, size, ids[p]);
                }
            }
        }
        assert forall|a: int, b: int| 0 <= a < b < all.len() implies ids[all[a]] != ids[all[b]] by {
            if b < before.len() {
                assert(front[before[a]] == ids[all[a]]);
                assert(front[before[b]] == ids[all[b]]);
            } else {
                assert(all[b] == ids.len() - 1);
                assert(all[a] == before[a]);
                assert(front[before[a]] == ids[all[a]]);
                assert(is_certified(mid, front[before[a]]));
                assert(!is_certified(mid, ids.last()));
            }
        }
    }
}

pub(crate) struct VoteEntry {
    pub(crate) id: TransactionId,
    pub(crate) votes: Vec<AuthorityIndex>,
    pub(crate) certified: bool,
}

impl VoteEntry {
    pub(crate) open spec fn record(self) -> VoteRecord {
        VoteRecord { id: self.id, votes: self.votes@, certified: self.certified }
    }
}

/// Tracks, per transaction, which authorities have echoed it, and certifies a
/// transaction once a quorum of distinct authorities has.
pub struct TransactionAggregator {
    pub(crate) entries: Vec<VoteEntry>,
}

impl View for TransactionAggregator {
    type V = Seq<VoteRecord>;

    closed spec fn view(&self) -> Seq<VoteRecord> {
        self.entries@.map_values(|e: VoteEntry| e.record())
    }
}

fn has_vote(votes: &Vec<AuthorityIndex>, authority: AuthorityIndex) -> (r: bool)
    ensures
        r == votes@.contains(authority),
{
    let mut i: usize = 0;
    while i < votes.len()
        invariant
            i <= votes.len(),
            forall|k: int| 0 <= k < i ==> votes@[k] != authority,
        decreases votes.len() - i,
    {
        if votes[i] == authority {
            return true;
        }
        i += 1;
    }
    false
}

impl TransactionAggregator {
    /// The invariant of the aggregator: see [`records_wf`].
    pub open spec fn wf(&self) -> bool {
        records_wf(self@)
    }

    /// An aggregator that knows no transaction.
    pub fn new() -> (r: Self)
        ensures
            r.wf(),
            r@ == Seq::<VoteRecord>::empty(),
    {
        let r = TransactionAggregator { entries: Vec::new() };
        assert(r@ =~= Seq::<VoteRecord>::empty());
        r
    }

    /// Number of transactions that have a record.
    pub fn len(&self) -> (r: usize)
        ensures
            r == self@.len(),
    {
        self.entries.len()
    }

    pub(crate) fn find(&self, id: TransactionId) -> (r: Option<usize>)
        ensures
            match r {
                Some(i) => i < self@.len() && self@[i as int].id == id && forall|k: int|
                    0 <= k < i ==> (#[trigger] self@[k]).id != id,
                None => !has_record(self@, id),
            },
    {
        let mut i: usize = 0;
        while i < self.entries.len()
            invariant
                i <= self.entries.len(),
                forall|k: int| 0 <= k < i ==> (#[trigger] self@[k]).id != id,
            decreases self.entries.len() - i,
        {
            if self.entries[i].id == id {
                return Some(i);
            }
            i += 1;
        }
        None
    }

    /// Whether `id` has been certified.
    pub fn is_processed(&self, id: &TransactionId) -> (r: bool)
        requires
            self.wf(),
        ensures
            r == is_certified(self@, *id),
    {
        match self.find(*id) {
            Some(i) => self.entries[i].certified,
            None => false,
        }
    }

    /// Counts one echo of `id` by `authority`. Returns whether this echo
    /// certified the transaction.
    fn vote(&mut self, id: TransactionId, authority: AuthorityIndex, committee: &Committee) -> (newly:
        bool)
        requires
            old(self).wf(),
        ensures
            final(self).wf(),
            final(self)@ == cast_vote(old(self)@, id, authority, committee.len()),
            newly == certifies(old(self)@, id, authority, committee.len()),
    {
        if !committee.known_authority(authority) {
            return false;
        }
        let quorum = committee.quorum_threshold();
        let ghost before = self@;
        let ghost q = quorum_of(committee.len() as nat);
        match self.find(id) {
            Some(i) => {
                let was = self.entries[i].certified;
                if !has_vote(&self.entries[i].votes, authority) {
                    self.entries[i].votes.push(authority);
                }
                if self.entries[i].votes.len() as u64 >= quorum {
                    self.entries[i].certified = true;
                }
                let now = self.entries[i].certified;
                proof {
                    assert(before[i as int].id == id);
                    assert(self@[i as int] == with_vote(before[i as int], authority, q));
                    assert(self@ =~= add_vote(before, id, authority, q));
                    assert(records_wf(self@));
                    assert(is_certified(before, id) == was);
                    assert(is_certified(self@, id) == now);
                }
                !was && now
            },
            None => {
                let mut votes: Vec<AuthorityIndex> = Vec::new();
                votes.push(authority);
                let certified = 1 >= quorum;
                self.entries.push(VoteEntry { id, votes, certified });
                proof {
                    let fresh = VoteRecord { id, votes: Seq::empty(), certified: false };
                    assert(seq![authority] =~= Seq::<AuthorityIndex>::empty().push(authority));
                    assert(self@[before.len() as int] == with_vote(fresh, authority, q));
                    assert(self@ =~= add_vote(before, id, authority, q));
                    assert(records_wf(self@));
                    assert(!is_certified(before, id));
                    assert(is_certified(self@, id) == certified);
                }
                certified
            },
        }
    }

    /// Records the echo of authority `authority` for a transaction it originated.
    pub fn register(&mut self, id: TransactionId, authority: AuthorityIndex, committee: &Committee)
        requires
            old(self).wf(),
        ensures
            final(self).wf(),
            final(self)@ == cast_vote(old(self)@, id, authority, committee.len()),
            forall|t: TransactionId|
                is_certified(old(self)@, t) ==> #[trigger] is_certified(final(self)@, t),
    {
        let _ = self.vote(id, authority, committee);
        proof {
            assert forall|t: TransactionId| is_certified(old(self)@, t) implies #[trigger] is_certified(
                self@,
                t,
            ) by {
                lemma_vote_keeps_certified(old(self)@, id, authority, committee.len(), t);
            }
        }
    }

    /// Counts the author of `block` as echoing every transaction the block
    /// refers to. Returns the transactions that became certified by this
    /// block, in the order of the block's statements. Where a sink is given,
    /// the statements of those transactions are appended to it.
    pub fn process_block(
        &mut self,
        block: &StatementBlock,
        collect: Option<&mut Vec<BaseStatement>>,
        committee: &Committee,
    ) -> (r: Vec<TransactionId>)
        requires
            old(self).wf(),
        ensures
            final(self).wf(),
            final(self)@ == process_votes(
                old(self)@,
                statement_ids(block@.statements),
                block@.reference.authority,
                committee.len(),
            ),
            r@ == certified_ids(
                old(self)@,
                statement_ids(block@.statements),
                block@.reference.authority,
                committee.len(),
            ),
            match collect {
                Some(sink) => statement_views(final(sink)@) == statement_views(sink@)
                    + certified_statements(
                    old(self)@,
                    block@.statements,
                    block@.reference.authority,
                    committee.len(),
                ),
                None => true,
            },
            forall|t: TransactionId|
                is_certified(old(self)@, t) ==> #[trigger] is_certified(final(self)@, t),
    {
        proof {
            assert forall|t: TransactionId| is_certified(old(self)@, t) implies #[trigger] is_certified(
                process_votes(
                    old(self)@,
                    statement_ids(block@.statements),
                    block@.reference.authority,
                    committee.len(),
                ),
                t,
            ) by {
                lemma_votes_keep_certified(
                    old(self)@,
                    statement_ids(block@.statements),
                    block@.reference.authority,
                    committee.len(),
                    t,
                );
            }
        }
        let statements = block.statements();
        let author = block.author();
        let wanted = collect.is_some();
        let ghost before = self@;
        let ghost views = block@.statements;
        let ghost ids = statement_ids(views);
        let ghost size = committee.len();
        let mut certified: Vec<TransactionId> = Vec::new();
        let mut fresh: Vec<BaseStatement> = Vec::new();
        let mut i: usize = 0;
        while i < statements.len()
            invariant
                i <= statements.len(),
                statement_views(statements@) == views,
                ids == statement_ids(views),
                size == committee.len(),
                self.wf(),
                self@ == process_votes(before, ids.take(i as int), author, size),
                certified@ == certified_positions(before, ids.take(i as int), author, size).map_values(
                    |p: int| ids[p],
                ),
                wanted ==> statement_views(fresh@) == certified_positions(
                    before,
                    ids.take(i as int),
                    author,
                    size,
                ).map_values(|p: int| views[p]),
                !wanted ==> fresh@.len() == 0,
                forall|k: int|
                    0 <= k < certified_positions(before, ids.take(i as int), author, size).len()
                        ==> 0 <= #[trigger] certified_positions(
                        before,
                        ids.take(i as int),
                        author,
                        size,
                    )[k] < i,
            decreases statements.len() - i,
        {
            let id = statements[i].id();
            proof {
                assert(views[i as int] == statements@[i as int]@);
                assert(ids[i as int] == id);
                assert(ids.take(i as int + 1).drop_last() == ids.take(i as int));
                assert(ids.take(i as int + 1).last() == id);
            }
            let newly = self.vote(id, author, committee);
            let ghost fresh_before = fresh@;
            if newly {
                certified.push(id);
                if wanted {
                    fresh.push(statements[i].duplicate());
                }
            }
            proof {
                let prev = certified_positions(before, ids.take(i as int), author, size);
                let next = certified_positions(before, ids.take(i as int + 1), author, size);
                if newly {
                    assert(next == prev.push(i as int));
                    assert(certified@ =~= next.map_values(|p: int| ids[p]));
                    if wanted {
                        assert(fresh@ == fresh_before.push(fresh@.last()));
                        assert(statement_views(fresh@) =~= statement_views(fresh_before).push(
                            views[i as int],
                        ));
                        assert(statement_views(fresh@) =~= next.map_values(|p: int| views[p]));
                    }
                } else {
                    assert(next == prev);
                }
            }
            i += 1;
        }
        proof {
            assert(ids.take(i as int) == ids);
        }
        match collect {
            Some(sink) => {
                let ghost start = sink@;
                sink.append(&mut fresh);
                proof {
                    assert(statement_views(sink@) =~= statement_views(start) + certified_statements(
                        before,
                        views,
                        author,
                        size,
                    ));
                }
            },
            None => {},
        }
        certified
    }
}

impl TransactionAggregator {
    /// The numbers of records and of votes of an aggregator fit in 64 bits.
    pub proof fn lemma_encodable(&self)
        ensures
            crate::codec::encodable(self@),
    {
        assert forall|i: int| 0 <= i < self@.len() implies (#[trigger] self@[i]).votes.len()
            <= u64::MAX by {
            assert(self@[i].votes == self.entries@[i].votes@);
            assert(self.entries@[i].votes.len() <= usize::MAX);
        }
        assert(self.entries.len() <= usize::MAX);
    }

    /// The state as bytes.
    pub fn state(&self) -> (r: Vec<u8>)
        ensures
            r@ == encode_state(self@),
            self.wf() ==> parse_state(r@) == Some(self@),
    {
        proof {
            if self.wf() {
                self.lemma_encodable();
                crate::codec::lemma_parse_of_encode(self@);
            }
        }
        let mut out: Vec<u8> = Vec::new();
        write_u64(&mut out, self.entries.len() as u64);
        let ghost head = out@;
        assert(head == spec_u64_to_le_bytes(self@.len() as u64));
        let mut i: usize = 0;
        while i < self.entries.len()
            invariant
                i <= self.entries.len(),
                out@ == head + encode_records(self@.take(i as int)),
            decreases self.entries.len() - i,
        {
            let entry = &self.entries[i];
            let ghost before = out@;
            let ghost record = self@[i as int];
            assert(record == entry.record());
            write_u64(&mut out, entry.id);
            out.push(if entry.certified { 1u8 } else { 0u8 });
            write_u64(&mut out, entry.votes.len() as u64);
            let ghost fixed = out@;
            let mut k: usize = 0;
            while k < entry.votes.len()
                invariant
                    k <= entry.votes.len(),
                    out@ == fixed + encode_votes(entry.votes@.take(k as int)),
                decreases entry.votes.len() - k,
            {
                write_u64(&mut out, entry.votes[k]);
                proof {
                    lemma_encode_votes_push(entry.votes@.take(k as int), entry.votes@[k as int]);
                    assert(entry.votes@.take(k as int + 1) == entry.votes@.take(k as int).push(
                        entry.votes@[k as int],
                    ));
                }
                k += 1;
            }
            proof {
                assert(entry.votes@.take(k as int) == entry.votes@);
                assert(out@ =~= before + encode_record(record));
                lemma_encode_records_push(self@.take(i as int), record);
                assert(self@.take(i as int + 1) == self@.take(i as int).push(record));
            }
            i += 1;
        }
        proof {
            assert(self@.take(i as int) == self@);
        }
        out
    }

    /// Replaces what the aggregator knows by the state that `state` is the
    /// byte form of. Nothing changes when it is the byte form of none.
    pub fn with_state(&mut self, state: &Vec<u8>) -> (r: Result<(), StateError>)
        ensures
            match r {
                Ok(()) => parse_state(state@) == Some(final(self)@) && final(self).wf()
                    && encode_state(final(self)@) == state@,
                Err(StateError::Malformed) => parse_state(state@) is None && final(self)@ == old(
                    self,
                )@,
            },
    {
        proof {
            if parse_state(state@) is Some {
                crate::codec::lemma_encode_of_parse(state@);
            }
        }
        if state.len() < 8 {
            return Err(StateError::Malformed);
        }
        let total = read_u64(state, 0);
        let ghost b = state@;
        let mut loaded = TransactionAggregator { entries: Vec::new() };
        let mut pos: usize = 8;
        let mut i: u64 = 0;
        assert(loaded@ =~= Seq::<VoteRecord>::empty());
        while i < total
            invariant
                i <= total,
                b == state@,
                total == crate::codec::u64_at(b, 0),
                self@ == old(self)@,
                8 <= pos <= b.len(),
                loaded.wf(),
                parse_records(b, 8, total as nat) == match parse_records(
                    b,
                    pos as int,
                    (total - i) as nat,
                ) {
                    None => None::<(Seq<VoteRecord>, int)>,
                    Some((rest, end)) => Some((loaded@ + rest, end)),
                },
            decreases total - i,
        {
            let ghost done = loaded@;
            match read_record(state, pos) {
                None => {
                    return Err(StateError::Malformed);
                },
                Some((entry, next)) => {
                    let ghost record = entry.record();
                    let known = loaded.find(entry.id).is_some();
                    loaded.entries.push(entry);
                    proof {
                        assert(loaded@ =~= done.push(record));
                        match parse_records(b, next as int, (total - i - 1) as nat) {
                            None => {},
                            Some((rest, end)) => {
                                assert(done + (seq![record] + rest) =~= loaded@ + rest);
                            },
                        }
                    }
                    if known {
                        proof {
                            let w = choose|w: int| 0 <= w < done.len() && (#[trigger] done[w]).id == record.id;
                            match parse_records(b, next as int, (total - i - 1) as nat) {
                                None => {},
                                Some((rest, end)) => {
                                    let all = loaded@ + rest;
                                    assert(all[w].id == all[done.len() as int].id);
                                    assert(!records_wf(all));
                                },
                            }
                        }
                        return Err(StateError::Malformed);
                    }
                    pos = next;
                },
            }
            i += 1;
        }
        proof {
            assert(loaded@ + Seq::<VoteRecord>::empty() =~= loaded@);
        }
        if pos != state.len() {
            return Err(StateError::Malformed);
        }
        self.entries = loaded.entries;
        Ok(())
    }
}

} // verus!
