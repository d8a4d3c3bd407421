//! The byte form of the aggregator's state, for export and recovery.
//!
//! A state is written as the number of records, then each record: the
//! transaction id, one byte that is 1 for a certified transaction and 0
//! otherwise, the number of votes, and the voters in order. All numbers take
//! eight bytes, lowest byte first.

use crate::aggregator::{records_wf, VoteEntry, VoteRecord};
use crate::types::AuthorityIndex;
use vstd::bytes::{
    lemma_auto_spec_u64_to_from_le_bytes, spec_u64_from_le_bytes, spec_u64_to_le_bytes,
    u64_from_le_bytes, u64_to_le_bytes,
};
use vstd::prelude::*;
use vstd::slice::slice_subrange;

verus! {

/// Why a state was not taken over.
#[derive(Clone, Copy, Debug, PartialEq, Eq, Structural)]
pub enum StateError {
    /// The bytes are not the byte form of any state.
    Malformed,
}

/// The byte form of a list of voters.
pub open spec fn encode_votes(v: Seq<AuthorityIndex>) -> Seq<u8>
    decreases v.len(),
{
    if v.len() == 0 {
        Seq::empty()
    } else {
        spec_u64_to_le_bytes(v[0]) + encode_votes(v.drop_first())
    }
}

/// The byte that stands for the certified flag.
pub open spec fn flag_byte(certified: bool) -> u8 {
    if certified {
        1
    } else {
        0
    }
}

/// The byte form of one record.
pub open spec fn encode_record(r: VoteRecord) -> Seq<u8> {
    spec_u64_to_le_bytes(r.id) + seq![flag_byte(r.certified)] + spec_u64_to_le_bytes(
        r.votes.len() as u64,
    ) + encode_votes(r.votes)
}

/// The byte form of a list of records.
pub open spec fn encode_records(s: Seq<VoteRecord>) -> Seq<u8>
    decreases s.len(),
{
    if s.len() == 0 {
        Seq::empty()
    } else {
        encode_record(s[0]) + encode_records(s.drop_first())
    }
}

/// The byte form of a state.
pub open spec fn encode_state(s: Seq<VoteRecord>) -> Seq<u8> {
    spec_u64_to_le_bytes(s.len() as u64) + encode_records(s)
}

/// The number written in the eight bytes from `pos` on.
pub open spec fn u64_at(b: Seq<u8>, pos: int) -> u64 {
    spec_u64_from_le_bytes(b.subrange(pos, pos + 8))
}

/// The `n` numbers written from `pos` on.
pub open spec fn votes_at(b: Seq<u8>, pos: int, n: nat) -> Seq<AuthorityIndex> {
    Seq::new(n, |k: int| u64_at(b, pos + 8 * k))
}

/// The record written from `pos` on and the position behind it, if there is one.
pub open spec fn parse_record(b: Seq<u8>, pos: int) -> Option<(VoteRecord, int)> {
    if pos < 0 || pos + 17 > b.len() {
        None
    } else {
        let n = u64_at(b, pos + 9);
        let votes = votes_at(b, pos + 17, n as nat);
        if b[pos + 8] > 1 || pos + 17 + 8 * n > b.len() || !votes.no_duplicates() {
            None
        } else {
            Some((VoteRecord { id: u64_at(b, pos), votes, certified: b[pos + 8] == 1 }, pos + 17 + 8 * n))
        }
    }
}

/// The `n` records written from `pos` on and the position behind them, if
/// there are that many.
pub open spec fn parse_records(b: Seq<u8>, pos: int, n: nat) -> Option<(Seq<VoteRecord>, int)>
    decreases n,
{
    if n == 0 {
        Some((Seq::empty(), pos))
    } else {
        match parse_record(b, pos) {
            None => None,
            Some((r, next)) => match parse_records(b, next, (n - 1) as nat) {
                None => None,
                Some((rest, end)) => Some((seq![r] + rest, end)),
            },
        }
    }
}

/// The state that `b` is the byte form of, if it is one: the records fill
/// `b` to its end, and no transaction has two of them.
pub open spec fn parse_state(b: Seq<u8>) -> Option<Seq<VoteRecord>> {
    if b.len() < 8 {
        None
    } else {
        match parse_records(b, 8, u64_at(b, 0) as nat) {
            None => None,
            Some((s, end)) => if end == b.len() && records_wf(s) {
                Some(s)
            } else {
                None
            },
        }
    }
}

/// Whether the numbers of records and of votes all fit in 64 bits.
pub open spec fn encodable(s: Seq<VoteRecord>) -> bool {
    &&& s.len() <= u64::MAX
    &&& forall|i: int| 0 <= i < s.len() ==> (#[trigger] s[i]).votes.len() <= u64::MAX
}

/// The byte form of a list of voters with one more voter at its end.
pub proof fn lemma_encode_votes_push(v: Seq<AuthorityIndex>, x: AuthorityIndex)
    ensures
        encode_votes(v.push(x)) == encode_votes(v) + spec_u64_to_le_bytes(x),
    decreases v.len(),
{
    if v.len() == 0 {
        assert(v.push(x).drop_first() == Seq::<AuthorityIndex>::empty());
        assert(encode_votes(Seq::<AuthorityIndex>::empty()) == Seq::<u8>::empty());
        assert(encode_votes(v.push(x)) == spec_u64_to_le_bytes(x) + encode_votes(
            v.push(x).drop_first(),
        ));
        assert(encode_votes(v.push(x)) =~= spec_u64_to_le_bytes(x));
        assert(encode_votes(v) + spec_u64_to_le_bytes(x) =~= spec_u64_to_le_bytes(x));
    } else {
        lemma_encode_votes_push(v.drop_first(), x);
        assert(v.push(x).drop_first() == v.drop_first().push(x));
        assert(encode_votes(v.push(x)) =~= encode_votes(v) + spec_u64_to_le_bytes(x));
    }
}

/// The byte form of a list of records with one more record at its end.
pub proof fn lemma_encode_records_push(s: Seq<VoteRecord>, r: VoteRecord)
    ensures
        encode_records(s.push(r)) == encode_records(s) + encode_record(r),
    decreases s.len(),
{
    if s.len() == 0 {
        assert(s.push(r).drop_first() == Seq::<VoteRecord>::empty());
        assert(encode_records(Seq::<VoteRecord>::empty()) == Seq::<u8>::empty());
        assert(encode_records(s.push(r)) == encode_record(r) + encode_records(
            s.push(r).drop_first(),
        ));
        assert(encode_records(s.push(r)) =~= encode_record(r));
        assert(encode_records(s) + encode_record(r) =~= encode_record(r));
    } else {
        lemma_encode_records_push(s.drop_first(), r);
        assert(s.push(r).drop_first() == s.drop_first().push(r));
        assert(encode_records(s.push(r)) =~= encode_records(s) + encode_record(r));
    }
}

pub(crate) fn read_u64(b: &Vec<u8>, pos: usize) -> (x: u64)
    requires
        pos + 8 <= b@.len(),
    ensures
        x == u64_at(b@, pos as int),
{
    let len = b.len();
    assert(pos + 8 <= len);
    u64_from_le_bytes(slice_subrange(b.as_slice(), pos, pos + 8))
}

pub(crate) fn write_u64(out: &mut Vec<u8>, x: u64)
    ensures
        final(out)@ == old(out)@ + spec_u64_to_le_bytes(x),
{
    let mut bytes = u64_to_le_bytes(x);
    out.append(&mut bytes);
}

fn has_duplicate(votes: &Vec<AuthorityIndex>) -> (r: bool)
    ensures
        r == !votes@.no_duplicates(),
{
    let mut i: usize = 0;
    while i < votes.len()
        invariant
            i <= votes.len(),
            forall|a: int, b: int| 0 <= a < b < i ==> votes@[a] != votes@[b],
        decreases votes.len() - i,
    {
        let mut j: usize = 0;
        while j < i
            invariant
                j <= i < votes.len(),
                forall|a: int| 0 <= a < j ==> votes@[a] != votes@[i as int],
            decreases i - j,
        {
            if votes[j] == votes[i] {
                return true;
            }
            j += 1;
        }
        i += 1;
    }
    false
}

pub(crate) fn read_record(b: &Vec<u8>, pos: usize) -> (r: Option<(VoteEntry, usize)>)
    requires
        pos <= b@.len(),
    ensures
        match r {
            None => parse_record(b@, pos as int) is None,
            Some((entry, next)) => parse_record(b@, pos as int) == Some((entry.record(), next as int))
                && pos < next <= b@.len(),
        },
{
    let len = b.len();
    if len - pos < 17 {
        return None;
    }
    let id = read_u64(b, pos);
    let flag = b[pos + 8];
    let n = read_u64(b, pos + 9);
    if flag > 1 || n > ((len - pos - 17) / 8) as u64 {
        return None;
    }
    let count = n as usize;
    let mut votes: Vec<AuthorityIndex> = Vec::new();
    let mut k: usize = 0;
    while k < count
        invariant
            k <= count,
            pos + 17 + 8 * count <= b@.len(),
            b@.len() == len,
            votes@ == votes_at(b@, pos + 17, k as nat),
        decreases count - k,
    {
        let v = read_u64(b, pos + 17 + 8 * k);
        votes.push(v);
        assert(votes@ =~= votes_at(b@, pos + 17, (k + 1) as nat));
        k += 1;
    }
    if has_duplicate(&votes) {
        return None;
    }
    Some((VoteEntry { id, votes, certified: flag == 1 }, pos + 17 + 8 * count))
}

/// The byte form of `v` takes eight bytes per voter.
pub proof fn lemma_encode_votes_len(v: Seq<AuthorityIndex>)
    ensures
        encode_votes(v).len() == 8 * v.len(),
    decreases v.len(),
{
    lemma_auto_spec_u64_to_from_le_bytes();
    if v.len() > 0 {
        lemma_encode_votes_len(v.drop_first());
    }
}

/// The byte form of a record takes 17 bytes and eight more per voter.
pub proof fn lemma_encode_record_len(r: VoteRecord)
    ensures
        encode_record(r).len() == 17 + 8 * r.votes.len(),
{
    lemma_auto_spec_u64_to_from_le_bytes();
    lemma_encode_votes_len(r.votes);
}

/// Writing out the numbers read from `pos` on gives back the bytes they were read from.
proof fn lemma_votes_at_encode(b: Seq<u8>, pos: int, n: nat)
    requires
        0 <= pos,
        pos + 8 * n <= b.len(),
    ensures
        encode_votes(votes_at(b, pos, n)) == b.subrange(pos, pos + 8 * n),
    decreases n,
{
    lemma_auto_spec_u64_to_from_le_bytes();
    let v = votes_at(b, pos, n);
    if n == 0 {
        assert(b.subrange(pos, pos) =~= Seq::<u8>::empty());
    } else {
        lemma_votes_at_encode(b, pos + 8, (n - 1) as nat);
        assert(v.drop_first() =~= votes_at(b, pos + 8, (n - 1) as nat));
        assert(v[0] == u64_at(b, pos));
        assert(spec_u64_to_le_bytes(v[0]) == b.subrange(pos, pos + 8));
        assert(b.subrange(pos, pos + 8) + b.subrange(pos + 8, pos + 8 * n) =~= b.subrange(
            pos,
            pos + 8 * n,
        ));
    }
}

/// Reading numbers from where the byte form of `v` stands gives `v`.
proof fn lemma_votes_at_of_encoding(b: Seq<u8>, pos: int, v: Seq<AuthorityIndex>)
    requires
        0 <= pos,
        pos + 8 * v.len() <= b.len(),
        b.subrange(pos, pos + 8 * v.len()) == encode_votes(v),
    ensures
        votes_at(b, pos, v.len()) == v,
    decreases v.len(),
{
    lemma_auto_spec_u64_to_from_le_bytes();
    if v.len() == 0 {
        assert(votes_at(b, pos, 0) =~= v);
    } else {
        let rest = v.drop_first();
        let whole = b.subrange(pos, pos + 8 * v.len());
        lemma_encode_votes_len(rest);
        assert(whole.subrange(0, 8) =~= spec_u64_to_le_bytes(v[0]));
        assert(whole.subrange(0, 8) =~= b.subrange(pos, pos + 8));
        assert(whole.subrange(8, whole.len() as int) =~= encode_votes(rest));
        assert(whole.subrange(8, whole.len() as int) =~= b.subrange(pos + 8, pos + 8 + 8 * rest.len()));
        lemma_votes_at_of_encoding(b, pos + 8, rest);
        assert(u64_at(b, pos) == v[0]);
        assert forall|k: int| 0 <= k < v.len() implies votes_at(b, pos, v.len())[k] == v[k] by {
            if k > 0 {
                assert(votes_at(b, pos + 8, rest.len())[k - 1] == u64_at(b, pos + 8 + 8 * (k - 1)));
                assert(rest[k - 1] == v[k]);
            }
        }
        assert(votes_at(b, pos, v.len()) =~= v);
    }
}

/// Writing out a record that was read gives back the bytes it was read from.
proof fn lemma_parse_record_encode(b: Seq<u8>, pos: int)
    requires
        parse_record(b, pos) is Some,
    ensures
        ({
            let (r, next) = parse_record(b, pos)->0;
            &&& pos < next <= b.len()
            &&& encode_record(r) == b.subrange(pos, next)
            &&& r.votes.no_duplicates()
            &&& r.votes.len() <= u64::MAX
        }),
{
    lemma_auto_spec_u64_to_from_le_bytes();
    let (r, next) = parse_record(b, pos)->0;
    let n = u64_at(b, pos + 9);
    lemma_votes_at_encode(b, pos + 17, n as nat);
    assert(spec_u64_to_le_bytes(r.id) == b.subrange(pos, pos + 8));
    assert(seq![flag_byte(r.certified)] =~= b.subrange(pos + 8, pos + 9));
    assert(r.votes.len() == n);
    assert(spec_u64_to_le_bytes(r.votes.len() as u64) == b.subrange(pos + 9, pos + 17));
    assert(encode_record(r) =~= b.subrange(pos, next));
}

/// Writing out the records that were read gives back the bytes they were read from.
proof fn lemma_parse_records_encode(b: Seq<u8>, pos: int, n: nat)
    requires
        0 <= pos <= b.len(),
        parse_records(b, pos, n) is Some,
    ensures
        ({
            let (s, end) = parse_records(b, pos, n)->0;
            &&& pos <= end <= b.len()
            &&& s.len() == n
            &&& encode_records(s) == b.subrange(pos, end)
        }),
    decreases n,
{
    let (s, end) = parse_records(b, pos, n)->0;
    if n == 0 {
        assert(b.subrange(pos, pos) =~= Seq::<u8>::empty());
    } else {
        lemma_parse_record_encode(b, pos);
        let (r, next) = parse_record(b, pos)->0;
        lemma_parse_records_encode(b, next, (n - 1) as nat);
        let (rest, end2) = parse_records(b, next, (n - 1) as nat)->0;
        assert(s == seq![r] + rest);
        assert(s[0] == r);
        assert(s.drop_first() =~= rest);
        assert(b.subrange(pos, next) + b.subrange(next, end) =~= b.subrange(pos, end));
    }
}

/// Reading a record from where its byte form stands gives the record.
proof fn lemma_parse_record_of_encoding(b: Seq<u8>, pos: int, r: VoteRecord)
    requires
        0 <= pos,
        r.votes.no_duplicates(),
        r.votes.len() <= u64::MAX,
        pos + 17 + 8 * r.votes.len() <= b.len(),
        b.subrange(pos, pos + 17 + 8 * r.votes.len()) == encode_record(r),
    ensures
        parse_record(b, pos) == Some((r, pos + 17 + 8 * r.votes.len())),
{
    lemma_auto_spec_u64_to_from_le_bytes();
    lemma_encode_votes_len(r.votes);
    let n = r.votes.len();
    let whole = b.subrange(pos, pos + 17 + 8 * n);
    assert(whole.subrange(0, 8) =~= spec_u64_to_le_bytes(r.id));
    assert(whole.subrange(0, 8) =~= b.subrange(pos, pos + 8));
    assert(whole[8] == flag_byte(r.certified));
    assert(whole[8] == b[pos + 8]);
    assert(whole.subrange(9, 17) =~= spec_u64_to_le_bytes(n as u64));
    assert(whole.subrange(9, 17) =~= b.subrange(pos + 9, pos + 17));
    assert(whole.subrange(17, 17 + 8 * n as int) =~= encode_votes(r.votes));
    assert(whole.subrange(17, 17 + 8 * n as int) =~= b.subrange(pos + 17, pos + 17 + 8 * n));
    assert(u64_at(b, pos) == r.id);
    assert(u64_at(b, pos + 9) == n as u64);
    lemma_votes_at_of_encoding(b, pos + 17, r.votes);
}

/// Reading records from where their byte form stands gives the records.
proof fn lemma_parse_records_of_encoding(b: Seq<u8>, pos: int, s: Seq<VoteRecord>)
    requires
        0 <= pos,
        forall|i: int| 0 <= i < s.len() ==> (#[trigger] s[i]).votes.no_duplicates(),
        forall|i: int| 0 <= i < s.len() ==> (#[trigger] s[i]).votes.len() <= u64::MAX,
        pos + encode_records(s).len() <= b.len(),
        b.subrange(pos, pos + encode_records(s).len()) == encode_records(s),
    ensures
        parse_records(b, pos, s.len()) == Some((s, pos + encode_records(s).len())),
    decreases s.len(),
{
    if s.len() > 0 {
        let r = s[0];
        let rest = s.drop_first();
        let whole = b.subrange(pos, pos + encode_records(s).len());
        lemma_encode_record_len(r);
        let next = pos + 17 + 8 * r.votes.len();
        assert(whole.subrange(0, encode_record(r).len() as int) =~= encode_record(r));
        assert(whole.subrange(0, encode_record(r).len() as int) =~= b.subrange(pos, next));
        lemma_parse_record_of_encoding(b, pos, r);
        assert(whole.subrange(encode_record(r).len() as int, whole.len() as int) =~= encode_records(
            rest,
        ));
        assert(whole.subrange(encode_record(r).len() as int, whole.len() as int) =~= b.subrange(
            next,
            next + encode_records(rest).len(),
        ));
        assert forall|i: int| 0 <= i < rest.len() implies (#[trigger] rest[i]).votes.no_duplicates()
            && rest[i].votes.len() <= u64::MAX by {
            assert(rest[i] == s[i + 1]);
        }
        lemma_parse_records_of_encoding(b, next, rest);
        assert(seq![r] + rest =~= s);
    }
}

/// A state comes back from its byte form: reading what was written gives
/// the state that was written.
pub proof fn lemma_parse_of_encode(s: Seq<VoteRecord>)
    requires
        records_wf(s),
        encodable(s),
    ensures
        parse_state(encode_state(s)) == Some(s),
{
    lemma_auto_spec_u64_to_from_le_bytes();
    let b = encode_state(s);
    assert(b.subrange(0, 8) =~= spec_u64_to_le_bytes(s.len() as u64));
    assert(u64_at(b, 0) == s.len());
    assert(b.subrange(8, 8 + encode_records(s).len() as int) =~= encode_records(s));
    lemma_parse_records_of_encoding(b, 8, s);
}

/// A byte form is the only one of its state: writing what was read gives
/// the bytes that were read.
pub proof fn lemma_encode_of_parse(b: Seq<u8>)
    requires
        parse_state(b) is Some,
    ensures
        encode_state(parse_state(b)->0) == b,
        records_wf(parse_state(b)->0),
        encodable(parse_state(b)->0),
{
    lemma_auto_spec_u64_to_from_le_bytes();
    let s = parse_state(b)->0;
    let n = u64_at(b, 0) as nat;
    lemma_parse_records_encode(b, 8, n);
    assert(spec_u64_to_le_bytes(s.len() as u64) == b.subrange(0, 8));
    assert(b.subrange(0, 8) + b.subrange(8, b.len() as int) =~= b);
    lemma_parsed_votes_fit(b, 8, n);
}

/// Records that were read have numbers of votes that fit in 64 bits.
proof fn lemma_parsed_votes_fit(b: Seq<u8>, pos: int, n: nat)
    requires
        parse_records(b, pos, n) is Some,
    ensures
        ({
            let (s, end) = parse_records(b, pos, n)->0;
            forall|i: int| 0 <= i < s.len() ==> (#[trigger] s[i]).votes.len() <= u64::MAX
        }),
    decreases n,
{
    if n > 0 {
        let (r, next) = parse_record(b, pos)->0;
        lemma_parsed_votes_fit(b, next, (n - 1) as nat);
        let (rest, end) = parse_records(b, next, (n - 1) as nat)->0;
        let s = seq![r] + rest;
        assert forall|i: int| 0 <= i < s.len() implies (#[trigger] s[i]).votes.len() <= u64::MAX by {
            if i > 0 {
                assert(s[i] == rest[i - 1]);
            }
        }
    }
}

} // verus!
