//! The mathematical model of an entity table: the records it holds, read
//! back from its byte contents, and the counting of live votes.
use vstd::prelude::*;

verus! {

use crate::types::{VoteType, VoteV};

broadcast use vstd::set::group_set_axioms;

/// The records a table holds: each stored byte string read back through the
/// encoding `enc`, over the values that satisfy `ok`.
pub open spec fn table_model<V>(
    m: Map<u64, Seq<u8>>,
    ok: spec_fn(V) -> bool,
    enc: spec_fn(V) -> Seq<u8>,
) -> Map<u64, V> {
    Map::new(
        |k: u64| m.dom().contains(k),
        |k: u64| choose|v: V| ok(v) && m[k] == #[trigger] enc(v),
    )
}

/// Every stored byte string is the encoding of a valid record, and the table
/// is finite.
pub open spec fn table_inv<V>(
    m: Map<u64, Seq<u8>>,
    ok: spec_fn(V) -> bool,
    enc: spec_fn(V) -> Seq<u8>,
) -> bool {
    &&& m.dom().finite()
    &&& forall|k: u64|
        #[trigger] m.dom().contains(k) ==> exists|v: V| ok(v) && m[k] == #[trigger] enc(v)
}

/// The encoding tells valid records apart.
pub open spec fn enc_injective<V>(ok: spec_fn(V) -> bool, enc: spec_fn(V) -> Seq<u8>) -> bool {
    forall|v1: V, v2: V|
        #![trigger enc(v1), enc(v2)]
        ok(v1) && ok(v2) && enc(v1) == enc(v2) ==> v1 == v2
}

/// A stored encoding is read back as the record it encodes.
pub proof fn lemma_model_at<V>(
    m: Map<u64, Seq<u8>>,
    ok: spec_fn(V) -> bool,
    enc: spec_fn(V) -> Seq<u8>,
    k: u64,
    v: V,
)
    requires
        enc_injective(ok, enc),
        m.dom().contains(k),
        ok(v),
        m[k] == enc(v),
    ensures
        table_model(m, ok, enc).dom() == m.dom(),
        table_model(m, ok, enc)[k] == v,
{
    assert(table_model(m, ok, enc).dom() =~= m.dom());
    assert(ok(v) && m[k] == enc(v));
    let w = choose|w: V| ok(w) && m[k] == #[trigger] enc(w);
    assert(ok(w) && m[k] == enc(w));
    assert(enc(w) == enc(v));
}

/// Storing an encoded record updates the model pointwise.
pub proof fn lemma_model_insert<V>(
    m: Map<u64, Seq<u8>>,
    ok: spec_fn(V) -> bool,
    enc: spec_fn(V) -> Seq<u8>,
    k: u64,
    v: V,
)
    requires
        table_inv(m, ok, enc),
        enc_injective(ok, enc),
        ok(v),
    ensures
        table_inv(m.insert(k, enc(v)), ok, enc),
        table_model(m.insert(k, enc(v)), ok, enc) == table_model(m, ok, enc).insert(k, v),
{
    let m2 = m.insert(k, enc(v));
    assert(m2.dom() =~= m.dom().insert(k));
    let t1 = table_model(m2, ok, enc);
    let t2 = table_model(m, ok, enc).insert(k, v);
    assert forall|j: u64| #[trigger] t1.dom().contains(j) implies t1[j] == t2[j] by {
        if j == k {
            lemma_model_at(m2, ok, enc, k, v);
        } else {
            assert(m2[j] == m[j]);
            let w1 = choose|w: V| ok(w) && m2[j] == #[trigger] enc(w);
            let w2 = choose|w: V| ok(w) && m[j] == #[trigger] enc(w);
            assert(m.dom().contains(j));
            let w = choose|w: V| ok(w) && m[j] == #[trigger] enc(w);
            assert(ok(w) && m[j] == enc(w));
            assert(ok(w1) && m2[j] == enc(w1));
            assert(ok(w2) && m[j] == enc(w2));
            assert(enc(w1) == enc(w2));
        }
    }
    assert(t1 =~= t2);
}

/// Removing a stored record updates the model pointwise.
pub proof fn lemma_model_remove<V>(
    m: Map<u64, Seq<u8>>,
    ok: spec_fn(V) -> bool,
    enc: spec_fn(V) -> Seq<u8>,
    k: u64,
)
    requires
        table_inv(m, ok, enc),
        enc_injective(ok, enc),
    ensures
        table_inv(m.remove(k), ok, enc),
        table_model(m.remove(k), ok, enc) == table_model(m, ok, enc).remove(k),
{
    let m2 = m.remove(k);
    assert(m2.dom() =~= m.dom().remove(k));
    let t1 = table_model(m2, ok, enc);
    let t2 = table_model(m, ok, enc).remove(k);
    assert forall|j: u64| #[trigger] t1.dom().contains(j) implies t1[j] == t2[j] by {
        assert(m2[j] == m[j]);
        let w1 = choose|w: V| ok(w) && m2[j] == #[trigger] enc(w);
        let w2 = choose|w: V| ok(w) && m[j] == #[trigger] enc(w);
        assert(m.dom().contains(j));
        let w = choose|w: V| ok(w) && m[j] == #[trigger] enc(w);
        assert(ok(w) && m[j] == enc(w));
        assert(ok(w1) && m2[j] == enc(w1));
        assert(ok(w2) && m[j] == enc(w2));
        assert(enc(w1) == enc(w2));
    }
    assert(t1 =~= t2);
}

/// The identifiers of the live votes on a discussion with the given kind.
pub open spec fn votes_matching(votes: Map<u64, VoteV>, discussion_id: u64, t: VoteType) -> Set<
    u64,
> {
    votes.dom().filter(
        |k: u64| votes[k].discussion_id == discussion_id && votes[k].vote_type == t,
    )
}

/// How many live votes a discussion has of the given kind.
pub open spec fn vote_count(votes: Map<u64, VoteV>, discussion_id: u64, t: VoteType) -> nat {
    votes_matching(votes, discussion_id, t).len()
}

/// The matching set of a finite vote table is finite.
pub proof fn lemma_votes_matching_finite(votes: Map<u64, VoteV>, discussion_id: u64, t: VoteType)
    requires
        votes.dom().finite(),
    ensures
        votes_matching(votes, discussion_id, t).finite(),
        vote_count(votes, discussion_id, t) <= votes.dom().len(),
{
    votes.dom().lemma_len_filter(
        |k: u64| votes[k].discussion_id == discussion_id && votes[k].vote_type == t,
    );
}

/// Adding a fresh vote raises exactly the matching count by one.
pub proof fn lemma_vote_count_insert(
    votes: Map<u64, VoteV>,
    k: u64,
    v: VoteV,
    discussion_id: u64,
    t: VoteType,
)
    requires
        votes.dom().finite(),
        !votes.dom().contains(k),
    ensures
        vote_count(votes.insert(k, v), discussion_id, t) == vote_count(
            votes,
            discussion_id,
            t,
        ) + (if v.discussion_id == discussion_id && v.vote_type == t {
            1int
        } else {
            0int
        }),
{
    lemma_votes_matching_finite(votes, discussion_id, t);
    let s0 = votes_matching(votes, discussion_id, t);
    let s1 = votes_matching(votes.insert(k, v), discussion_id, t);
    if v.discussion_id == discussion_id && v.vote_type == t {
        assert(s1 =~= s0.insert(k));
    } else {
        assert(s1 =~= s0);
    }
}

/// Removing a vote lowers exactly the matching count by one.
pub proof fn lemma_vote_count_remove(
    votes: Map<u64, VoteV>,
    k: u64,
    discussion_id: u64,
    t: VoteType,
)
    requires
        votes.dom().finite(),
        votes.dom().contains(k),
    ensures
        vote_count(votes, discussion_id, t) == vote_count(
            votes.remove(k),
            discussion_id,
            t,
        ) + (if votes[k].discussion_id == discussion_id && votes[k].vote_type == t {
            1int
        } else {
            0int
        }),
{
    lemma_votes_matching_finite(votes.remove(k), discussion_id, t);
    let s0 = votes_matching(votes.remove(k), discussion_id, t);
    let s1 = votes_matching(votes, discussion_id, t);
    if votes[k].discussion_id == discussion_id && votes[k].vote_type == t {
        assert(s1 =~= s0.insert(k));
    } else {
        assert(s1 =~= s0);
    }
}

/// A live matching vote keeps the matching count at one or more.
pub proof fn lemma_vote_count_at_least_one(votes: Map<u64, VoteV>, k: u64)
    requires
        votes.dom().finite(),
        votes.dom().contains(k),
    ensures
        vote_count(votes, votes[k].discussion_id, votes[k].vote_type) >= 1,
{
    let d = votes[k].discussion_id;
    let t = votes[k].vote_type;
    lemma_votes_matching_finite(votes, d, t);
    assert(votes_matching(votes, d, t).contains(k));
}

} // verus!
