//! The byte layout of the stored records, with proofs that decoding is the
//! exact inverse of encoding. Every multi-byte integer is little-endian; a
//! string is stored as the 64-bit length of its UTF-8 form followed by the
//! UTF-8 bytes themselves; a record's final string omits the length because
//! it extends to the end of the record.
use vstd::prelude::*;

verus! {

use vstd::utf8::{encode_utf8, decode_utf8, valid_utf8, encode_utf8_valid_utf8,
    encode_utf8_decode_utf8};
use vstd::slice::{slice_subrange, slice_to_vec};
use vstd::pervasive::unreached;
use vstd::string::StrSliceExecFns;
use crate::types::{User, UserV, Discussion, DiscussionV, Vote, VoteV, VoteType};

broadcast use vstd::std_specs::vec::axiom_spec_len;

/// The eight little-endian bytes of a 64-bit value.
pub open spec fn enc_u64(x: u64) -> Seq<u8> {
    seq![
        (x & 0xff) as u8,
        ((x >> 8) & 0xff) as u8,
        ((x >> 16) & 0xff) as u8,
        ((x >> 24) & 0xff) as u8,
        ((x >> 32) & 0xff) as u8,
        ((x >> 40) & 0xff) as u8,
        ((x >> 48) & 0xff) as u8,
        ((x >> 56) & 0xff) as u8,
    ]
}

/// The UTF-8 form of the string fits in a 64-bit length field. Holds for
/// every string that exists at run time.
pub open spec fn str_ok(s: Seq<char>) -> bool {
    encode_utf8(s).len() <= u64::MAX
}

/// A length-prefixed string: 64-bit UTF-8 length, then the UTF-8 bytes.
pub open spec fn enc_str(s: Seq<char>) -> Seq<u8> {
    enc_u64(encode_utf8(s).len() as u64) + encode_utf8(s)
}

/// One byte telling the two ballot kinds apart.
pub open spec fn enc_vote_type(t: VoteType) -> Seq<u8> {
    match t {
        VoteType::Upvote => seq![0u8],
        VoteType::Downvote => seq![1u8],
    }
}

pub open spec fn user_ok(v: UserV) -> bool {
    str_ok(v.username)
}

pub open spec fn enc_user(v: UserV) -> Seq<u8> {
    enc_u64(v.id) + enc_u64(v.created_at) + encode_utf8(v.username)
}

pub open spec fn discussion_ok(v: DiscussionV) -> bool {
    str_ok(v.created_by) && str_ok(v.topic)
}

pub open spec fn enc_discussion(v: DiscussionV) -> Seq<u8> {
    enc_u64(v.id) + enc_u64(v.created_at) + enc_u64(v.upvotes) + enc_u64(v.downvotes)
        + enc_str(v.created_by) + encode_utf8(v.topic)
}

pub open spec fn vote_ok(v: VoteV) -> bool {
    str_ok(v.by)
}

pub open spec fn enc_vote(v: VoteV) -> Seq<u8> {
    enc_u64(v.id) + enc_u64(v.discussion_id) + enc_u64(v.created_at)
        + enc_vote_type(v.vote_type) + encode_utf8(v.by)
}

pub proof fn lemma_enc_u64_injective(x: u64, y: u64)
    requires
        enc_u64(x) == enc_u64(y),
    ensures
        x == y,
{
    assert(enc_u64(x)[0] == enc_u64(y)[0]);
    assert(enc_u64(x)[1] == enc_u64(y)[1]);
    assert(enc_u64(x)[2] == enc_u64(y)[2]);
    assert(enc_u64(x)[3] == enc_u64(y)[3]);
    assert(enc_u64(x)[4] == enc_u64(y)[4]);
    assert(enc_u64(x)[5] == enc_u64(y)[5]);
    assert(enc_u64(x)[6] == enc_u64(y)[6]);
    assert(enc_u64(x)[7] == enc_u64(y)[7]);
    assert((
        (x & 0xff) as u8 == (y & 0xff) as u8
        && ((x >> 8) & 0xff) as u8 == ((y >> 8) & 0xff) as u8
        && ((x >> 16) & 0xff) as u8 == ((y >> 16) & 0xff) as u8
        && ((x >> 24) & 0xff) as u8 == ((y >> 24) & 0xff) as u8
        && ((x >> 32) & 0xff) as u8 == ((y >> 32) & 0xff) as u8
        && ((x >> 40) & 0xff) as u8 == ((y >> 40) & 0xff) as u8
        && ((x >> 48) & 0xff) as u8 == ((y >> 48) & 0xff) as u8
        && ((x >> 56) & 0xff) as u8 == ((y >> 56) & 0xff) as u8
    ) ==> x == y) by (bit_vector);
}

/// Equal UTF-8 encodings come from equal strings.
pub proof fn lemma_encode_utf8_injective(s1: Seq<char>, s2: Seq<char>)
    requires
        encode_utf8(s1) == encode_utf8(s2),
    ensures
        s1 == s2,
{
    encode_utf8_decode_utf8(s1);
    encode_utf8_decode_utf8(s2);
}

/// A length-prefixed string determines itself and whatever follows it.
pub proof fn lemma_enc_str_prefix(s1: Seq<char>, s2: Seq<char>, t1: Seq<u8>, t2: Seq<u8>)
    requires
        str_ok(s1),
        str_ok(s2),
        enc_str(s1) + t1 == enc_str(s2) + t2,
    ensures
        s1 == s2,
        t1 == t2,
{
    let b1 = enc_str(s1) + t1;
    let b2 = enc_str(s2) + t2;
    let n1 = encode_utf8(s1).len();
    let n2 = encode_utf8(s2).len();
    assert(b1.subrange(0, 8) =~= enc_u64(n1 as u64));
    assert(b2.subrange(0, 8) =~= enc_u64(n2 as u64));
    lemma_enc_u64_injective(n1 as u64, n2 as u64);
    assert(n1 == n2);
    assert(b1.subrange(8, 8 + n1 as int) =~= encode_utf8(s1));
    assert(b2.subrange(8, 8 + n2 as int) =~= encode_utf8(s2));
    lemma_encode_utf8_injective(s1, s2);
    assert(t1 =~= b1.subrange(8 + n1 as int, b1.len() as int));
    assert(t2 =~= b2.subrange(8 + n2 as int, b2.len() as int));
}

pub proof fn lemma_enc_user_injective(v1: UserV, v2: UserV)
    requires
        user_ok(v1),
        user_ok(v2),
        enc_user(v1) == enc_user(v2),
    ensures
        v1 == v2,
{
    let b1 = enc_user(v1);
    let b2 = enc_user(v2);
    assert(b1.subrange(0, 8) =~= enc_u64(v1.id));
    assert(b2.subrange(0, 8) =~= enc_u64(v2.id));
    lemma_enc_u64_injective(v1.id, v2.id);
    assert(b1.subrange(8, 16) =~= enc_u64(v1.created_at));
    assert(b2.subrange(8, 16) =~= enc_u64(v2.created_at));
    lemma_enc_u64_injective(v1.created_at, v2.created_at);
    assert(encode_utf8(v1.username) =~= b1.subrange(16, b1.len() as int));
    assert(encode_utf8(v2.username) =~= b2.subrange(16, b2.len() as int));
    lemma_encode_utf8_injective(v1.username, v2.username);
}

pub proof fn lemma_enc_discussion_injective(v1: DiscussionV, v2: DiscussionV)
    requires
        discussion_ok(v1),
        discussion_ok(v2),
        enc_discussion(v1) == enc_discussion(v2),
    ensures
        v1 == v2,
{
    let b1 = enc_discussion(v1);
    let b2 = enc_discussion(v2);
    assert(b1.subrange(0, 8) =~= enc_u64(v1.id));
    assert(b2.subrange(0, 8) =~= enc_u64(v2.id));
    lemma_enc_u64_injective(v1.id, v2.id);
    assert(b1.subrange(8, 16) =~= enc_u64(v1.created_at));
    assert(b2.subrange(8, 16) =~= enc_u64(v2.created_at));
    lemma_enc_u64_injective(v1.created_at, v2.created_at);
    assert(b1.subrange(16, 24) =~= enc_u64(v1.upvotes));
    assert(b2.subrange(16, 24) =~= enc_u64(v2.upvotes));
    lemma_enc_u64_injective(v1.upvotes, v2.upvotes);
    assert(b1.subrange(24, 32) =~= enc_u64(v1.downvotes));
    assert(b2.subrange(24, 32) =~= enc_u64(v2.downvotes));
    lemma_enc_u64_injective(v1.downvotes, v2.downvotes);
    let t1 = b1.subrange(32, b1.len() as int);
    let t2 = b2.subrange(32, b2.len() as int);
    assert(t1 =~= enc_str(v1.created_by) + encode_utf8(v1.topic));
    assert(t2 =~= enc_str(v2.created_by) + encode_utf8(v2.topic));
    lemma_enc_str_prefix(v1.created_by, v2.created_by, encode_utf8(v1.topic),
        encode_utf8(v2.topic));
    lemma_encode_utf8_injective(v1.topic, v2.topic);
}

pub proof fn lemma_enc_vote_injective(v1: VoteV, v2: VoteV)
    requires
        vote_ok(v1),
        vote_ok(v2),
        enc_vote(v1) == enc_vote(v2),
    ensures
        v1 == v2,
{
    let b1 = enc_vote(v1);
    let b2 = enc_vote(v2);
    assert(b1.subrange(0, 8) =~= enc_u64(v1.id));
    assert(b2.subrange(0, 8) =~= enc_u64(v2.id));
    lemma_enc_u64_injective(v1.id, v2.id);
    assert(b1.subrange(8, 16) =~= enc_u64(v1.discussion_id));
    assert(b2.subrange(8, 16) =~= enc_u64(v2.discussion_id));
    lemma_enc_u64_injective(v1.discussion_id, v2.discussion_id);
    assert(b1.subrange(16, 24) =~= enc_u64(v1.created_at));
    assert(b2.subrange(16, 24) =~= enc_u64(v2.created_at));
    lemma_enc_u64_injective(v1.created_at, v2.created_at);
    assert(b1[24] == b2[24]);
    assert(b1[24] == enc_vote_type(v1.vote_type)[0]);
    assert(b2[24] == enc_vote_type(v2.vote_type)[0]);
    assert(v1.vote_type == v2.vote_type);
    assert(encode_utf8(v1.by) =~= b1.subrange(25, b1.len() as int));
    assert(encode_utf8(v2.by) =~= b2.subrange(25, b2.len() as int));
    lemma_encode_utf8_injective(v1.by, v2.by);
}

/// Appends the eight little-endian bytes of `x`.
pub fn write_u64(out: &mut Vec<u8>, x: u64)
    ensures
        final(out)@ == old(out)@ + enc_u64(x),
{
    out.push((x & 0xff) as u8);
    out.push(((x >> 8) & 0xff) as u8);
    out.push(((x >> 16) & 0xff) as u8);
    out.push(((x >> 24) & 0xff) as u8);
    out.push(((x >> 32) & 0xff) as u8);
    out.push(((x >> 40) & 0xff) as u8);
    out.push(((x >> 48) & 0xff) as u8);
    out.push(((x >> 56) & 0xff) as u8);
    proof {
        assert(out@ =~= old(out)@ + enc_u64(x));
    }
}

/// Reads the 64-bit value stored at `off`.
pub fn read_u64(b: &Vec<u8>, off: usize) -> (x: u64)
    requires
        off + 8 <= b@.len(),
    ensures
        b@.subrange(off as int, off as int + 8) == enc_u64(x),
{
    proof {
        assert(off + 8 <= b.len());
    }
    let y0 = b[off] as u64;
    let y1 = b[off + 1] as u64;
    let y2 = b[off + 2] as u64;
    let y3 = b[off + 3] as u64;
    let y4 = b[off + 4] as u64;
    let y5 = b[off + 5] as u64;
    let y6 = b[off + 6] as u64;
    let y7 = b[off + 7] as u64;
    let x: u64 = y0 | (y1 << 8) | (y2 << 16) | (y3 << 24) | (y4 << 32) | (y5 << 40)
        | (y6 << 48) | (y7 << 56);
    proof {
        assert((
            x == y0 | (y1 << 8) | (y2 << 16) | (y3 << 24) | (y4 << 32) | (y5 << 40)
                | (y6 << 48) | (y7 << 56)
            && y0 < 256 && y1 < 256 && y2 < 256 && y3 < 256
            && y4 < 256 && y5 < 256 && y6 < 256 && y7 < 256
        ) ==> (
            (x & 0xff) == y0
            && ((x >> 8) & 0xff) == y1
            && ((x >> 16) & 0xff) == y2
            && ((x >> 24) & 0xff) == y3
            && ((x >> 32) & 0xff) == y4
            && ((x >> 40) & 0xff) == y5
            && ((x >> 48) & 0xff) == y6
            && ((x >> 56) & 0xff) == y7
        )) by (bit_vector);
        assert(b@.subrange(off as int, off as int + 8) =~= enc_u64(x));
    }
    x
}

/// Relies on `String::from_utf8`: succeeds on exactly the byte vectors that
/// are valid UTF-8, and decodes those.
#[verifier::external_body]
fn bytes_to_string(b: Vec<u8>) -> (r: Option<String>)
    ensures
        match r {
            Option::Some(s) => valid_utf8(b@) && s@ == decode_utf8(b@),
            Option::None => !valid_utf8(b@),
        },
{
    match String::from_utf8(b) {
        Ok(s) => Some(s),
        Err(_) => None,
    }
}

/// Appends the length-prefixed UTF-8 form of `s`.
pub fn write_str(out: &mut Vec<u8>, s: &String)
    ensures
        final(out)@ == old(out)@ + enc_str(s@),
        str_ok(s@),
{
    let mut bytes = s.as_str().as_bytes_vec();
    proof {
        assert(bytes.len() <= u64::MAX);
    }
    let n: u64 = bytes.len() as u64;
    write_u64(out, n);
    out.append(&mut bytes);
    proof {
        assert(out@ =~= old(out)@ + enc_str(s@));
    }
}

/// Appends the bare UTF-8 form of `s` (for a record's final string).
pub fn write_tail_str(out: &mut Vec<u8>, s: &String)
    ensures
        final(out)@ == old(out)@ + encode_utf8(s@),
        str_ok(s@),
{
    let mut bytes = s.as_str().as_bytes_vec();
    proof {
        assert(bytes.len() <= u64::MAX);
    }
    out.append(&mut bytes);
}

/// Reads back the length-prefixed string known (from the caller's ghost
/// witness) to be stored at `off`.
fn read_str(b: &Vec<u8>, off: usize, Ghost(s): Ghost<Seq<char>>) -> (r: (String, usize))
    requires
        str_ok(s),
        off + enc_str(s).len() <= b@.len(),
        b@.subrange(off as int, off as int + enc_str(s).len() as int) == enc_str(s),
    ensures
        r.0@ == s,
        r.1 == off + enc_str(s).len(),
{
    proof {
        assert(off + enc_str(s).len() <= b.len());
        assert(b@.subrange(off as int, off as int + 8) =~= enc_u64(
            encode_utf8(s).len() as u64));
    }
    let n = read_u64(b, off);
    proof {
        lemma_enc_u64_injective(n, encode_utf8(s).len() as u64);
    }
    let start = off + 8;
    let end = start + (n as usize);
    let utf8 = slice_to_vec(slice_subrange(b.as_slice(), start, end));
    proof {
        let ghost len = enc_str(s).len() as int;
        let ghost sub = b@.subrange(off as int, off as int + len);
        assert(forall|j: int| 0 <= j < len ==> sub[j] == b@[off as int + j]);
        assert(forall|i: int|
            0 <= i < encode_utf8(s).len() ==> encode_utf8(s)[i] == enc_str(s)[8 + i]);
        assert(utf8@ =~= encode_utf8(s));
        encode_utf8_valid_utf8(s);
    }
    match bytes_to_string(utf8) {
        Some(st) => {
            proof {
                encode_utf8_decode_utf8(s);
            }
            (st, end)
        },
        None => unreached(),
    }
}

/// Reads back the bare UTF-8 string filling `b` from `off` to the end.
fn read_tail_str(b: &Vec<u8>, off: usize, Ghost(s): Ghost<Seq<char>>) -> (r: String)
    requires
        off <= b@.len(),
        b@.subrange(off as int, b@.len() as int) == encode_utf8(s),
    ensures
        r@ == s,
{
    let utf8 = slice_to_vec(slice_subrange(b.as_slice(), off, b.len()));
    proof {
        assert(utf8@ =~= encode_utf8(s));
        encode_utf8_valid_utf8(s);
    }
    match bytes_to_string(utf8) {
        Some(st) => {
            proof {
                encode_utf8_decode_utf8(s);
            }
            st
        },
        None => unreached(),
    }
}

pub fn encode_user(u: &User) -> (r: Vec<u8>)
    ensures
        r@ == enc_user(u@),
        user_ok(u@),
{
    let mut out: Vec<u8> = Vec::new();
    write_u64(&mut out, u.id);
    write_u64(&mut out, u.created_at);
    write_tail_str(&mut out, &u.username);
    proof {
        assert(out@ =~= enc_user(u@));
    }
    out
}

pub fn decode_user(b: &Vec<u8>) -> (r: User)
    requires
        exists|v: UserV| user_ok(v) && b@ == enc_user(v),
    ensures
        user_ok(r@),
        b@ == enc_user(r@),
{
    let ghost v = choose|v: UserV| user_ok(v) && b@ == enc_user(v);
    proof {
        assert(b@.subrange(0, 8) =~= enc_u64(v.id));
        assert(b@.subrange(8, 16) =~= enc_u64(v.created_at));
        assert(b@.subrange(16, b@.len() as int) =~= encode_utf8(v.username));
    }
    let id = read_u64(b, 0);
    let created_at = read_u64(b, 8);
    proof {
        lemma_enc_u64_injective(id, v.id);
        lemma_enc_u64_injective(created_at, v.created_at);
    }
    let username = read_tail_str(b, 16, Ghost(v.username));
    let u = User { username, id, created_at };
    proof {
        assert(u@ == v);
    }
    u
}

pub fn encode_discussion(d: &Discussion) -> (r: Vec<u8>)
    ensures
        r@ == enc_discussion(d@),
        discussion_ok(d@),
{
    let mut out: Vec<u8> = Vec::new();
    write_u64(&mut out, d.id);
    write_u64(&mut out, d.created_at);
    write_u64(&mut out, d.upvotes);
    write_u64(&mut out, d.downvotes);
    write_str(&mut out, &d.created_by);
    write_tail_str(&mut out, &d.topic);
    proof {
        assert(out@ =~= enc_discussion(d@));
    }
    out
}

pub fn decode_discussion(b: &Vec<u8>) -> (r: Discussion)
    requires
        exists|v: DiscussionV| discussion_ok(v) && b@ == enc_discussion(v),
    ensures
        discussion_ok(r@),
        b@ == enc_discussion(r@),
{
    let ghost v = choose|v: DiscussionV| discussion_ok(v) && b@ == enc_discussion(v);
    proof {
        assert(b@.subrange(0, 8) =~= enc_u64(v.id));
        assert(b@.subrange(8, 16) =~= enc_u64(v.created_at));
        assert(b@.subrange(16, 24) =~= enc_u64(v.upvotes));
        assert(b@.subrange(24, 32) =~= enc_u64(v.downvotes));
        assert(b@.subrange(32, 32 + enc_str(v.created_by).len() as int) =~= enc_str(
            v.created_by));
    }
    let id = read_u64(b, 0);
    let created_at = read_u64(b, 8);
    let upvotes = read_u64(b, 16);
    let downvotes = read_u64(b, 24);
    proof {
        lemma_enc_u64_injective(id, v.id);
        lemma_enc_u64_injective(created_at, v.created_at);
        lemma_enc_u64_injective(upvotes, v.upvotes);
        lemma_enc_u64_injective(downvotes, v.downvotes);
    }
    let (created_by, off) = read_str(b, 32, Ghost(v.created_by));
    proof {
        assert(b@.subrange(off as int, b@.len() as int) =~= encode_utf8(v.topic));
    }
    let topic = read_tail_str(b, off, Ghost(v.topic));
    let d = Discussion { id, topic, created_by, created_at, upvotes, downvotes };
    proof {
        assert(d@ == v);
    }
    d
}

pub fn encode_vote(v: &Vote) -> (r: Vec<u8>)
    ensures
        r@ == enc_vote(v@),
        vote_ok(v@),
{
    let mut out: Vec<u8> = Vec::new();
    write_u64(&mut out, v.id);
    write_u64(&mut out, v.discussion_id);
    write_u64(&mut out, v.created_at);
    match v.vote_type {
        VoteType::Upvote => out.push(0u8),
        VoteType::Downvote => out.push(1u8),
    }
    write_tail_str(&mut out, &v.by);
    proof {
        assert(out@ =~= enc_vote(v@));
    }
    out
}

pub fn decode_vote(b: &Vec<u8>) -> (r: Vote)
    requires
        exists|v: VoteV| vote_ok(v) && b@ == enc_vote(v),
    ensures
        vote_ok(r@),
        b@ == enc_vote(r@),
{
    let ghost v = choose|v: VoteV| vote_ok(v) && b@ == enc_vote(v);
    proof {
        assert(b@.subrange(0, 8) =~= enc_u64(v.id));
        assert(b@.subrange(8, 16) =~= enc_u64(v.discussion_id));
        assert(b@.subrange(16, 24) =~= enc_u64(v.created_at));
        assert(b@[24] == enc_vote_type(v.vote_type)[0]);
        assert(b@.subrange(25, b@.len() as int) =~= encode_utf8(v.by));
    }
    let id = read_u64(b, 0);
    let discussion_id = read_u64(b, 8);
    let created_at = read_u64(b, 16);
    proof {
        lemma_enc_u64_injective(id, v.id);
        lemma_enc_u64_injective(discussion_id, v.discussion_id);
        lemma_enc_u64_injective(created_at, v.created_at);
    }
    let tag = b[24];
    let vote_type = if tag == 0u8 {
        VoteType::Upvote
    } else {
        VoteType::Downvote
    };
    let by = read_tail_str(b, 25, Ghost(v.by));
    let vt = Vote { id, by, discussion_id, vote_type, created_at };
    proof {
        assert(vt@ == v);
    }
    vt
}

} // verus!
