//! The wire form of call parameters: length-prefixed tuples of
//! big-endian scalars and raw bytes.
//!
//! Encoding is a concrete specification function; the encoder produces
//! exactly that byte string, the decoder accepts exactly the byte strings
//! the encoder produces and hands back values that re-encode to the
//! input, and the encoding is proved one-to-one, so decoding an encoding
//! always yields the original value.

use vstd::prelude::*;

use crate::hashing::be8;
use crate::params::{AddBlobParams, FinalizeBlobParams};
use crate::types::{dup_bytes, Address, BlobError, BlobHash, BlobStatus, PublicKey, SubscriptionId};

verus! {

/// A byte string on the wire: its length, then its bytes.
pub open spec fn enc_bytes(s: Seq<u8>) -> Seq<u8> {
    be8(s.len() as u64) + s
}

/// A status on the wire: one tag byte.
pub open spec fn enc_status(st: BlobStatus) -> Seq<u8> {
    seq![
        match st {
            BlobStatus::Added => 0u8,
            BlobStatus::Pending => 1u8,
            BlobStatus::Resolved => 2u8,
            BlobStatus::Failed => 3u8,
        },
    ]
}

/// The finalize-verdict tuple on the wire: subscriber, blob digest,
/// subscription identifier, status, in order.
pub open spec fn enc_finalize(
    subscriber: Seq<u8>,
    hash: Seq<u8>,
    id: Seq<u8>,
    status: BlobStatus,
) -> Seq<u8> {
    enc_bytes(subscriber) + enc_bytes(hash) + enc_bytes(id) + enc_status(status)
}

/// Eight big-endian bytes pin down the value they encode.
proof fn lemma_be8_inj(x: u64, y: u64)
    requires
        be8(x) == be8(y),
    ensures
        x == y,
{
    assert(be8(x)[0] == be8(y)[0]);
    assert(be8(x)[1] == be8(y)[1]);
    assert(be8(x)[2] == be8(y)[2]);
    assert(be8(x)[3] == be8(y)[3]);
    assert(be8(x)[4] == be8(y)[4]);
    assert(be8(x)[5] == be8(y)[5]);
    assert(be8(x)[6] == be8(y)[6]);
    assert(be8(x)[7] == be8(y)[7]);
    assert(x == y) by (bit_vector)
        requires
            (x >> 56) as u8 == (y >> 56) as u8,
            (x >> 48) as u8 == (y >> 48) as u8,
            (x >> 40) as u8 == (y >> 40) as u8,
            (x >> 32) as u8 == (y >> 32) as u8,
            (x >> 24) as u8 == (y >> 24) as u8,
            (x >> 16) as u8 == (y >> 16) as u8,
            (x >> 8) as u8 == (y >> 8) as u8,
            x as u8 == y as u8,
    ;
}

/// A length-prefixed field followed by anything splits off unambiguously.
proof fn lemma_enc_bytes_prefix(x: Seq<u8>, y: Seq<u8>, r1: Seq<u8>, r2: Seq<u8>)
    requires
        x.len() < 0x10000000000000000,
        y.len() < 0x10000000000000000,
        enc_bytes(x) + r1 == enc_bytes(y) + r2,
    ensures
        x == y,
        r1 == r2,
{
    let s1 = enc_bytes(x) + r1;
    let s2 = enc_bytes(y) + r2;
    assert(be8(x.len() as u64) =~= s1.subrange(0, 8));
    assert(be8(y.len() as u64) =~= s2.subrange(0, 8));
    lemma_be8_inj(x.len() as u64, y.len() as u64);
    assert(x.len() == y.len());
    assert(x =~= s1.subrange(8, 8 + x.len() as int));
    assert(y =~= s2.subrange(8, 8 + y.len() as int));
    assert(x =~= y);
    assert(r1 =~= s1.subrange(8 + x.len() as int, s1.len() as int));
    assert(r2 =~= s2.subrange(8 + y.len() as int, s2.len() as int));
    assert(r1 =~= r2);
}

/// The encoding of the finalize-verdict tuple is one-to-one: equal wire
/// forms come from equal values.  Together with the decoder's contract
/// this says that decoding an encoding always yields the original tuple.
pub proof fn lemma_enc_finalize_inj(
    s1: Seq<u8>,
    h1: Seq<u8>,
    i1: Seq<u8>,
    t1: BlobStatus,
    s2: Seq<u8>,
    h2: Seq<u8>,
    i2: Seq<u8>,
    t2: BlobStatus,
)
    requires
        s1.len() < 0x10000000000000000,
        h1.len() < 0x10000000000000000,
        i1.len() < 0x10000000000000000,
        s2.len() < 0x10000000000000000,
        h2.len() < 0x10000000000000000,
        i2.len() < 0x10000000000000000,
        enc_finalize(s1, h1, i1, t1) == enc_finalize(s2, h2, i2, t2),
    ensures
        s1 == s2,
        h1 == h2,
        i1 == i2,
        t1 == t2,
{
    let tail1 = enc_bytes(h1) + enc_bytes(i1) + enc_status(t1);
    let tail2 = enc_bytes(h2) + enc_bytes(i2) + enc_status(t2);
    assert(enc_bytes(s1) + tail1 =~= enc_finalize(s1, h1, i1, t1));
    assert(enc_bytes(s2) + tail2 =~= enc_finalize(s2, h2, i2, t2));
    lemma_enc_bytes_prefix(s1, s2, tail1, tail2);
    let tail1b = enc_bytes(i1) + enc_status(t1);
    let tail2b = enc_bytes(i2) + enc_status(t2);
    assert(enc_bytes(h1) + tail1b =~= tail1);
    assert(enc_bytes(h2) + tail2b =~= tail2);
    lemma_enc_bytes_prefix(h1, h2, tail1b, tail2b);
    lemma_enc_bytes_prefix(i1, i2, enc_status(t1), enc_status(t2));
    assert(enc_status(t1)[0] == enc_status(t2)[0]);
    assert(t1 == t2);
}

fn push_len(out: &mut Vec<u8>, n: usize)
    ensures
        final(out)@ == old(out)@ + be8(n as u64),
{
    push_u64(out, n as u64);
}

fn push_u64(out: &mut Vec<u8>, x: u64)
    ensures
        final(out)@ == old(out)@ + be8(x),
{
    out.push(#[verifier::truncate] ((x >> 56) as u8));
    out.push(#[verifier::truncate] ((x >> 48) as u8));
    out.push(#[verifier::truncate] ((x >> 40) as u8));
    out.push(#[verifier::truncate] ((x >> 32) as u8));
    out.push(#[verifier::truncate] ((x >> 24) as u8));
    out.push(#[verifier::truncate] ((x >> 16) as u8));
    out.push(#[verifier::truncate] ((x >> 8) as u8));
    out.push(#[verifier::truncate] (x as u8));
    proof {
        assert(out@ =~= old(out)@ + be8(x));
    }
}

fn push_field(out: &mut Vec<u8>, data: &Vec<u8>)
    ensures
        final(out)@ == old(out)@ + enc_bytes(data@),
{
    push_len(out, data.len());
    let ghost mid = out@;
    let mut copy = dup_bytes(data);
    out.append(&mut copy);
    proof {
        assert(out@ =~= old(out)@ + enc_bytes(data@));
    }
}

/// Encodes the finalize-verdict tuple.
pub fn encode_finalize_params(p: &FinalizeBlobParams) -> (r: Vec<u8>)
    ensures
        r@ == enc_finalize(p.subscriber.bytes@, p.hash.bytes@, p.id.enc(), p.status),
{
    let mut out: Vec<u8> = Vec::new();
    push_field(&mut out, &p.subscriber.bytes);
    push_field(&mut out, &p.hash.bytes);
    let idb = p.id.to_bytes();
    push_field(&mut out, &idb);
    let tag: u8 = match p.status {
        BlobStatus::Added => 0,
        BlobStatus::Pending => 1,
        BlobStatus::Resolved => 2,
        BlobStatus::Failed => 3,
    };
    out.push(tag);
    proof {
        assert(out@ =~= enc_finalize(p.subscriber.bytes@, p.hash.bytes@, p.id.enc(), p.status));
    }
    out
}

/// Reads the eight-byte length at `at`; the caller has checked the bound.
fn read_len(d: &Vec<u8>, at: usize) -> (r: u64)
    requires
        at + 8 <= d@.len(),
    ensures
        be8(r) == d@.subrange(at as int, at as int + 8),
{
    let n = d.len();
    let r = ((d[at] as u64) << 56) | ((d[at + 1] as u64) << 48) | ((d[at + 2] as u64) << 40) | (
    (d[at + 3] as u64) << 32) | ((d[at + 4] as u64) << 24) | ((d[at + 5] as u64) << 16) | ((d[at
        + 6] as u64) << 8) | (d[at + 7] as u64);
    proof {
        let b0 = d@[at as int];
        let b1 = d@[at as int + 1];
        let b2 = d@[at as int + 2];
        let b3 = d@[at as int + 3];
        let b4 = d@[at as int + 4];
        let b5 = d@[at as int + 5];
        let b6 = d@[at as int + 6];
        let b7 = d@[at as int + 7];
        let x = r;
        assert((x >> 56) as u8 == b0 && (x >> 48) as u8 == b1 && (x >> 40) as u8 == b2 && (x
            >> 32) as u8 == b3 && (x >> 24) as u8 == b4 && (x >> 16) as u8 == b5 && (x >> 8) as u8
            == b6 && x as u8 == b7) by (bit_vector)
            requires
                x == ((b0 as u64) << 56) | ((b1 as u64) << 48) | ((b2 as u64) << 40) | ((
                b3 as u64) << 32) | ((b4 as u64) << 24) | ((b5 as u64) << 16) | ((b6 as u64) << 8)
                    | (b7 as u64),
        ;
        assert(be8(r) =~= d@.subrange(at as int, at as int + 8));
    }
    r
}

/// Copies `len` bytes starting at `at`.
fn read_bytes(d: &Vec<u8>, at: usize, len: usize) -> (r: Vec<u8>)
    requires
        at + len <= d@.len(),
    ensures
        r@ == d@.subrange(at as int, at as int + len as int),
{
    let n = d.len();
    let mut r: Vec<u8> = Vec::new();
    let mut i: usize = 0;
    while i < len
        invariant
            0 <= i <= len,
            at + len <= d@.len(),
            n == d@.len(),
            r@ == d@.subrange(at as int, at as int + i as int),
        decreases len - i,
    {
        r.push(d[at + i]);
        proof {
            assert(r@ =~= d@.subrange(at as int, at as int + i as int + 1));
        }
        i = i + 1;
    }
    r
}

/// Whether the bytes are the wire form of some finalize-verdict tuple.
pub open spec fn finalize_wire_ok(d: Seq<u8>) -> bool {
    exists|s: Seq<u8>, h: Seq<u8>, i: Seq<u8>, t: BlobStatus|
        s.len() < 0x10000000000000000 && h.len() < 0x10000000000000000 && i.len()
            < 0x10000000000000000 && #[trigger] enc_finalize(s, h, i, t) == d
}

/// The field lengths and layout any finalize-verdict wire form must have.
proof fn lemma_finalize_wire_fields(d: Seq<u8>) -> (r: (int, int, int))
    requires
        finalize_wire_ok(d),
    ensures
        0 <= r.0 < 0x10000000000000000,
        0 <= r.1 < 0x10000000000000000,
        0 <= r.2 < 0x10000000000000000,
        d.len() == 25 + r.0 + r.1 + r.2,
        be8(r.0 as u64) == d.subrange(0, 8),
        be8(r.1 as u64) == d.subrange(8 + r.0, 16 + r.0),
        be8(r.2 as u64) == d.subrange(16 + r.0 + r.1, 24 + r.0 + r.1),
        d[d.len() - 1] == 0 || d[d.len() - 1] == 1 || d[d.len() - 1] == 2 || d[d.len() - 1] == 3,
{
    let (s, h, i, t) = choose|s: Seq<u8>, h: Seq<u8>, i: Seq<u8>, t: BlobStatus|
        s.len() < 0x10000000000000000 && h.len() < 0x10000000000000000 && i.len()
            < 0x10000000000000000 && #[trigger] enc_finalize(s, h, i, t) == d;
    let sl = s.len() as int;
    let hl = h.len() as int;
    let il = i.len() as int;
    assert(d.len() == 25 + sl + hl + il);
    assert(be8(sl as u64) =~= d.subrange(0, 8));
    assert(be8(hl as u64) =~= d.subrange(8 + sl, 16 + sl));
    assert(be8(il as u64) =~= d.subrange(16 + sl + hl, 24 + sl + hl));
    assert(d[d.len() - 1] == enc_status(t)[0]);
    (sl, hl, il)
}

/// Decodes a finalize-verdict tuple: accepted exactly when the bytes are
/// an encoding, and the decoded tuple re-encodes to the input, so it is
/// the tuple that was encoded.
#[verifier::rlimit(100)]
#[verifier::spinoff_prover]
pub fn decode_finalize_params(d: &Vec<u8>) -> (r: Result<FinalizeBlobParams, BlobError>)
    ensures
        match r {
            Ok(q) => enc_finalize(q.subscriber.bytes@, q.hash.bytes@, q.id.enc(), q.status) == d@
                && q.id.wf() && finalize_wire_ok(d@),
            Err(e) => e == BlobError::IllegalArgument && !finalize_wire_ok(d@),
        },
{
    let total = d.len();
    if total < 8 {
        proof {
            assert(!finalize_wire_ok(d@)) by {
                if finalize_wire_ok(d@) {
                    let fl = lemma_finalize_wire_fields(d@);
                }
            }
        }
        return Err(BlobError::IllegalArgument);
    }
    let l1 = read_len(d, 0);
    if l1 > (total - 8) as u64 {
        proof {
            assert(!finalize_wire_ok(d@)) by {
                if finalize_wire_ok(d@) {
                    let fl = lemma_finalize_wire_fields(d@);
                    lemma_be8_inj(l1, fl.0 as u64);
                }
            }
        }
        return Err(BlobError::IllegalArgument);
    }
    let l1s = l1 as usize;
    let subscriber = read_bytes(d, 8, l1s);
    let off1 = 8 + l1s;
    if total - off1 < 8 {
        proof {
            assert(!finalize_wire_ok(d@)) by {
                if finalize_wire_ok(d@) {
                    let fl = lemma_finalize_wire_fields(d@);
                    lemma_be8_inj(l1, fl.0 as u64);
                }
            }
        }
        return Err(BlobError::IllegalArgument);
    }
    let l2 = read_len(d, off1);
    if l2 > (total - off1 - 8) as u64 {
        proof {
            if finalize_wire_ok(d@) {
                let fl = lemma_finalize_wire_fields(d@);
                lemma_be8_inj(l1, fl.0 as u64);
                lemma_be8_inj(l2, fl.1 as u64);
            }
        }
        return Err(BlobError::IllegalArgument);
    }
    let l2s = l2 as usize;
    let hash_bytes = read_bytes(d, off1 + 8, l2s);
    let off2 = off1 + 8 + l2s;
    if total - off2 < 8 {
        proof {
            assert(!finalize_wire_ok(d@)) by {
                if finalize_wire_ok(d@) {
                    let fl = lemma_finalize_wire_fields(d@);
                    lemma_be8_inj(l1, fl.0 as u64);
                    lemma_be8_inj(l2, fl.1 as u64);
                }
            }
        }
        return Err(BlobError::IllegalArgument);
    }
    let l3 = read_len(d, off2);
    if l3 > (total - off2 - 8) as u64 {
        proof {
            if finalize_wire_ok(d@) {
                let fl = lemma_finalize_wire_fields(d@);
                lemma_be8_inj(l1, fl.0 as u64);
                lemma_be8_inj(l2, fl.1 as u64);
                lemma_be8_inj(l3, fl.2 as u64);
            }
        }
        return Err(BlobError::IllegalArgument);
    }
    let l3s = l3 as usize;
    let id_bytes = read_bytes(d, off2 + 8, l3s);
    let off3 = off2 + 8 + l3s;
    if total - off3 != 1 {
        proof {
            assert(!finalize_wire_ok(d@)) by {
                if finalize_wire_ok(d@) {
                    let fl = lemma_finalize_wire_fields(d@);
                    lemma_be8_inj(l1, fl.0 as u64);
                    lemma_be8_inj(l2, fl.1 as u64);
                    lemma_be8_inj(l3, fl.2 as u64);
                }
            }
        }
        return Err(BlobError::IllegalArgument);
    }
    let status = match d[off3] {
        0 => BlobStatus::Added,
        1 => BlobStatus::Pending,
        2 => BlobStatus::Resolved,
        3 => BlobStatus::Failed,
        _ => {
            proof {
                assert(!finalize_wire_ok(d@)) by {
                    if finalize_wire_ok(d@) {
                        let fl = lemma_finalize_wire_fields(d@);
                        lemma_be8_inj(l1, fl.0 as u64);
                        lemma_be8_inj(l2, fl.1 as u64);
                        lemma_be8_inj(l3, fl.2 as u64);
                    }
                }
            }
            return Err(BlobError::IllegalArgument);
        },
    };
    let id = if id_bytes.len() == 0 {
        SubscriptionId::Default
    } else {
        SubscriptionId::Key(id_bytes)
    };
    let q = FinalizeBlobParams {
        subscriber: Address { bytes: subscriber },
        hash: BlobHash { bytes: hash_bytes },
        id,
        status,
    };
    proof {
        assert(enc_finalize(q.subscriber.bytes@, q.hash.bytes@, q.id.enc(), q.status) =~= d@);
        assert(finalize_wire_ok(d@));
    }
    Ok(q)
}

/// An optional byte string on the wire: a tag byte, then the field.
pub open spec fn enc_opt_bytes(o: Option<Seq<u8>>) -> Seq<u8> {
    match o {
        None => seq![0u8],
        Some(b) => seq![1u8] + enc_bytes(b),
    }
}

/// An optional epoch count on the wire: a tag byte, then eight bytes.
pub open spec fn enc_opt_i64(o: Option<i64>) -> Seq<u8> {
    match o {
        None => seq![0u8],
        Some(v) => seq![1u8] + be8(v as u64),
    }
}

/// The blob-addition tuple on the wire: sponsor, source, blob digest,
/// metadata digest, identifier, size, time-to-live, in order.
pub open spec fn enc_add_blob(
    sponsor: Option<Seq<u8>>,
    source: Seq<u8>,
    hash: Seq<u8>,
    metadata: Seq<u8>,
    id: Seq<u8>,
    size: u64,
    ttl: Option<i64>,
) -> Seq<u8> {
    enc_opt_bytes(sponsor) + enc_bytes(source) + enc_bytes(hash) + enc_bytes(metadata) + enc_bytes(
        id,
    ) + be8(size) + enc_opt_i64(ttl)
}

/// An optional length-prefixed field followed by anything splits off
/// unambiguously.
proof fn lemma_enc_opt_bytes_prefix(
    x: Option<Seq<u8>>,
    y: Option<Seq<u8>>,
    r1: Seq<u8>,
    r2: Seq<u8>,
)
    requires
        (match x {
            Some(b) => b.len() < 0x10000000000000000,
            None => true,
        }),
        (match y {
            Some(b) => b.len() < 0x10000000000000000,
            None => true,
        }),
        enc_opt_bytes(x) + r1 == enc_opt_bytes(y) + r2,
    ensures
        (match (x, y) {
            (None, None) => true,
            (Some(bx), Some(by)) => bx == by,
            _ => false,
        }),
        r1 == r2,
{
    let s1 = enc_opt_bytes(x) + r1;
    let s2 = enc_opt_bytes(y) + r2;
    assert(s1[0] == s2[0]);
    match (x, y) {
        (None, None) => {
            assert(r1 =~= s1.subrange(1, s1.len() as int));
            assert(r2 =~= s2.subrange(1, s2.len() as int));
            assert(r1 =~= r2);
        },
        (Some(bx), Some(by)) => {
            let t1 = enc_bytes(bx) + r1;
            let t2 = enc_bytes(by) + r2;
            assert(t1 =~= s1.subrange(1, s1.len() as int));
            assert(t2 =~= s2.subrange(1, s2.len() as int));
            lemma_enc_bytes_prefix(bx, by, r1, r2);
        },
        _ => {},
    }
}

/// Eight fixed bytes followed by anything split off unambiguously.
proof fn lemma_be8_prefix(x: u64, y: u64, r1: Seq<u8>, r2: Seq<u8>)
    requires
        be8(x) + r1 == be8(y) + r2,
    ensures
        x == y,
        r1 == r2,
{
    let s1 = be8(x) + r1;
    let s2 = be8(y) + r2;
    assert(be8(x) =~= s1.subrange(0, 8));
    assert(be8(y) =~= s2.subrange(0, 8));
    lemma_be8_inj(x, y);
    assert(r1 =~= s1.subrange(8, s1.len() as int));
    assert(r2 =~= s2.subrange(8, s2.len() as int));
    assert(r1 =~= r2);
}

/// The encoding of the blob-addition tuple is one-to-one.  Together with
/// the decoder's contract this says that decoding an encoding always
/// yields the original tuple.
/// Peels the leading three fields off two equal blob-addition encodings.
proof fn lemma_enc_add_blob_head(
    sp1: Option<Seq<u8>>,
    so1: Seq<u8>,
    h1: Seq<u8>,
    r1: Seq<u8>,
    sp2: Option<Seq<u8>>,
    so2: Seq<u8>,
    h2: Seq<u8>,
    r2: Seq<u8>,
)
    requires
        (match sp1 {
            Some(b) => b.len() < 0x10000000000000000,
            None => true,
        }),
        (match sp2 {
            Some(b) => b.len() < 0x10000000000000000,
            None => true,
        }),
        so1.len() < 0x10000000000000000,
        h1.len() < 0x10000000000000000,
        so2.len() < 0x10000000000000000,
        h2.len() < 0x10000000000000000,
        enc_opt_bytes(sp1) + enc_bytes(so1) + enc_bytes(h1) + r1 == enc_opt_bytes(sp2) + enc_bytes(
            so2,
        ) + enc_bytes(h2) + r2,
    ensures
        (match (sp1, sp2) {
            (None, None) => true,
            (Some(a), Some(b)) => a == b,
            _ => false,
        }),
        so1 == so2,
        h1 == h2,
        r1 == r2,
{
    let ta1 = enc_bytes(so1) + enc_bytes(h1) + r1;
    let ta2 = enc_bytes(so2) + enc_bytes(h2) + r2;
    assert(enc_opt_bytes(sp1) + ta1 =~= enc_opt_bytes(sp1) + enc_bytes(so1) + enc_bytes(h1) + r1);
    assert(enc_opt_bytes(sp2) + ta2 =~= enc_opt_bytes(sp2) + enc_bytes(so2) + enc_bytes(h2) + r2);
    lemma_enc_opt_bytes_prefix(sp1, sp2, ta1, ta2);
    let tb1 = enc_bytes(h1) + r1;
    let tb2 = enc_bytes(h2) + r2;
    assert(enc_bytes(so1) + tb1 =~= ta1);
    assert(enc_bytes(so2) + tb2 =~= ta2);
    lemma_enc_bytes_prefix(so1, so2, tb1, tb2);
    lemma_enc_bytes_prefix(h1, h2, r1, r2);
}

/// The encoding of the blob-addition tuple is one-to-one.  Together with
/// the decoder's contract this says that decoding an encoding always
/// yields the original tuple.
#[verifier::rlimit(100)]
#[verifier::spinoff_prover]
pub proof fn lemma_enc_add_blob_inj(
    sp1: Option<Seq<u8>>,
    so1: Seq<u8>,
    h1: Seq<u8>,
    m1: Seq<u8>,
    i1: Seq<u8>,
    z1: u64,
    t1: Option<i64>,
    sp2: Option<Seq<u8>>,
    so2: Seq<u8>,
    h2: Seq<u8>,
    m2: Seq<u8>,
    i2: Seq<u8>,
    z2: u64,
    t2: Option<i64>,
)
    requires
        (match sp1 {
            Some(b) => b.len() < 0x10000000000000000,
            None => true,
        }),
        (match sp2 {
            Some(b) => b.len() < 0x10000000000000000,
            None => true,
        }),
        so1.len() < 0x10000000000000000,
        h1.len() < 0x10000000000000000,
        m1.len() < 0x10000000000000000,
        i1.len() < 0x10000000000000000,
        so2.len() < 0x10000000000000000,
        h2.len() < 0x10000000000000000,
        m2.len() < 0x10000000000000000,
        i2.len() < 0x10000000000000000,
        enc_add_blob(sp1, so1, h1, m1, i1, z1, t1) == enc_add_blob(sp2, so2, h2, m2, i2, z2, t2),
    ensures
        (match (sp1, sp2) {
            (None, None) => true,
            (Some(a), Some(b)) => a == b,
            _ => false,
        }),
        so1 == so2,
        h1 == h2,
        m1 == m2,
        i1 == i2,
        z1 == z2,
        t1 == t2,
{
    let td1 = enc_bytes(m1) + enc_bytes(i1) + be8(z1) + enc_opt_i64(t1);
    let td2 = enc_bytes(m2) + enc_bytes(i2) + be8(z2) + enc_opt_i64(t2);
    assert(enc_opt_bytes(sp1) + enc_bytes(so1) + enc_bytes(h1) + td1 =~= enc_add_blob(
        sp1,
        so1,
        h1,
        m1,
        i1,
        z1,
        t1,
    ));
    assert(enc_opt_bytes(sp2) + enc_bytes(so2) + enc_bytes(h2) + td2 =~= enc_add_blob(
        sp2,
        so2,
        h2,
        m2,
        i2,
        z2,
        t2,
    ));
    lemma_enc_add_blob_head(sp1, so1, h1, td1, sp2, so2, h2, td2);
    let te1 = enc_bytes(i1) + be8(z1) + enc_opt_i64(t1);
    let te2 = enc_bytes(i2) + be8(z2) + enc_opt_i64(t2);
    assert(enc_bytes(m1) + te1 =~= td1);
    assert(enc_bytes(m2) + te2 =~= td2);
    lemma_enc_bytes_prefix(m1, m2, te1, te2);
    let tf1 = be8(z1) + enc_opt_i64(t1);
    let tf2 = be8(z2) + enc_opt_i64(t2);
    assert(enc_bytes(i1) + tf1 =~= te1);
    assert(enc_bytes(i2) + tf2 =~= te2);
    lemma_enc_bytes_prefix(i1, i2, tf1, tf2);
    lemma_be8_prefix(z1, z2, enc_opt_i64(t1), enc_opt_i64(t2));
    assert(enc_opt_i64(t1)[0] == enc_opt_i64(t2)[0]);
    match (t1, t2) {
        (Some(v1), Some(v2)) => {
            assert(be8(v1 as u64) =~= enc_opt_i64(t1).subrange(1, 9));
            assert(be8(v2 as u64) =~= enc_opt_i64(t2).subrange(1, 9));
            lemma_be8_inj(v1 as u64, v2 as u64);
            assert(v1 as u64 == v2 as u64);
            assert(v1 == v2) by (bit_vector)
                requires
                    v1 as u64 == v2 as u64,
            ;
        },
        _ => {},
    }
}

/// Encodes the blob-addition tuple.
pub fn encode_add_blob_params(p: &AddBlobParams) -> (r: Vec<u8>)
    ensures
        r@ == enc_add_blob(
            match p.sponsor {
                Some(sp) => Some(sp.bytes@),
                None => None,
            },
            p.source.bytes@,
            p.hash.bytes@,
            p.metadata_hash.bytes@,
            p.id.enc(),
            p.size,
            p.ttl,
        ),
{
    let mut out: Vec<u8> = Vec::new();
    match &p.sponsor {
        None => {
            out.push(0);
        },
        Some(sp) => {
            out.push(1);
            push_field(&mut out, &sp.bytes);
        },
    }
    let ghost after_sponsor = out@;
    push_field(&mut out, &p.source.bytes);
    push_field(&mut out, &p.hash.bytes);
    push_field(&mut out, &p.metadata_hash.bytes);
    let idb = p.id.to_bytes();
    push_field(&mut out, &idb);
    push_u64(&mut out, p.size);
    match p.ttl {
        None => {
            out.push(0);
        },
        Some(v) => {
            out.push(1);
            push_u64(&mut out, #[verifier::truncate] (v as u64));
        },
    }
    proof {
        assert(out@ =~= enc_add_blob(
            match p.sponsor {
                Some(sp) => Some(sp.bytes@),
                None => None,
            },
            p.source.bytes@,
            p.hash.bytes@,
            p.metadata_hash.bytes@,
            p.id.enc(),
            p.size,
            p.ttl,
        ));
    }
    out
}


/// Reads one length-prefixed field at `at`, handing back the bytes and
/// the position after them.
fn read_field(d: &Vec<u8>, at: usize) -> (r: Result<(Vec<u8>, usize), BlobError>)
    requires
        at <= d@.len(),
    ensures
        match r {
            Ok(p) => p.1 == at + 8 + p.0@.len() && p.1 <= d@.len() && enc_bytes(p.0@)
                == d@.subrange(at as int, p.1 as int),
            Err(e) => e == BlobError::IllegalArgument && forall|b: Seq<u8>|
                b.len() < 0x10000000000000000 && at + 8 + b.len() <= d@.len()
                    ==> #[trigger] enc_bytes(b) != d@.subrange(
                    at as int,
                    at as int + 8 + b.len() as int,
                ),
        },
{
    let total = d.len();
    if total - at < 8 {
        return Err(BlobError::IllegalArgument);
    }
    let l = read_len(d, at);
    if l > (total - at - 8) as u64 {
        proof {
            assert forall|b: Seq<u8>|
                b.len() < 0x10000000000000000 && at + 8 + b.len() <= d@.len() implies
                #[trigger] enc_bytes(b) != d@.subrange(
                at as int,
                at as int + 8 + b.len() as int,
            ) by {
                if enc_bytes(b) == d@.subrange(at as int, at as int + 8 + b.len() as int) {
                    assert(be8(b.len() as u64) =~= d@.subrange(at as int, at as int + 8));
                    lemma_be8_inj(b.len() as u64, l);
                }
            }
        }
        return Err(BlobError::IllegalArgument);
    }
    let b = read_bytes(d, at + 8, l as usize);
    let nxt = at + 8 + l as usize;
    proof {
        assert(enc_bytes(b@) =~= d@.subrange(at as int, nxt as int));
    }
    Ok((b, nxt))
}

/// Two length-prefixed fields read at the same position are the same
/// field.
proof fn lemma_field_at(d: Seq<u8>, p: int, x: Seq<u8>, y: Seq<u8>)
    requires
        0 <= p,
        x.len() < 0x10000000000000000,
        y.len() < 0x10000000000000000,
        p + 8 + x.len() <= d.len(),
        p + 8 + y.len() <= d.len(),
        enc_bytes(x) == d.subrange(p, p + 8 + x.len() as int),
        enc_bytes(y) == d.subrange(p, p + 8 + y.len() as int),
    ensures
        x.len() == y.len(),
        x == y,
{
    assert(be8(x.len() as u64) =~= d.subrange(p, p + 8));
    assert(be8(y.len() as u64) =~= d.subrange(p, p + 8));
    lemma_be8_inj(x.len() as u64, y.len() as u64);
    assert forall|j: int| 0 <= j < x.len() implies x[j] == y[j] by {
        assert(x[j] == enc_bytes(x)[8 + j]);
        assert(enc_bytes(x)[8 + j] == d.subrange(p, p + 8 + x.len() as int)[8 + j]);
        assert(y[j] == enc_bytes(y)[8 + j]);
        assert(enc_bytes(y)[8 + j] == d.subrange(p, p + 8 + y.len() as int)[8 + j]);
    }
    assert(x =~= y);
}

/// Whether the bytes are the wire form of some blob-addition tuple.
pub open spec fn add_blob_wire_ok(d: Seq<u8>) -> bool {
    exists|sp: Option<Seq<u8>>, so: Seq<u8>, h: Seq<u8>, m: Seq<u8>, i: Seq<u8>, z: u64, t: Option<
        i64,
    >|
        (match sp {
            Some(b) => b.len() < 0x10000000000000000,
            None => true,
        }) && so.len() < 0x10000000000000000 && h.len() < 0x10000000000000000 && m.len()
            < 0x10000000000000000 && i.len() < 0x10000000000000000 && #[trigger] enc_add_blob(
            sp,
            so,
            h,
            m,
            i,
            z,
            t,
        ) == d
}

/// The field lengths and layout any blob-addition wire form must have:
/// whether a sponsor is present, the five field lengths, and whether a
/// time-to-live is present.
#[verifier::rlimit(100)]
#[verifier::spinoff_prover]
proof fn lemma_add_blob_wire_fields(d: Seq<u8>) -> (r: (bool, int, int, int, int, int, bool))
    requires
        add_blob_wire_ok(d),
    ensures
        d.len() >= 42,
        d[0] == (if r.0 {
            1u8
        } else {
            0u8
        }),
        0 <= r.1 < 0x10000000000000000,
        0 <= r.2 < 0x10000000000000000,
        0 <= r.3 < 0x10000000000000000,
        0 <= r.4 < 0x10000000000000000,
        0 <= r.5 < 0x10000000000000000,
        !r.0 ==> r.1 == 0,
        ({
            let o1 = 1 + (if r.0 {
                8 + r.1
            } else {
                0int
            });
            let o2 = o1 + 8 + r.2;
            let o3 = o2 + 8 + r.3;
            let o4 = o3 + 8 + r.4;
            let o5 = o4 + 8 + r.5;
            &&& (r.0 ==> enc_bytes(d.subrange(9, 9 + r.1)) == d.subrange(1, 9 + r.1))
            &&& enc_bytes(d.subrange(o1 + 8, o1 + 8 + r.2)) == d.subrange(o1, o1 + 8 + r.2)
            &&& enc_bytes(d.subrange(o2 + 8, o2 + 8 + r.3)) == d.subrange(o2, o2 + 8 + r.3)
            &&& enc_bytes(d.subrange(o3 + 8, o3 + 8 + r.4)) == d.subrange(o3, o3 + 8 + r.4)
            &&& enc_bytes(d.subrange(o4 + 8, o4 + 8 + r.5)) == d.subrange(o4, o4 + 8 + r.5)
            &&& d[o5 + 8] == (if r.6 {
                1u8
            } else {
                0u8
            })
            &&& d.len() == o5 + 9 + (if r.6 {
                8int
            } else {
                0int
            })
        }),
{
    let (sp, so, h, m, i, z, t) = choose|
        sp: Option<Seq<u8>>,
        so: Seq<u8>,
        h: Seq<u8>,
        m: Seq<u8>,
        i: Seq<u8>,
        z: u64,
        t: Option<i64>,
    |
        (match sp {
            Some(b) => b.len() < 0x10000000000000000,
            None => true,
        }) && so.len() < 0x10000000000000000 && h.len() < 0x10000000000000000 && m.len()
            < 0x10000000000000000 && i.len() < 0x10000000000000000 && #[trigger] enc_add_blob(
            sp,
            so,
            h,
            m,
            i,
            z,
            t,
        ) == d;
    let has_sp = sp is Some;
    let spl: int = match sp {
        Some(b) => b.len() as int,
        None => 0,
    };
    let has_ttl = t is Some;
    let o1 = 1 + (if has_sp {
        8 + spl
    } else {
        0int
    });
    let o2 = o1 + 8 + so.len() as int;
    let o3 = o2 + 8 + h.len() as int;
    let o4 = o3 + 8 + m.len() as int;
    let o5 = o4 + 8 + i.len() as int;
    assert(d.len() == o5 + 9 + (if has_ttl {
        8int
    } else {
        0int
    }));
    assert(d[0] == (if has_sp {
        1u8
    } else {
        0u8
    }));
    if has_sp {
        let spb = sp->0;
        assert(spb =~= d.subrange(9, 9 + spl));
        assert(enc_bytes(spb) =~= d.subrange(1, 9 + spl));
    }
    assert(so =~= d.subrange(o1 + 8, o1 + 8 + so.len() as int));
    assert(enc_bytes(so) =~= d.subrange(o1, o1 + 8 + so.len() as int));
    assert(h =~= d.subrange(o2 + 8, o2 + 8 + h.len() as int));
    assert(enc_bytes(h) =~= d.subrange(o2, o2 + 8 + h.len() as int));
    assert(m =~= d.subrange(o3 + 8, o3 + 8 + m.len() as int));
    assert(enc_bytes(m) =~= d.subrange(o3, o3 + 8 + m.len() as int));
    assert(i =~= d.subrange(o4 + 8, o4 + 8 + i.len() as int));
    assert(enc_bytes(i) =~= d.subrange(o4, o4 + 8 + i.len() as int));
    assert(d[o5 + 8] == (if has_ttl {
        1u8
    } else {
        0u8
    }));
    (has_sp, spl, so.len() as int, h.len() as int, m.len() as int, i.len() as int, has_ttl)
}

/// The layout facts at the trailing size-and-ttl part of a blob-addition
/// wire form, given the five fields already read in front of it.
#[verifier::rlimit(100)]
#[verifier::spinoff_prover]
proof fn lemma_add_blob_tail(
    d: Seq<u8>,
    sp_present: bool,
    spb: Seq<u8>,
    sob: Seq<u8>,
    hb: Seq<u8>,
    mb: Seq<u8>,
    idbv: Seq<u8>,
    at_source: int,
    at_size: int,
)
    requires
        add_blob_wire_ok(d),
        d.len() >= 1,
        d[0] == (if sp_present {
            1u8
        } else {
            0u8
        }),
        sp_present ==> at_source == 9 + spb.len() && spb.len() < 0x10000000000000000
            && enc_bytes(spb) == d.subrange(1, 9 + spb.len() as int),
        !sp_present ==> at_source == 1,
        sob.len() < 0x10000000000000000,
        hb.len() < 0x10000000000000000,
        mb.len() < 0x10000000000000000,
        idbv.len() < 0x10000000000000000,
        at_source + 8 + sob.len() + 8 + hb.len() + 8 + mb.len() + 8 + idbv.len() == at_size,
        at_size <= d.len(),
        enc_bytes(sob) == d.subrange(at_source, at_source + 8 + sob.len() as int),
        enc_bytes(hb) == d.subrange(
            at_source + 8 + sob.len() as int,
            at_source + 8 + sob.len() + 8 + hb.len() as int,
        ),
        enc_bytes(mb) == d.subrange(
            at_source + 8 + sob.len() + 8 + hb.len() as int,
            at_source + 8 + sob.len() + 8 + hb.len() + 8 + mb.len() as int,
        ),
        enc_bytes(idbv) == d.subrange(
            at_source + 8 + sob.len() + 8 + hb.len() + 8 + mb.len() as int,
            at_size as int,
        ),
    ensures
        at_size + 9 <= d.len(),
        d[at_size + 8] == 0 || d[at_size + 8] == 1,
        d.len() == at_size + 9 + (if d[at_size + 8] == 1 {
            8int
        } else {
            0int
        }),
{
    let fl = lemma_add_blob_wire_fields(d);
    let o1 = 1 + (if fl.0 {
        8 + fl.1
    } else {
        0int
    });
    assert(fl.0 == sp_present);
    if fl.0 {
        lemma_field_at(d, 1, spb, d.subrange(9, 9 + fl.1));
    }
    assert(at_source == o1);
    let o2 = o1 + 8 + fl.2;
    let o3 = o2 + 8 + fl.3;
    let o4 = o3 + 8 + fl.4;
    let o5 = o4 + 8 + fl.5;
    lemma_field_at(d, o1, sob, d.subrange(o1 + 8, o1 + 8 + fl.2));
    lemma_field_at(d, o2, hb, d.subrange(o2 + 8, o2 + 8 + fl.3));
    lemma_field_at(d, o3, mb, d.subrange(o3 + 8, o3 + 8 + fl.4));
    lemma_field_at(d, o4, idbv, d.subrange(o4 + 8, o4 + 8 + fl.5));
    assert(at_size == o5);
}

/// Parses the leading five fields of a blob-addition wire form: the
/// optional sponsor, then source, blob digest, metadata digest and
/// identifier, handing back the bytes and the position after them.
#[verifier::rlimit(100)]
#[verifier::spinoff_prover]
fn parse_add_blob_head(d: &Vec<u8>) -> (r: Result<
    (Option<Vec<u8>>, Vec<u8>, Vec<u8>, Vec<u8>, Vec<u8>, usize),
    BlobError,
>)
    ensures
        match r {
            Ok(p) => {
                let at_source = 1 + (match p.0 {
                    Some(b) => 8 + b@.len() as int,
                    None => 0int,
                });
                &&& d@.len() >= 1
                &&& d@[0] == (match p.0 {
                    Some(b) => 1u8,
                    None => 0u8,
                })
                &&& (match p.0 {
                    Some(b) => enc_bytes(b@) == d@.subrange(1, 9 + b@.len() as int),
                    None => true,
                })
                &&& enc_bytes(p.1@) == d@.subrange(at_source, at_source + 8 + p.1@.len() as int)
                &&& enc_bytes(p.2@) == d@.subrange(
                    at_source + 8 + p.1@.len() as int,
                    at_source + 8 + p.1@.len() + 8 + p.2@.len() as int,
                )
                &&& enc_bytes(p.3@) == d@.subrange(
                    at_source + 8 + p.1@.len() + 8 + p.2@.len() as int,
                    at_source + 8 + p.1@.len() + 8 + p.2@.len() + 8 + p.3@.len() as int,
                )
                &&& enc_bytes(p.4@) == d@.subrange(
                    at_source + 8 + p.1@.len() + 8 + p.2@.len() + 8 + p.3@.len() as int,
                    at_source + 8 + p.1@.len() + 8 + p.2@.len() + 8 + p.3@.len() + 8
                        + p.4@.len() as int,
                )
                &&& p.5 == at_source + 8 + p.1@.len() + 8 + p.2@.len() + 8 + p.3@.len() + 8
                    + p.4@.len()
                &&& p.5 <= d@.len()
            },
            Err(e) => e == BlobError::IllegalArgument && !add_blob_wire_ok(d@),
        },
{
    let total = d.len();
    if total < 1 {
        proof {
            assert(!add_blob_wire_ok(d@)) by {
                if add_blob_wire_ok(d@) {
                    let fl = lemma_add_blob_wire_fields(d@);
                }
            }
        }
        return Err(BlobError::IllegalArgument);
    }
    let mut at: usize = 1;
    let ghost mut spb: Seq<u8> = Seq::empty();
    let sponsor_bytes: Option<Vec<u8>> = match d[0] {
        0 => None,
        1 => {
            let (b, nxt) = match read_field(d, at) {
                Ok(p) => p,
                Err(e) => {
                    proof {
                        assert(!add_blob_wire_ok(d@)) by {
                            if add_blob_wire_ok(d@) {
                                let fl = lemma_add_blob_wire_fields(d@);
                                assert(fl.0);
                                let bw = d@.subrange(9, 9 + fl.1);
                                assert(enc_bytes(bw) == d@.subrange(1, 9 + fl.1));
                                assert(1 + 8 + bw.len() <= d@.len());
                            }
                        }
                    }
                    return Err(e);
                },
            };
            proof {
                spb = b@;
            }
            at = nxt;
            Some(b)
        },
        _ => {
            proof {
                assert(!add_blob_wire_ok(d@)) by {
                    if add_blob_wire_ok(d@) {
                        let fl = lemma_add_blob_wire_fields(d@);
                    }
                }
            }
            return Err(BlobError::IllegalArgument);
        },
    };
    proof {
        assert((d@[0] == 1) == (sponsor_bytes is Some));
        assert(d@[0] == 0 || d@[0] == 1);
        if sponsor_bytes is Some {
            assert(at == 9 + spb.len());
            assert(enc_bytes(spb) == d@.subrange(1, 9 + spb.len() as int));
        } else {
            assert(at == 1);
        }
    }
    let ghost at_source = at as int;
    let ghost mut sob: Seq<u8> = Seq::empty();
    let ghost mut hb: Seq<u8> = Seq::empty();
    let ghost mut mb: Seq<u8> = Seq::empty();
    let ghost mut idbv: Seq<u8> = Seq::empty();
    let (source, at1) = match read_field(d, at) {
        Ok(p) => p,
        Err(e) => {
            proof {
                assert(!add_blob_wire_ok(d@)) by {
                    if add_blob_wire_ok(d@) {
            let fl = lemma_add_blob_wire_fields(d@);
            let o1 = 1 + (if fl.0 {
            8 + fl.1
            } else {
            0int
            });
            if fl.0 {
            lemma_field_at(d@, 1, spb, d@.subrange(9, 9 + fl.1));
            }
            assert(at_source == o1);
            let o2 = o1 + 8 + fl.2;
            let o3 = o2 + 8 + fl.3;
            let o4 = o3 + 8 + fl.4;
            let o5 = o4 + 8 + fl.5;
            let bw = d@.subrange(o1 + 8, o1 + 8 + fl.2);
            assert(enc_bytes(bw) == d@.subrange(o1, o1 + 8 + fl.2));
            assert(at_source + 8 + bw.len() <= d@.len());
                    }
                }
            }
            return Err(e);
        },
    };
    proof {
        sob = source@;
    }
    at = at1;
    let ghost at_hash = at as int;
    let (hash_bytes, at2) = match read_field(d, at) {
        Ok(p) => p,
        Err(e) => {
            proof {
                assert(!add_blob_wire_ok(d@)) by {
                    if add_blob_wire_ok(d@) {
            let fl = lemma_add_blob_wire_fields(d@);
            let o1 = 1 + (if fl.0 {
            8 + fl.1
            } else {
            0int
            });
            if fl.0 {
            lemma_field_at(d@, 1, spb, d@.subrange(9, 9 + fl.1));
            }
            assert(at_source == o1);
            let o2 = o1 + 8 + fl.2;
            let o3 = o2 + 8 + fl.3;
            let o4 = o3 + 8 + fl.4;
            let o5 = o4 + 8 + fl.5;
            lemma_field_at(
            d@,
            o1,
            sob,
            d@.subrange(o1 + 8, o1 + 8 + fl.2),
            );
            assert(at_hash == o1 + 8 + fl.2);
            let bw = d@.subrange(o2 + 8, o2 + 8 + fl.3);
            assert(enc_bytes(bw) == d@.subrange(o2, o2 + 8 + fl.3));
            assert(at_hash + 8 + bw.len() <= d@.len());
                    }
                }
            }
            return Err(e);
        },
    };
    proof {
        hb = hash_bytes@;
    }
    at = at2;
    let ghost at_meta = at as int;
    let (metadata_bytes, at3) = match read_field(d, at) {
        Ok(p) => p,
        Err(e) => {
            proof {
                assert(!add_blob_wire_ok(d@)) by {
                    if add_blob_wire_ok(d@) {
            let fl = lemma_add_blob_wire_fields(d@);
            let o1 = 1 + (if fl.0 {
            8 + fl.1
            } else {
            0int
            });
            if fl.0 {
            lemma_field_at(d@, 1, spb, d@.subrange(9, 9 + fl.1));
            }
            assert(at_source == o1);
            let o2 = o1 + 8 + fl.2;
            let o3 = o2 + 8 + fl.3;
            let o4 = o3 + 8 + fl.4;
            let o5 = o4 + 8 + fl.5;
            lemma_field_at(
            d@,
            o1,
            sob,
            d@.subrange(o1 + 8, o1 + 8 + fl.2),
            );
            assert(at_hash == o1 + 8 + fl.2);
            lemma_field_at(
            d@,
            o2,
            hb,
            d@.subrange(o2 + 8, o2 + 8 + fl.3),
            );
            assert(at_meta == o2 + 8 + fl.3);
            let bw = d@.subrange(o3 + 8, o3 + 8 + fl.4);
            assert(enc_bytes(bw) == d@.subrange(o3, o3 + 8 + fl.4));
            assert(at_meta + 8 + bw.len() <= d@.len());
                    }
                }
            }
            return Err(e);
        },
    };
    proof {
        mb = metadata_bytes@;
    }
    at = at3;
    let ghost at_id = at as int;
    let (id_bytes, at4) = match read_field(d, at) {
        Ok(p) => p,
        Err(e) => {
            proof {
                assert(!add_blob_wire_ok(d@)) by {
                    if add_blob_wire_ok(d@) {
            let fl = lemma_add_blob_wire_fields(d@);
            let o1 = 1 + (if fl.0 {
            8 + fl.1
            } else {
            0int
            });
            if fl.0 {
            lemma_field_at(d@, 1, spb, d@.subrange(9, 9 + fl.1));
            }
            assert(at_source == o1);
            let o2 = o1 + 8 + fl.2;
            let o3 = o2 + 8 + fl.3;
            let o4 = o3 + 8 + fl.4;
            let o5 = o4 + 8 + fl.5;
            lemma_field_at(
            d@,
            o1,
            sob,
            d@.subrange(o1 + 8, o1 + 8 + fl.2),
            );
            assert(at_hash == o1 + 8 + fl.2);
            lemma_field_at(
            d@,
            o2,
            hb,
            d@.subrange(o2 + 8, o2 + 8 + fl.3),
            );
            assert(at_meta == o2 + 8 + fl.3);
            lemma_field_at(
            d@,
            o3,
            mb,
            d@.subrange(o3 + 8, o3 + 8 + fl.4),
            );
            assert(at_id == o3 + 8 + fl.4);
            let bw = d@.subrange(o4 + 8, o4 + 8 + fl.5);
            assert(enc_bytes(bw) == d@.subrange(o4, o4 + 8 + fl.5));
            assert(at_id + 8 + bw.len() <= d@.len());
                    }
                }
            }
            return Err(e);
        },
    };
    proof {
        idbv = id_bytes@;
    }
    at = at4;
    Ok((sponsor_bytes, source, hash_bytes, metadata_bytes, id_bytes, at))
}

/// Decodes a blob-addition tuple: accepted exactly when the bytes are an
/// encoding, and the decoded tuple re-encodes to the input, so it is the
/// tuple that was encoded.
#[verifier::rlimit(100)]
#[verifier::spinoff_prover]
pub fn decode_add_blob_params(d: &Vec<u8>) -> (r: Result<AddBlobParams, BlobError>)
    ensures
        match r {
            Ok(q) => enc_add_blob(
                match q.sponsor {
                    Some(sp) => Some(sp.bytes@),
                    None => None,
                },
                q.source.bytes@,
                q.hash.bytes@,
                q.metadata_hash.bytes@,
                q.id.enc(),
                q.size,
                q.ttl,
            ) == d@ && q.id.wf() && add_blob_wire_ok(d@),
            Err(e) => e == BlobError::IllegalArgument && !add_blob_wire_ok(d@),
        },
{
    let total = d.len();
    let (sponsor_bytes, source, hash_bytes, metadata_bytes, id_bytes, at0) =
        match parse_add_blob_head(d) {
        Ok(p) => p,
        Err(e) => {
            return Err(e);
        },
    };
    let ghost spb: Seq<u8> = match &sponsor_bytes {
        Some(b) => b@,
        None => Seq::empty(),
    };
    let ghost sob = source@;
    let ghost hb = hash_bytes@;
    let ghost mb = metadata_bytes@;
    let ghost idbv = id_bytes@;
    let ghost at_source: int = 1 + (match &sponsor_bytes {
        Some(b) => 8 + b@.len() as int,
        None => 0int,
    });
    let ghost at_hash: int = at_source + 8 + sob.len();
    let ghost at_meta: int = at_hash + 8 + hb.len();
    let ghost at_id: int = at_meta + 8 + mb.len();
    let mut at = at0;
    let ghost at_size = at as int;
    let sponsor: Option<Address> = match sponsor_bytes {
        Some(b) => Some(Address { bytes: b }),
        None => None,
    };
    if total - at < 8 {
            proof {
                assert(!add_blob_wire_ok(d@)) by {
                    if add_blob_wire_ok(d@) {
                        lemma_add_blob_tail(
                            d@,
                            sponsor is Some,
                            spb,
                            sob,
                            hb,
                            mb,
                            idbv,
                            at_source,
                            at_size,
                        );
                    }
                }
            }
        return Err(BlobError::IllegalArgument);
    }
    let size = read_len(d, at);
    at = at + 8;
    let ghost at_ttl = at as int;
    if total - at < 1 {
            proof {
                assert(!add_blob_wire_ok(d@)) by {
                    if add_blob_wire_ok(d@) {
                        lemma_add_blob_tail(
                            d@,
                            sponsor is Some,
                            spb,
                            sob,
                            hb,
                            mb,
                            idbv,
                            at_source,
                            at_size,
                        );
                    }
                }
            }
        return Err(BlobError::IllegalArgument);
    }
    let ttl: Option<i64> = match d[at] {
        0 => {
            if total - at != 1 {
            proof {
                assert(!add_blob_wire_ok(d@)) by {
                    if add_blob_wire_ok(d@) {
                        lemma_add_blob_tail(
                            d@,
                            sponsor is Some,
                            spb,
                            sob,
                            hb,
                            mb,
                            idbv,
                            at_source,
                            at_size,
                        );
                    }
                }
            }
                return Err(BlobError::IllegalArgument);
            }
            None
        },
        1 => {
            if total - at != 9 {
            proof {
                assert(!add_blob_wire_ok(d@)) by {
                    if add_blob_wire_ok(d@) {
                        lemma_add_blob_tail(
                            d@,
                            sponsor is Some,
                            spb,
                            sob,
                            hb,
                            mb,
                            idbv,
                            at_source,
                            at_size,
                        );
                    }
                }
            }
                return Err(BlobError::IllegalArgument);
            }
            let x = read_len(d, at + 1);
            let v = #[verifier::truncate] (x as i64);
            proof {
                assert((v as u64) == x) by (bit_vector)
                    requires
                        v == x as i64,
                ;
            }
            Some(v)
        },
        _ => {
            proof {
                assert(!add_blob_wire_ok(d@)) by {
                    if add_blob_wire_ok(d@) {
                        lemma_add_blob_tail(
                            d@,
                            sponsor is Some,
                            spb,
                            sob,
                            hb,
                            mb,
                            idbv,
                            at_source,
                            at_size,
                        );
                    }
                }
            }
            return Err(BlobError::IllegalArgument);
        },
    };
    let id = if id_bytes.len() == 0 {
        SubscriptionId::Default
    } else {
        SubscriptionId::Key(id_bytes)
    };
    let q = AddBlobParams {
        sponsor,
        source: PublicKey { bytes: source },
        hash: BlobHash { bytes: hash_bytes },
        metadata_hash: BlobHash { bytes: metadata_bytes },
        id,
        size,
        ttl,
    };
    proof {
        let spv: Option<Seq<u8>> = match &q.sponsor {
            Some(sp) => Some(sp.bytes@),
            None => None,
        };
        let dd = d@;
        assert(enc_opt_bytes(spv) =~= dd.subrange(0, at_source));
        assert(be8(q.size) =~= dd.subrange(at_size, at_ttl));
        assert(enc_opt_i64(q.ttl) =~= dd.subrange(at_ttl, dd.len() as int));
        let c1 = enc_opt_bytes(spv);
        let c2 = c1 + enc_bytes(q.source.bytes@);
        let c3 = c2 + enc_bytes(q.hash.bytes@);
        let c4 = c3 + enc_bytes(q.metadata_hash.bytes@);
        let c5 = c4 + enc_bytes(q.id.enc());
        let c6 = c5 + be8(q.size);
        let c7 = c6 + enc_opt_i64(q.ttl);
        assert(c2 =~= dd.subrange(0, at_hash));
        assert(c3 =~= dd.subrange(0, at_meta));
        assert(c4 =~= dd.subrange(0, at_id));
        assert(c5 =~= dd.subrange(0, at_size));
        assert(c6 =~= dd.subrange(0, at_ttl));
        assert(c7 =~= dd);
        assert(enc_add_blob(
            spv,
            q.source.bytes@,
            q.hash.bytes@,
            q.metadata_hash.bytes@,
            q.id.enc(),
            q.size,
            q.ttl,
        ) =~= c7);
        assert(enc_add_blob(
            spv,
            q.source.bytes@,
            q.hash.bytes@,
            q.metadata_hash.bytes@,
            q.id.enc(),
            q.size,
            q.ttl,
        ) == dd);
        assert(add_blob_wire_ok(d@));
    }
    Ok(q)
}


} // verus!
