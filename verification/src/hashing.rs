//! Content digests: the engine identifies blobs, subscription keys and
//! read requests by 32-byte digests of their defining bytes.
//!
//! The digest function itself is an outside primitive; everything the
//! engine derives from a digest is verified against its named result.

use vstd::prelude::*;

use crate::types::{dup_bytes, Address, BlobHash, SubscriptionId};

verus! {

/// The 32-byte content digest of a byte string.
pub uninterp spec fn digest_of(data: Seq<u8>) -> Seq<u8>;

/// Relies on blake3::hash: the digest is a pure function of the input
/// bytes, 32 bytes long.
#[verifier::external_body]
pub fn blake3_digest(data: &Vec<u8>) -> (r: Vec<u8>)
    ensures
        r@ == digest_of(data@),
        r@.len() == 32,
{
    blake3::hash(data.as_slice()).as_bytes().to_vec()
}

/// The identifier encoding derived from user bytes: empty bytes stand for
/// the default identifier, anything else is keyed by its digest.
pub open spec fn sub_id_enc_of(data: Seq<u8>) -> Seq<u8> {
    if data.len() == 0 {
        Seq::<u8>::empty()
    } else {
        digest_of(data)
    }
}

impl SubscriptionId {
    /// Derives an identifier from user bytes: empty bytes collapse to the
    /// default identifier, anything else is keyed by the digest of the
    /// bytes, so arbitrary-length names compress to 32 bytes and two names
    /// collide exactly when their digests do.
    pub fn from(value: &Vec<u8>) -> (r: Self)
        ensures
            r.enc() == sub_id_enc_of(value@),
            r is Default <==> value@.len() == 0,
            r.wf(),
    {
        if value.len() == 0 {
            SubscriptionId::Default
        } else {
            SubscriptionId::Key(blake3_digest(value))
        }
    }
}

/// Two non-empty names derive the same identifier exactly when their
/// digests are equal; an empty name always derives the default identifier.
pub proof fn lemma_sub_id_collapse(a: Seq<u8>, b: Seq<u8>)
    requires
        a.len() > 0,
        b.len() > 0,
    ensures
        (sub_id_enc_of(a) == sub_id_enc_of(b)) <==> (digest_of(a) == digest_of(b)),
        sub_id_enc_of(Seq::<u8>::empty()) == Seq::<u8>::empty(),
{
}

/// The big-endian bytes of a 32-bit value.
pub open spec fn be4(x: u32) -> Seq<u8> {
    seq![(x >> 24) as u8, (x >> 16) as u8, (x >> 8) as u8, x as u8]
}

/// The big-endian bytes of a 64-bit value.
pub open spec fn be8(x: u64) -> Seq<u8> {
    seq![
        (x >> 56) as u8,
        (x >> 48) as u8,
        (x >> 40) as u8,
        (x >> 32) as u8,
        (x >> 24) as u8,
        (x >> 16) as u8,
        (x >> 8) as u8,
        x as u8,
    ]
}

/// The bytes a read request is identified by: the blob digest, the offset,
/// the callback address and method, and the epoch, in order.
pub open spec fn req_preimage(
    hash: Seq<u8>,
    offset: u32,
    addr: Seq<u8>,
    method: u64,
    epoch: i64,
) -> Seq<u8> {
    hash + be4(offset) + addr + be8(method) + be8(epoch as u64)
}

/// The identifier of a read request: the digest of its defining bytes.
pub open spec fn req_id_of(
    hash: Seq<u8>,
    offset: u32,
    addr: Seq<u8>,
    method: u64,
    epoch: i64,
) -> Seq<u8> {
    digest_of(req_preimage(hash, offset, addr, method, epoch))
}

fn push_be4(out: &mut Vec<u8>, x: u32)
    ensures
        final(out)@ == old(out)@ + be4(x),
{
    out.push(#[verifier::truncate] ((x >> 24) as u8));
    out.push(#[verifier::truncate] ((x >> 16) as u8));
    out.push(#[verifier::truncate] ((x >> 8) as u8));
    out.push(#[verifier::truncate] (x as u8));
    proof {
        assert(out@ =~= old(out)@ + be4(x));
    }
}

fn push_be8(out: &mut Vec<u8>, x: u64)
    ensures
        final(out)@ == old(out)@ + be8(x),
{
    out.push(#[verifier::truncate] ((x >> 56) as u8));
    out.push(#[verifier::truncate] ((x >> 48) as u8));
    out.push(#[verifier::truncate] ((x >> 40) as u8));
    out.push(#[verifier::truncate] ((x >> 32) as u8));
    out.push(#[verifier::truncate] ((x >> 24) as u8));
    out.push(#[verifier::truncate] ((x >> 16) as u8));
    out.push(#[verifier::truncate] ((x >> 8) as u8));
    out.push(#[verifier::truncate] (x as u8));
    proof {
        assert(out@ =~= old(out)@ + be8(x));
    }
}

/// Derives the identifier of a read request.
pub fn derive_request_id(
    hash: &BlobHash,
    offset: u32,
    callback_addr: &Address,
    callback_method: u64,
    epoch: i64,
) -> (r: BlobHash)
    ensures
        r.bytes@ == req_id_of(
            hash.bytes@,
            offset,
            callback_addr.bytes@,
            callback_method,
            epoch,
        ),
        r.wf(),
{
    let mut pre = dup_bytes(&hash.bytes);
    push_be4(&mut pre, offset);
    let mut addr = dup_bytes(&callback_addr.bytes);
    let ghost before = pre@;
    pre.append(&mut addr);
    proof {
        assert(pre@ =~= before + callback_addr.bytes@);
    }
    push_be8(&mut pre, callback_method);
    push_be8(&mut pre, #[verifier::truncate] (epoch as u64));
    proof {
        assert(pre@ =~= req_preimage(
            hash.bytes@,
            offset,
            callback_addr.bytes@,
            callback_method,
            epoch,
        ));
    }
    BlobHash { bytes: blake3_digest(&pre) }
}

} // verus!
