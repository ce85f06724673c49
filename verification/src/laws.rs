//! Laws that relate several transitions.
//!
//! Each transition's own contract carries its single-step laws (the
//! conservation of committed credit and counted capacity, the approval
//! limits, the refund equation, the idempotence of repeated verdicts);
//! this module states the laws that need two transitions side by side.

use vstd::prelude::*;

use crate::bmap::map_get;
use crate::state::{
    spec_add_blob_post, spec_delete_post, spec_exp, spec_sub_of, subs_get, State,
};
use crate::types::{Account, Blob};

verus! {

/// Deleting a subscription before its expiry and re-adding it with
/// identical parameters at the same epoch restores the accounts, the
/// blobs and the expiry index: the refund of the remaining term equals
/// the charge for the fresh one.  The law is stated for a subscription
/// added at that very epoch on an account already debited through it (so
/// no time-based debit interferes), carrying no delegation, on a blob
/// whose resolution has not failed.
pub proof fn lemma_delete_then_readd_restores(
    s0: State,
    s1: State,
    s2: State,
    payer: Seq<u8>,
    hash: Seq<u8>,
    id: Seq<u8>,
    epoch: i64,
    t: i64,
    size: u64,
    source: Seq<u8>,
    metadata: Seq<u8>,
    acct1: Account,
    deleted: bool,
    acct2: Account,
)
    requires
        1 <= t,
        epoch + t <= i64::MAX as int,
        (match spec_sub_of(s0.blobs, hash, payer, id) {
            Some(sub) => sub.added == epoch && sub.expiry == epoch + t && !sub.failed
                && sub.delegate is None && !sub.auto_renew && sub.source.bytes@ == source,
            None => false,
        }),
        (match map_get(s0.blobs@, hash) {
            Some(b) => b.status is Added && b.size == size && b.metadata_hash.bytes@ == metadata,
            None => false,
        }),
        (match map_get(s0.accounts@, payer) {
            Some(a) => a.last_debit_epoch == epoch,
            None => false,
        }),
        spec_exp(s0.expiries, (epoch + t) as i64, payer) == Some(hash),
        spec_delete_post(s0, s1, payer, hash, id, epoch, acct1, deleted),
        spec_add_blob_post(
            s1,
            s2,
            payer,
            payer,
            payer,
            false,
            source,
            hash,
            metadata,
            id,
            size,
            epoch + t,
            epoch,
            (t as int) * (size as int),
            0,
            acct2,
        ),
    ensures
        forall|k2: Seq<u8>|
            k2 != payer ==> map_get(s2.accounts@, k2) == map_get(s0.accounts@, k2),
        (match (map_get(s2.accounts@, payer), map_get(s0.accounts@, payer)) {
            (Some(x), Some(y)) => x.credit_free == y.credit_free && x.credit_committed
                == y.credit_committed && x.capacity_used == y.capacity_used && x.last_debit_epoch
                == y.last_debit_epoch && x.approvals == y.approvals,
            _ => false,
        }),
        forall|h2: Seq<u8>| h2 != hash ==> map_get(s2.blobs@, h2) == map_get(s0.blobs@, h2),
        (match (map_get(s2.blobs@, hash), map_get(s0.blobs@, hash)) {
            (Some(b2), Some(b0)) => b2.size == b0.size && b2.status == b0.status
                && b2.metadata_hash.bytes@ == b0.metadata_hash.bytes@,
            _ => false,
        }),
        (match (
            spec_sub_of(s2.blobs, hash, payer, id),
            spec_sub_of(s0.blobs, hash, payer, id),
        ) {
            (Some(n), Some(o)) => n.added == o.added && n.expiry == o.expiry && n.auto_renew
                == o.auto_renew && n.source.bytes@ == o.source.bytes@ && n.delegate is None
                && n.failed == o.failed,
            _ => false,
        }),
        forall|a2: Seq<u8>, i2: Seq<u8>|
            !(a2 == payer && i2 == id) ==> ((spec_sub_of(s2.blobs, hash, a2, i2) is Some)
                == (spec_sub_of(s0.blobs, hash, a2, i2) is Some)),
        forall|e2: i64, a2: Seq<u8>| spec_exp(s2.expiries, e2, a2) == spec_exp(s0.expiries, e2, a2),
{
    let sub = spec_sub_of(s0.blobs, hash, payer, id)->0;
    let a0 = map_get(s0.accounts@, payer)->0;
    // The deletion debits nothing (the account is already debited through
    // this epoch) and refunds the whole remaining term.
    assert(sub.expiry > epoch);
    assert(((epoch + t) - epoch) * (size as int) == (t as int) * (size as int)) by (nonlinear_arith);
    let a1 = map_get(s1.accounts@, payer)->0;
    assert(a1.credit_free == a0.credit_free + (t as int) * (size as int));
    assert(a1.credit_committed == a0.credit_committed - (t as int) * (size as int));
    assert(a1.capacity_used == a0.capacity_used - size);
    assert(a1.last_debit_epoch == epoch);
    // The fresh addition charges exactly that refund back.
    let a2v = map_get(s2.accounts@, payer)->0;
    assert(spec_sub_of(s1.blobs, hash, payer, id) is None);
    assert(a2v.credit_free == a0.credit_free);
    assert(a2v.credit_committed == a0.credit_committed);
    assert(a2v.capacity_used == a0.capacity_used);
    assert(a2v.approvals == a0.approvals);
    assert forall|k2: Seq<u8>| k2 != payer implies map_get(s2.accounts@, k2) == map_get(
        s0.accounts@,
        k2,
    ) by {
        assert(map_get(s1.accounts@, k2) == map_get(s0.accounts@, k2));
    }
    assert forall|h2: Seq<u8>| h2 != hash implies map_get(s2.blobs@, h2) == map_get(
        s0.blobs@,
        h2,
    ) by {
        assert(map_get(s1.blobs@, h2) == map_get(s0.blobs@, h2));
    }
    assert forall|a2: Seq<u8>, i2: Seq<u8>|
        !(a2 == payer && i2 == id) implies ((spec_sub_of(s2.blobs, hash, a2, i2) is Some) == (
    spec_sub_of(s0.blobs, hash, a2, i2) is Some)) by {
        if deleted {
            assert(spec_sub_of(s0.blobs, hash, a2, i2) is None);
            assert(map_get(s1.blobs@, hash) == None::<Blob>);
            let bb2 = map_get(s2.blobs@, hash)->0;
            assert(subs_get(bb2.subscribers, a2, i2) is None);
            assert(spec_sub_of(s2.blobs, hash, a2, i2) == subs_get(bb2.subscribers, a2, i2));
        } else {
            let bb0 = map_get(s0.blobs@, hash)->0;
            let bb1 = map_get(s1.blobs@, hash)->0;
            let bb2 = map_get(s2.blobs@, hash)->0;
            assert(subs_get(bb1.subscribers, a2, i2) == subs_get(bb0.subscribers, a2, i2));
            assert(subs_get(bb2.subscribers, a2, i2) == subs_get(bb1.subscribers, a2, i2));
            assert(spec_sub_of(s0.blobs, hash, a2, i2) == subs_get(bb0.subscribers, a2, i2));
            assert(spec_sub_of(s2.blobs, hash, a2, i2) == subs_get(bb2.subscribers, a2, i2));
        }
    }
    assert forall|e2: i64, a2: Seq<u8>| spec_exp(s2.expiries, e2, a2) == spec_exp(
        s0.expiries,
        e2,
        a2,
    ) by {
        if a2 == payer && e2 == sub.expiry {
            assert(spec_exp(s2.expiries, e2, a2) == Some(hash));
        } else {
            assert(spec_exp(s1.expiries, e2, a2) == spec_exp(s0.expiries, e2, a2));
        }
    }
}

} // verus!
