//! End-to-end exercises of the credit and subscription engine on concrete
//! values: purchases, subscriptions, sharing, failure refunds, deletion,
//! reaping, delegation, identifiers and read requests.

use blob_credits::state::State;
use blob_credits::types::{Address, BlobError, BlobHash, BlobStatus, PublicKey, SubscriptionId};
use blob_credits::MIN_TTL;

fn addr(b: u8) -> Address {
    Address { bytes: vec![b; 20] }
}

fn hash(b: u8) -> BlobHash {
    BlobHash { bytes: vec![b; 32] }
}

fn pk(b: u8) -> PublicKey {
    PublicKey { bytes: vec![b; 32] }
}

/// A fresh subnet with one million bytes of capacity selling one credit
/// per atto.
fn fresh() -> State {
    State::new(1_000_000, 1)
}

fn add_simple(
    st: &mut State,
    who: &Address,
    h: &BlobHash,
    src: &PublicKey,
    size: u64,
    ttl: i64,
    epoch: i64,
) -> Result<blob_credits::types::Account, BlobError> {
    st.add_blob(
        who,
        who,
        None,
        src,
        h,
        &hash(0xee),
        &SubscriptionId::Default,
        size,
        Some(ttl),
        epoch,
    )
}

#[test]
fn new_state_is_empty() {
    let st = fresh();
    assert_eq!(st.capacity_free, 1_000_000);
    assert_eq!(st.capacity_used, 0);
    assert_eq!(st.credit_sold, 0);
    assert_eq!(st.credit_committed, 0);
    assert_eq!(st.credit_debited, 0);
    assert_eq!(st.accounts.entries.len(), 0);
    assert_eq!(st.blobs.entries.len(), 0);
}

#[test]
fn buy_credit_mints_at_rate() {
    let mut st = State::new(1_000_000, 1000);
    let a = addr(1);
    let acct = st.buy_credit(&a, 1, 0).unwrap();
    assert_eq!(acct.credit_free, 1000);
    assert_eq!(acct.credit_committed, 0);
    assert_eq!(acct.last_debit_epoch, 0);
    assert_eq!(st.credit_sold, 1000);
    // A second purchase tops the same account up.
    let acct2 = st.buy_credit(&a, 2, 5).unwrap();
    assert_eq!(acct2.credit_free, 3000);
    assert_eq!(acct2.last_debit_epoch, 0);
    assert_eq!(st.credit_sold, 3000);
}

#[test]
fn buy_credit_rejected_at_capacity() {
    // capacity_used == capacity_free (both zero) means the subnet is full.
    let mut st = State::new(0, 1000);
    let e = st.buy_credit(&addr(1), 1, 0).unwrap_err();
    assert_eq!(e, BlobError::Capacity);
}

#[test]
fn buy_credit_overflow_rejected() {
    let mut st = State::new(1_000_000, u64::MAX);
    let e = st.buy_credit(&addr(1), u128::MAX, 0).unwrap_err();
    assert_eq!(e, BlobError::Overflow);
}

#[test]
fn add_blob_charges_full_term() {
    let mut st = fresh();
    let a = addr(1);
    st.buy_credit(&a, 1_000_000, 0).unwrap();
    let acct = add_simple(&mut st, &a, &hash(7), &pk(9), 100, MIN_TTL, 0).unwrap();
    let cost: i128 = 100 * MIN_TTL as i128;
    assert_eq!(acct.credit_free, 1_000_000 - cost);
    assert_eq!(acct.credit_committed, cost);
    assert_eq!(acct.capacity_used, 100);
    assert_eq!(st.capacity_used, 100);
    assert_eq!(st.credit_committed, cost);
    let b = st.get_blob(&hash(7)).unwrap();
    assert_eq!(b.size, 100);
    assert!(matches!(b.status, BlobStatus::Added));
}

#[test]
fn add_blob_ttl_boundary() {
    let mut st = fresh();
    let a = addr(1);
    st.buy_credit(&a, 1_000_000, 0).unwrap();
    let e = add_simple(&mut st, &a, &hash(7), &pk(9), 100, MIN_TTL - 1, 0).unwrap_err();
    assert_eq!(e, BlobError::IllegalArgument);
    assert!(add_simple(&mut st, &a, &hash(7), &pk(9), 100, MIN_TTL, 0).is_ok());
}

#[test]
fn add_blob_requires_account() {
    let mut st = fresh();
    let e = add_simple(&mut st, &addr(1), &hash(7), &pk(9), 100, MIN_TTL, 0).unwrap_err();
    assert_eq!(e, BlobError::NotFound);
}

#[test]
fn add_blob_insufficient_credit() {
    let mut st = fresh();
    let a = addr(1);
    st.buy_credit(&a, 10, 0).unwrap();
    let e = add_simple(&mut st, &a, &hash(7), &pk(9), 100, MIN_TTL, 0).unwrap_err();
    assert_eq!(e, BlobError::InsufficientFunds);
}

#[test]
fn co_subscription_shares_capacity() {
    let mut st = fresh();
    let a = addr(1);
    let b = addr(2);
    st.buy_credit(&a, 1_000_000, 0).unwrap();
    st.buy_credit(&b, 2_000_000, 1).unwrap();
    add_simple(&mut st, &a, &hash(7), &pk(9), 100, MIN_TTL, 0).unwrap();
    let bacct = add_simple(&mut st, &b, &hash(7), &pk(10), 100, 2 * MIN_TTL, 1).unwrap();
    // The second subscriber backs its own full term but the blob is only
    // counted once in the subnet's capacity.
    assert_eq!(st.capacity_used, 100);
    assert_eq!(bacct.capacity_used, 100);
    assert_eq!(bacct.credit_committed, 100 * 2 * MIN_TTL as i128);
    let blob = st.get_blob(&hash(7)).unwrap();
    assert_eq!(blob.subscribers.entries.len(), 2);
}

#[test]
fn set_pending_moves_queue_and_status() {
    let mut st = fresh();
    let a = addr(1);
    st.buy_credit(&a, 1_000_000, 0).unwrap();
    add_simple(&mut st, &a, &hash(7), &pk(9), 100, MIN_TTL, 0).unwrap();
    let added = st.get_added_blobs(10);
    assert_eq!(added.len(), 1);
    assert_eq!(added[0].0.bytes, hash(7).bytes);
    assert_eq!(added[0].1, 100);
    st.set_blob_pending(&pk(9), &a, &hash(7), &SubscriptionId::Default).unwrap();
    assert_eq!(st.get_added_blobs(10).len(), 0);
    let pending = st.get_pending_blobs(10);
    assert_eq!(pending.len(), 1);
    assert_eq!(pending[0].0.bytes, hash(7).bytes);
    let status = st.get_blob_status(&a, &hash(7), &SubscriptionId::Default).unwrap();
    assert!(matches!(status, BlobStatus::Pending));
}

#[test]
fn set_pending_requires_added_status() {
    let mut st = fresh();
    let a = addr(1);
    st.buy_credit(&a, 1_000_000, 0).unwrap();
    add_simple(&mut st, &a, &hash(7), &pk(9), 100, MIN_TTL, 0).unwrap();
    st.set_blob_pending(&pk(9), &a, &hash(7), &SubscriptionId::Default).unwrap();
    let e = st
        .set_blob_pending(&pk(9), &a, &hash(7), &SubscriptionId::Default)
        .unwrap_err();
    assert_eq!(e, BlobError::IllegalState);
}

#[test]
fn finalize_failed_refunds_commitment() {
    let mut st = fresh();
    let a = addr(1);
    let b = addr(2);
    st.buy_credit(&a, 1_000_000, 0).unwrap();
    st.buy_credit(&b, 2_000_000, 0).unwrap();
    add_simple(&mut st, &a, &hash(7), &pk(9), 100, MIN_TTL, 0).unwrap();
    add_simple(&mut st, &b, &hash(7), &pk(10), 100, 2 * MIN_TTL, 0).unwrap();
    st.set_blob_pending(&pk(9), &a, &hash(7), &SubscriptionId::Default).unwrap();
    st.finalize_blob(&a, &hash(7), &SubscriptionId::Default, BlobStatus::Failed).unwrap();
    // The whole wasted window comes back to free credit: the subscription
    // ran from epoch 0 to expiry MIN_TTL and no debit had been taken.
    let acct = st.get_account(&a).unwrap();
    assert_eq!(acct.credit_free, 1_000_000);
    assert_eq!(acct.credit_committed, 0);
    assert_eq!(acct.capacity_used, 0);
    // The co-subscriber keeps the blob alive, so the subnet still counts it.
    assert_eq!(st.capacity_used, 100);
    let blob = st.get_blob(&hash(7)).unwrap();
    assert!(matches!(blob.status, BlobStatus::Failed));
}

#[test]
fn finalize_failed_sole_subscriber_releases_capacity() {
    let mut st = fresh();
    let a = addr(1);
    st.buy_credit(&a, 1_000_000, 0).unwrap();
    add_simple(&mut st, &a, &hash(7), &pk(9), 100, MIN_TTL, 0).unwrap();
    st.set_blob_pending(&pk(9), &a, &hash(7), &SubscriptionId::Default).unwrap();
    st.finalize_blob(&a, &hash(7), &SubscriptionId::Default, BlobStatus::Failed).unwrap();
    assert_eq!(st.capacity_used, 0);
    assert_eq!(st.get_pending_blobs(10).len(), 0);
}

#[test]
fn finalize_resolved_applied_twice_equals_once() {
    let mut st = fresh();
    let a = addr(1);
    st.buy_credit(&a, 1_000_000, 0).unwrap();
    add_simple(&mut st, &a, &hash(7), &pk(9), 100, MIN_TTL, 0).unwrap();
    st.set_blob_pending(&pk(9), &a, &hash(7), &SubscriptionId::Default).unwrap();
    st.finalize_blob(&a, &hash(7), &SubscriptionId::Default, BlobStatus::Resolved).unwrap();
    let free_1 = st.get_account(&a).unwrap().credit_free;
    let committed_1 = st.credit_committed;
    // A repeated delivery of the same verdict is accepted and changes
    // nothing.
    st.finalize_blob(&a, &hash(7), &SubscriptionId::Default, BlobStatus::Resolved).unwrap();
    assert_eq!(st.get_account(&a).unwrap().credit_free, free_1);
    assert_eq!(st.credit_committed, committed_1);
    let blob = st.get_blob(&hash(7)).unwrap();
    assert!(matches!(blob.status, BlobStatus::Resolved));
    // A conflicting verdict after the first is refused.
    let e = st
        .finalize_blob(&a, &hash(7), &SubscriptionId::Default, BlobStatus::Failed)
        .unwrap_err();
    assert_eq!(e, BlobError::IllegalState);
}

#[test]
fn finalize_rejects_non_terminal_status() {
    let mut st = fresh();
    let a = addr(1);
    st.buy_credit(&a, 1_000_000, 0).unwrap();
    add_simple(&mut st, &a, &hash(7), &pk(9), 100, MIN_TTL, 0).unwrap();
    let e = st
        .finalize_blob(&a, &hash(7), &SubscriptionId::Default, BlobStatus::Added)
        .unwrap_err();
    assert_eq!(e, BlobError::IllegalState);
}

#[test]
fn finalize_missing_blob_is_noop() {
    let mut st = fresh();
    let a = addr(1);
    st.buy_credit(&a, 1_000_000, 0).unwrap();
    assert!(st
        .finalize_blob(&a, &hash(7), &SubscriptionId::Default, BlobStatus::Resolved)
        .is_ok());
}

#[test]
fn delete_before_expiry_refunds_remainder() {
    let mut st = fresh();
    let a = addr(1);
    st.buy_credit(&a, 1_000_000, 0).unwrap();
    add_simple(&mut st, &a, &hash(7), &pk(9), 100, MIN_TTL, 0).unwrap();
    let half = MIN_TTL / 2;
    let (acct, deleted) = st
        .delete_blob(&a, &a, None, &hash(7), &SubscriptionId::Default, half)
        .unwrap();
    assert!(deleted);
    // Usage up to the deletion epoch is debited, the rest comes back.
    let debit: i128 = half as i128 * 100;
    let refund: i128 = (MIN_TTL - half) as i128 * 100;
    assert_eq!(acct.credit_free, 1_000_000 - 100 * MIN_TTL as i128 + refund);
    assert_eq!(acct.credit_committed, 0);
    assert_eq!(acct.capacity_used, 0);
    assert_eq!(st.credit_debited, debit);
    assert_eq!(st.capacity_used, 0);
    assert!(st.get_blob(&hash(7)).is_none());
}

#[test]
fn delete_at_expiry_gives_no_refund() {
    let mut st = fresh();
    let a = addr(1);
    st.buy_credit(&a, 1_000_000, 0).unwrap();
    add_simple(&mut st, &a, &hash(7), &pk(9), 100, MIN_TTL, 0).unwrap();
    let (acct, deleted) = st
        .delete_blob(&a, &a, None, &hash(7), &SubscriptionId::Default, MIN_TTL)
        .unwrap();
    assert!(deleted);
    // The whole term was consumed: everything committed became debited.
    assert_eq!(acct.credit_free, 1_000_000 - 100 * MIN_TTL as i128);
    assert_eq!(acct.credit_committed, 0);
    assert_eq!(st.credit_debited, 100 * MIN_TTL as i128);
    // The sole subscriber left, so the subnet's used capacity drops.
    assert_eq!(st.capacity_used, 0);
}

#[test]
fn delete_then_readd_restores_balances() {
    let mut st = fresh();
    let a = addr(1);
    st.buy_credit(&a, 1_000_000, 0).unwrap();
    let before = add_simple(&mut st, &a, &hash(7), &pk(9), 100, MIN_TTL, 0).unwrap();
    st.delete_blob(&a, &a, None, &hash(7), &SubscriptionId::Default, 0).unwrap();
    let after = add_simple(&mut st, &a, &hash(7), &pk(9), 100, MIN_TTL, 0).unwrap();
    assert_eq!(before.credit_free, after.credit_free);
    assert_eq!(before.credit_committed, after.credit_committed);
    assert_eq!(before.capacity_used, after.capacity_used);
    assert_eq!(st.capacity_used, 100);
}

#[test]
fn debit_accounts_reaps_expired() {
    let mut st = fresh();
    let a = addr(1);
    let b = addr(2);
    st.buy_credit(&a, 1_000_000, 0).unwrap();
    st.buy_credit(&b, 2_000_000, 0).unwrap();
    add_simple(&mut st, &a, &hash(7), &pk(9), 100, MIN_TTL, 0).unwrap();
    add_simple(&mut st, &b, &hash(7), &pk(10), 100, 2 * MIN_TTL, 0).unwrap();
    let deleted = st.debit_accounts(MIN_TTL + 1);
    // The first subscription expired and was reaped; the co-subscriber
    // keeps the blob stored.
    assert_eq!(deleted.len(), 0);
    assert_eq!(st.capacity_used, 100);
    let acct_a = st.get_account(&a).unwrap();
    assert_eq!(acct_a.capacity_used, 0);
    assert_eq!(acct_a.last_debit_epoch, MIN_TTL + 1);
    let blob = st.get_blob(&hash(7)).unwrap();
    assert_eq!(blob.subscribers.entries.len(), 1);
    // Reaping again later removes the co-subscriber and the blob with it.
    let deleted2 = st.debit_accounts(2 * MIN_TTL + 1);
    assert_eq!(deleted2.len(), 1);
    assert_eq!(deleted2[0].bytes, hash(7).bytes);
    assert!(st.get_blob(&hash(7)).is_none());
    assert_eq!(st.capacity_used, 0);
}

#[test]
fn debit_accounts_advances_time_debit() {
    let mut st = fresh();
    let a = addr(1);
    st.buy_credit(&a, 10_000_000, 0).unwrap();
    add_simple(&mut st, &a, &hash(7), &pk(9), 100, 4 * MIN_TTL, 0).unwrap();
    st.debit_accounts(MIN_TTL);
    let acct = st.get_account(&a).unwrap();
    let debit: i128 = MIN_TTL as i128 * 100;
    assert_eq!(acct.last_debit_epoch, MIN_TTL);
    assert_eq!(acct.credit_committed, 100 * 4 * MIN_TTL as i128 - debit);
    assert_eq!(st.credit_debited, debit);
    assert_eq!(st.credit_committed, 100 * 4 * MIN_TTL as i128 - debit);
}

#[test]
fn delegated_add_consumes_approval_up_to_limit() {
    let mut st = fresh();
    let sponsor = addr(1);
    let origin = addr(2);
    let caller = addr(3);
    st.buy_credit(&sponsor, 1_000_000, 0).unwrap();
    let cost: i128 = 100 * MIN_TTL as i128;
    st.approve_credit(&sponsor, &origin, Some(&caller), Some(cost + 1), Some(100 * MIN_TTL), 0)
        .unwrap();
    // First delegated addition fits the limit.
    st.add_blob(
        &origin,
        &caller,
        Some(&sponsor),
        &pk(9),
        &hash(7),
        &hash(0xee),
        &SubscriptionId::Default,
        100,
        Some(MIN_TTL),
        0,
    )
    .unwrap();
    let apv = st.get_credit_approval(&sponsor, &origin, &caller).unwrap();
    assert_eq!(apv.used, cost);
    // A second one of the same size would exceed it.
    let e = st
        .add_blob(
            &origin,
            &caller,
            Some(&sponsor),
            &pk(9),
            &hash(8),
            &hash(0xee),
            &SubscriptionId::Default,
            100,
            Some(MIN_TTL),
            0,
        )
        .unwrap_err();
    assert_eq!(e, BlobError::Forbidden);
}

#[test]
fn delegated_add_without_approval_is_forbidden() {
    let mut st = fresh();
    let sponsor = addr(1);
    let origin = addr(2);
    st.buy_credit(&sponsor, 1_000_000, 0).unwrap();
    let e = st
        .add_blob(
            &origin,
            &origin,
            Some(&sponsor),
            &pk(9),
            &hash(7),
            &hash(0xee),
            &SubscriptionId::Default,
            100,
            Some(MIN_TTL),
            0,
        )
        .unwrap_err();
    assert_eq!(e, BlobError::Forbidden);
}

#[test]
fn approval_expiring_now_is_unusable() {
    let mut st = fresh();
    let sponsor = addr(1);
    let origin = addr(2);
    st.buy_credit(&sponsor, 1_000_000, 0).unwrap();
    // The approval expires at epoch 10: usable strictly before, not at it.
    st.approve_credit(&sponsor, &origin, None, None, Some(10), 0).unwrap();
    let e = st
        .add_blob(
            &origin,
            &origin,
            Some(&sponsor),
            &pk(9),
            &hash(7),
            &hash(0xee),
            &SubscriptionId::Default,
            100,
            Some(MIN_TTL),
            10,
        )
        .unwrap_err();
    assert_eq!(e, BlobError::Forbidden);
    assert!(st
        .add_blob(
            &origin,
            &origin,
            Some(&sponsor),
            &pk(9),
            &hash(7),
            &hash(0xee),
            &SubscriptionId::Default,
            100,
            Some(MIN_TTL),
            9,
        )
        .is_ok());
}

#[test]
fn approve_keeps_spent_amount_and_guards_limit() {
    let mut st = fresh();
    let sponsor = addr(1);
    let origin = addr(2);
    st.buy_credit(&sponsor, 1_000_000, 0).unwrap();
    st.approve_credit(&sponsor, &origin, None, None, None, 0).unwrap();
    let cost: i128 = 100 * MIN_TTL as i128;
    st.add_blob(
        &origin,
        &origin,
        Some(&sponsor),
        &pk(9),
        &hash(7),
        &hash(0xee),
        &SubscriptionId::Default,
        100,
        Some(MIN_TTL),
        0,
    )
    .unwrap();
    // Updating the approval keeps the spent amount; a limit below it is
    // refused.
    let e = st
        .approve_credit(&sponsor, &origin, None, Some(cost - 1), None, 0)
        .unwrap_err();
    assert_eq!(e, BlobError::IllegalArgument);
    let apv = st.approve_credit(&sponsor, &origin, None, Some(cost), None, 0).unwrap();
    assert_eq!(apv.used, cost);
    assert_eq!(apv.limit, Some(cost));
}

#[test]
fn approve_negative_limit_rejected() {
    let mut st = fresh();
    let sponsor = addr(1);
    st.buy_credit(&sponsor, 1_000_000, 0).unwrap();
    let e = st
        .approve_credit(&sponsor, &addr(2), None, Some(-1), None, 0)
        .unwrap_err();
    assert_eq!(e, BlobError::IllegalArgument);
}

#[test]
fn revoke_removes_approval() {
    let mut st = fresh();
    let sponsor = addr(1);
    let origin = addr(2);
    st.buy_credit(&sponsor, 1_000_000, 0).unwrap();
    st.approve_credit(&sponsor, &origin, None, None, None, 0).unwrap();
    st.revoke_credit(&sponsor, &origin, None).unwrap();
    assert!(st.get_credit_approval(&sponsor, &origin, &addr(3)).is_none());
    let e = st.revoke_credit(&sponsor, &origin, None).unwrap_err();
    assert_eq!(e, BlobError::NotFound);
}

#[test]
fn subscription_id_collapses_empty_bytes() {
    let id = SubscriptionId::from(&Vec::new());
    assert!(matches!(id, SubscriptionId::Default));
    let a1 = SubscriptionId::from(&b"alice".to_vec());
    let a2 = SubscriptionId::from(&b"alice".to_vec());
    let b1 = SubscriptionId::from(&b"bob".to_vec());
    assert_eq!(a1.to_bytes(), a2.to_bytes());
    assert_ne!(a1.to_bytes(), b1.to_bytes());
    // The key is the real content digest of the name, 32 bytes long.
    let expect = blake3::hash(b"alice");
    assert_eq!(a1.to_bytes(), expect.as_bytes().to_vec());
}

#[test]
fn hash_display_is_lowercase_base32() {
    let h = hash(0xab);
    let shown = h.display_bytes();
    assert_eq!(shown.len(), 52);
    let direct = data_encoding::BASE32_NOPAD.encode(&h.bytes).to_lowercase();
    assert_eq!(shown, direct.into_bytes());
    // Parsing the display form gives the digest back, in either case.
    let parsed = BlobHash::from_display(&h.display_bytes()).unwrap();
    assert_eq!(parsed.bytes, h.bytes);
    let upper = data_encoding::BASE32_NOPAD.encode(&h.bytes).into_bytes();
    let parsed2 = BlobHash::from_display(&upper).unwrap();
    assert_eq!(parsed2.bytes, h.bytes);
    assert!(BlobHash::from_display(&b"not base32!".to_vec()).is_err());
}

#[test]
fn read_request_lifecycle() {
    let mut st = fresh();
    let a = addr(1);
    st.buy_credit(&a, 1_000_000, 0).unwrap();
    add_simple(&mut st, &a, &hash(7), &pk(9), 100, MIN_TTL, 0).unwrap();
    // Reading needs a resolved blob.
    let e = st.open_read_request(&hash(7), 0, &addr(5), 42, 1).unwrap_err();
    assert_eq!(e, BlobError::IllegalState);
    let e2 = st.open_read_request(&hash(8), 0, &addr(5), 42, 1).unwrap_err();
    assert_eq!(e2, BlobError::NotFound);
    st.set_blob_pending(&pk(9), &a, &hash(7), &SubscriptionId::Default).unwrap();
    st.finalize_blob(&a, &hash(7), &SubscriptionId::Default, BlobStatus::Resolved).unwrap();
    let rid = st.open_read_request(&hash(7), 0, &addr(5), 42, 1).unwrap();
    assert_eq!(rid.bytes.len(), 32);
    assert!(st.read_request_exists(&rid));
    // The identifier is derived from the request's bytes, so an identical
    // request collides.
    let e3 = st.open_read_request(&hash(7), 0, &addr(5), 42, 1).unwrap_err();
    assert_eq!(e3, BlobError::IllegalState);
    let open = st.get_open_read_requests(10);
    assert_eq!(open.len(), 1);
    assert_eq!(open[0].1.callback_method, 42);
    st.close_read_request(&rid).unwrap();
    assert!(!st.read_request_exists(&rid));
    let e4 = st.close_read_request(&rid).unwrap_err();
    assert_eq!(e4, BlobError::NotFound);
}

#[test]
fn stats_count_structures() {
    let mut st = fresh();
    let a = addr(1);
    st.buy_credit(&a, 1_000_000, 0).unwrap();
    add_simple(&mut st, &a, &hash(7), &pk(9), 100, MIN_TTL, 0).unwrap();
    let stats = st.get_stats(55);
    assert_eq!(stats.balance, 55);
    assert_eq!(stats.num_accounts, 1);
    assert_eq!(stats.num_blobs, 1);
    assert_eq!(stats.num_added, 1);
    assert_eq!(stats.bytes_added, 100);
    assert_eq!(stats.num_resolving, 0);
    assert_eq!(stats.bytes_resolving, 0);
    assert_eq!(stats.credit_debit_rate, 1);
}

#[test]
fn group_helpers_report_expiries_and_minimum() {
    let mut st = fresh();
    let a = addr(1);
    st.buy_credit(&a, 10_000_000, 0).unwrap();
    let id2 = SubscriptionId::from(&b"second".to_vec());
    add_simple(&mut st, &a, &hash(7), &pk(9), 100, MIN_TTL, 0).unwrap();
    st.add_blob(
        &a,
        &a,
        None,
        &pk(9),
        &hash(7),
        &hash(0xee),
        &id2,
        100,
        Some(2 * MIN_TTL),
        5,
    )
    .unwrap();
    let blob = st.get_blob(&hash(7)).unwrap();
    let group = &blob.subscribers.entries[0].1;
    let (max, new_max) = group.max_expiries(&SubscriptionId::Default, Some(MIN_TTL / 2));
    assert_eq!(max, Some(2 * MIN_TTL + 5));
    assert_eq!(new_max, Some(2 * MIN_TTL + 5));
    // The default-id subscription was added first, so it owns the earliest
    // added epoch; the other one's is next.
    let (is_min, next) = group.is_min_added(&SubscriptionId::Default).unwrap();
    assert!(is_min);
    assert_eq!(next, Some(5));
    let (is_min2, next2) = group.is_min_added(&id2).unwrap();
    assert!(!is_min2);
    assert_eq!(next2, None);
    let e = group.is_min_added(&SubscriptionId::from(&b"absent".to_vec())).unwrap_err();
    assert_eq!(e, BlobError::NotFound);
}

#[test]
fn extending_a_subscription_charges_the_difference() {
    let mut st = fresh();
    let a = addr(1);
    st.buy_credit(&a, 1_000_000, 0).unwrap();
    add_simple(&mut st, &a, &hash(7), &pk(9), 100, MIN_TTL, 0).unwrap();
    // Re-adding the same subscription at the same epoch with double the
    // term charges only the added epochs.
    let acct = add_simple(&mut st, &a, &hash(7), &pk(9), 100, 2 * MIN_TTL, 0).unwrap();
    assert_eq!(acct.credit_committed, 100 * 2 * MIN_TTL as i128);
    assert_eq!(acct.credit_free, 1_000_000 - 100 * 2 * MIN_TTL as i128);
    assert_eq!(acct.capacity_used, 100);
    assert_eq!(st.capacity_used, 100);
}

#[test]
fn error_metadata_is_stable() {
    assert_eq!(BlobError::IllegalArgument.code(), 16);
    assert_eq!(BlobError::NotFound.code(), 17);
    assert_eq!(BlobError::Forbidden.code(), 18);
    assert_eq!(BlobError::InsufficientFunds.code(), 19);
    assert_eq!(BlobError::IllegalState.code(), 20);
    assert_eq!(BlobError::NotFound.message(), "not found");
    assert_eq!(BlobStatus::Resolved.name(), "resolved");
}

#[test]
fn finalize_params_encode_decode_round_trip() {
    let p = blob_credits::params::FinalizeBlobParams {
        subscriber: addr(1),
        hash: hash(7),
        id: SubscriptionId::from(&b"alice".to_vec()),
        status: BlobStatus::Failed,
    };
    let wire = blob_credits::codec::encode_finalize_params(&p);
    let q = blob_credits::codec::decode_finalize_params(&wire).unwrap();
    assert_eq!(q.subscriber.bytes, p.subscriber.bytes);
    assert_eq!(q.hash.bytes, p.hash.bytes);
    assert_eq!(q.id.to_bytes(), p.id.to_bytes());
    assert_eq!(q.status, p.status);
    // The default identifier survives the trip as itself.
    let p2 = blob_credits::params::FinalizeBlobParams {
        subscriber: addr(2),
        hash: hash(8),
        id: SubscriptionId::Default,
        status: BlobStatus::Resolved,
    };
    let wire2 = blob_credits::codec::encode_finalize_params(&p2);
    let q2 = blob_credits::codec::decode_finalize_params(&wire2).unwrap();
    assert!(matches!(q2.id, SubscriptionId::Default));
    // Mangled bytes are refused.
    assert!(blob_credits::codec::decode_finalize_params(&b"short".to_vec()).is_err());
    let mut trailing = wire2.clone();
    trailing.push(0);
    assert!(blob_credits::codec::decode_finalize_params(&trailing).is_err());
}

#[test]
fn add_blob_params_encode_decode_round_trip() {
    let p = blob_credits::params::AddBlobParams {
        sponsor: Some(addr(9)),
        source: pk(3),
        hash: hash(7),
        metadata_hash: hash(8),
        id: SubscriptionId::from(&b"mine".to_vec()),
        size: 12345,
        ttl: Some(-7),
    };
    let wire = blob_credits::codec::encode_add_blob_params(&p);
    let q = blob_credits::codec::decode_add_blob_params(&wire).unwrap();
    assert_eq!(q.sponsor.unwrap().bytes, addr(9).bytes);
    assert_eq!(q.source.bytes, p.source.bytes);
    assert_eq!(q.hash.bytes, p.hash.bytes);
    assert_eq!(q.metadata_hash.bytes, p.metadata_hash.bytes);
    assert_eq!(q.id.to_bytes(), p.id.to_bytes());
    assert_eq!(q.size, 12345);
    assert_eq!(q.ttl, Some(-7));
    let p2 = blob_credits::params::AddBlobParams {
        sponsor: None,
        source: pk(3),
        hash: hash(7),
        metadata_hash: hash(8),
        id: SubscriptionId::Default,
        size: 0,
        ttl: None,
    };
    let wire2 = blob_credits::codec::encode_add_blob_params(&p2);
    let q2 = blob_credits::codec::decode_add_blob_params(&wire2).unwrap();
    assert!(q2.sponsor.is_none());
    assert!(q2.ttl.is_none());
    assert!(matches!(q2.id, SubscriptionId::Default));
    assert!(blob_credits::codec::decode_add_blob_params(&b"".to_vec()).is_err());
}
