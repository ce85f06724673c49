//! The engine state and its transitions.
//!
//! The state is a single value: global counters plus the account ledger,
//! the blob registry, the expiry index, the added/pending resolution queues
//! and the open read requests.  Every transition is a total function of
//! `(state, caller, epoch, params)`; on failure it leaves the state
//! untouched, and each contract says exactly which inputs produce which
//! failure.

use vstd::prelude::*;

use crate::bmap::{
    lemma_get_at, lemma_get_insert, lemma_get_update, lemma_idx_from_props,
    lemma_remove_insert_is_update, lemma_sum_insert, lemma_sum_remove, lemma_sum_update, map_get,
    map_has, map_idx, map_lb, map_sorted, map_sum, ByteMap,
};
use crate::imap::{imap_get, EpochMap};
use crate::MIN_TTL;
use crate::types::{
    account_like, dup_bytes, sub_like, Account, Address, Blob, BlobError, BlobStatus, BlobHash,
    CreditApproval, PublicKey, ReadRequest, Subscription, SubscriptionGroup, SubscriptionId,
};

verus! {

/// The weight used for the committed-credit conservation law: an account's
/// committed credit.
pub open spec fn committed_of() -> spec_fn(Account) -> int {
    |a: Account| a.credit_committed as int
}

/// Whether some subscription on the blob has not failed.
pub open spec fn blob_has_live_sub(b: Blob) -> bool {
    exists|i: int, j: int|
        0 <= i < b.subscribers@.len() && 0 <= j < b.subscribers@[i].1.subscriptions@.len() && !(
        #[trigger] b.subscribers@[i].1.subscriptions@[j]).1.failed
}

/// Whether the blob is counted in the subnet's used capacity: it is counted
/// from creation until either a failed finalization leaves it without live
/// subscriptions or it is deleted.
pub open spec fn blob_counted(b: Blob) -> bool {
    !(b.status is Failed) || blob_has_live_sub(b)
}

/// The weight used for the capacity conservation law: a blob's size while
/// it is counted.
pub open spec fn counted_size_of() -> spec_fn(Blob) -> int {
    |b: Blob| if blob_counted(b) {
        b.size as int
    } else {
        0
    }
}

/// Every approval in the account has a non-negative spent amount that stays
/// within its limit.
pub open spec fn account_approvals_ok(a: Account) -> bool {
    forall|i: int, j: int|
        0 <= i < a.approvals@.len() && 0 <= j < a.approvals@[i].1@.len() ==> ((match (
        #[trigger] a.approvals@[i].1@[j]).1.limit {
            Some(l) => a.approvals@[i].1@[j].1.used <= l,
            None => true,
        }) && a.approvals@[i].1@[j].1.used >= 0)
}

/// The engine state.
#[derive(Debug)]
pub struct State {
    /// The total free storage capacity of the subnet.
    pub capacity_free: i128,
    /// The total used storage capacity of the subnet.
    pub capacity_used: i128,
    /// The total credit sold in the subnet.
    pub credit_sold: i128,
    /// The total credit committed to active storage in the subnet.
    pub credit_committed: i128,
    /// The total credit debited in the subnet.
    pub credit_debited: i128,
    /// Byte-blocks per atto token, fixed at genesis.
    pub credit_debit_rate: u64,
    /// All accounts, keyed by address bytes.
    pub accounts: ByteMap<Account>,
    /// All blobs, keyed by content digest bytes.
    pub blobs: ByteMap<Blob>,
    /// The expiry index: epoch, then subscriber address, to the digest of
    /// the blob whose subscription expires there.
    pub expiries: EpochMap<ByteMap<Vec<u8>>>,
    /// Blobs committed on-chain but not yet handed to the resolver: digest,
    /// then subscriber address, to the set of resolver node keys.
    pub added: ByteMap<ByteMap<ByteMap<()>>>,
    /// Blobs the resolver is fetching: digest, then subscriber address, to
    /// the set of resolver node keys.
    pub pending: ByteMap<ByteMap<ByteMap<()>>>,
    /// Open read requests, keyed by request identifier bytes.
    pub read_requests: ByteMap<ReadRequest>,
}

/// A well-formed source queue (the added or pending queue): sorted at every
/// level, with no empty inner map.
pub open spec fn queue_wf(q: ByteMap<ByteMap<ByteMap<()>>>) -> bool {
    &&& q.wf()
    &&& forall|i: int| 0 <= i < q@.len() ==> (#[trigger] q@[i].1).wf()
    &&& forall|i: int| 0 <= i < q@.len() ==> (#[trigger] q@[i].1)@.len() > 0
    &&& forall|i: int, j: int|
        0 <= i < q@.len() && 0 <= j < q@[i].1@.len() ==> (#[trigger] q@[i].1@[j].1).wf()
    &&& forall|i: int, j: int|
        0 <= i < q@.len() && 0 <= j < q@[i].1@.len() ==> (#[trigger] q@[i].1@[j].1)@.len() > 0
}

impl State {
    /// Well-formed: every map sorted at every level, and no empty inner
    /// map in the expiry index or the queues.
    pub open spec fn wf(self) -> bool {
        &&& self.accounts.wf()
        &&& forall|i: int| 0 <= i < self.accounts@.len() ==> (#[trigger] self.accounts@[i].1).wf()
        &&& self.blobs.wf()
        &&& forall|i: int| 0 <= i < self.blobs@.len() ==> (#[trigger] self.blobs@[i].1).wf()
        &&& self.expiries.wf()
        &&& forall|i: int| 0 <= i < self.expiries@.len() ==> (#[trigger] self.expiries@[i].1).wf()
        &&& forall|i: int|
            0 <= i < self.expiries@.len() ==> (#[trigger] self.expiries@[i].1)@.len() > 0
        &&& queue_wf(self.added)
        &&& queue_wf(self.pending)
        &&& self.read_requests.wf()
    }

    /// The committed-credit conservation law: the subnet's committed credit
    /// is the sum of the accounts' committed credit.
    pub open spec fn inv_committed(self) -> bool {
        self.credit_committed as int == map_sum(self.accounts@, committed_of())
    }

    /// The capacity conservation law: the subnet's used capacity is the sum
    /// of the sizes of the counted blobs.
    pub open spec fn inv_capacity(self) -> bool {
        self.capacity_used as int == map_sum(self.blobs@, counted_size_of())
    }

    /// The approval-limit law: no approval's spent amount exceeds its limit.
    pub open spec fn inv_approvals(self) -> bool {
        forall|i: int|
            0 <= i < self.accounts@.len() ==> account_approvals_ok(#[trigger] self.accounts@[i].1)
    }

    /// A fresh state with the given storage capacity and credit sale rate.
    pub fn new(capacity: u64, credit_debit_rate: u64) -> (r: Self)
        ensures
            r.capacity_free == capacity as i128,
            r.capacity_used == 0,
            r.credit_sold == 0,
            r.credit_committed == 0,
            r.credit_debited == 0,
            r.credit_debit_rate == credit_debit_rate,
            r.accounts@.len() == 0,
            r.blobs@.len() == 0,
            r.expiries@.len() == 0,
            r.added@.len() == 0,
            r.pending@.len() == 0,
            r.read_requests@.len() == 0,
            r.wf(),
            r.inv_committed(),
            r.inv_capacity(),
            r.inv_approvals(),
    {
        State {
            capacity_free: capacity as i128,
            capacity_used: 0,
            credit_sold: 0,
            credit_committed: 0,
            credit_debited: 0,
            credit_debit_rate,
            accounts: ByteMap::new(),
            blobs: ByteMap::new(),
            expiries: EpochMap::new(),
            added: ByteMap::new(),
            pending: ByteMap::new(),
            read_requests: ByteMap::new(),
        }
    }

    /// Looks up an account and hands back a copy, or nothing if it is
    /// absent.
    pub fn get_account(&self, address: &Address) -> (r: Option<Account>)
        ensures
            match r {
                Some(a) => match map_get(self.accounts@, address.bytes@) {
                    Some(stored) => account_like(a, stored),
                    None => false,
                },
                None => map_get(self.accounts@, address.bytes@) == None::<Account>,
            },
    {
        match self.accounts.get(&address.bytes) {
            Some(a) => Some(a.dup()),
            None => None,
        }
    }

    /// The credit minted for `atto` attos at this state's sale rate.
    pub open spec fn spec_credits(self, atto: u128) -> int {
        (self.credit_debit_rate as int) * (atto as int)
    }

    /// Which failure, if any, buying credit with `atto` attos for the
    /// account under `addr` produces: the purchase is refused when the
    /// subnet is at capacity, and when a balance would leave the numeric
    /// range.
    pub open spec fn spec_buy_credit_err(self, addr: Seq<u8>, atto: u128) -> Option<BlobError> {
        let credits = self.spec_credits(atto);
        if self.capacity_used == self.capacity_free {
            Some(BlobError::Capacity)
        } else if credits > i128::MAX as int {
            Some(BlobError::Overflow)
        } else if self.credit_sold + credits > i128::MAX as int {
            Some(BlobError::Overflow)
        } else if (match map_get(self.accounts@, addr) {
            Some(a) => a.credit_free + credits > i128::MAX as int,
            None => false,
        }) {
            Some(BlobError::Overflow)
        } else {
            None
        }
    }

    /// Mints `credit_debit_rate * atto` credits for `address`, creating the
    /// account if it is absent.
    pub fn buy_credit(&mut self, address: &Address, atto: u128, current_epoch: i64) -> (r: Result<
        Account,
        BlobError,
    >)
        requires
            old(self).wf(),
        ensures
            final(self).wf(),
            match r {
                Err(e) => old(self).spec_buy_credit_err(address.bytes@, atto) == Some(e)
                    && *final(self) == *old(self),
                Ok(acct) => {
                    let credits = old(self).spec_credits(atto);
                    &&& old(self).spec_buy_credit_err(address.bytes@, atto) == None::<BlobError>
                    &&& final(self).credit_sold == old(self).credit_sold + credits
                    &&& final(self).capacity_free == old(self).capacity_free
                    &&& final(self).capacity_used == old(self).capacity_used
                    &&& final(self).credit_committed == old(self).credit_committed
                    &&& final(self).credit_debited == old(self).credit_debited
                    &&& final(self).credit_debit_rate == old(self).credit_debit_rate
                    &&& final(self).blobs == old(self).blobs
                    &&& final(self).expiries == old(self).expiries
                    &&& final(self).added == old(self).added
                    &&& final(self).pending == old(self).pending
                    &&& final(self).read_requests == old(self).read_requests
                    &&& match map_get(old(self).accounts@, address.bytes@) {
                        Some(a) => map_get(final(self).accounts@, address.bytes@) == Some(
                            Account { credit_free: (a.credit_free + credits) as i128, ..a },
                        ) && final(self).accounts@.len() == old(self).accounts@.len(),
                        None => (match map_get(final(self).accounts@, address.bytes@) {
                            Some(a2) => a2.credit_free == credits && a2.capacity_used == 0
                                && a2.credit_committed == 0 && a2.last_debit_epoch == current_epoch
                                && a2.approvals@.len() == 0,
                            None => false,
                        }) && final(self).accounts@.len() == old(self).accounts@.len() + 1,
                    }
                    &&& match map_get(final(self).accounts@, address.bytes@) {
                        Some(a2) => account_like(acct, a2),
                        None => false,
                    }
                    &&& forall|k2: Seq<u8>|
                        k2 != address.bytes@ ==> map_get(final(self).accounts@, k2) == map_get(
                            old(self).accounts@,
                            k2,
                        )
                },
            },
            old(self).inv_committed() ==> final(self).inv_committed(),
            old(self).inv_capacity() ==> final(self).inv_capacity(),
            old(self).inv_approvals() ==> final(self).inv_approvals(),
    {
        let ghost s0 = *self;
        if self.capacity_used == self.capacity_free {
            return Err(BlobError::Capacity);
        }
        let credits_u = match (self.credit_debit_rate as u128).checked_mul(atto) {
            Some(c) => c,
            None => {
                return Err(BlobError::Overflow);
            },
        };
        if credits_u > i128::MAX as u128 {
            return Err(BlobError::Overflow);
        }
        let credits = credits_u as i128;
        let new_sold = match self.credit_sold.checked_add(credits) {
            Some(x) => x,
            None => {
                return Err(BlobError::Overflow);
            },
        };
        match self.accounts.index_of(&address.bytes) {
            Some(i) => {
                proof {
                    lemma_get_at(s0.accounts@, address.bytes@, i as int);
                }
                let new_free = match self.accounts.entries[i].1.credit_free.checked_add(credits) {
                    Some(x) => x,
                    None => {
                        return Err(BlobError::Overflow);
                    },
                };
                let (k, acct) = self.accounts.take_at(i);
                let new_acct = Account {
                    capacity_used: acct.capacity_used,
                    credit_free: new_free,
                    credit_committed: acct.credit_committed,
                    last_debit_epoch: acct.last_debit_epoch,
                    approvals: acct.approvals,
                };
                let ret = new_acct.dup();
                self.accounts.put_at(i, k, new_acct);
                self.credit_sold = new_sold;
                proof {
                    lemma_remove_insert_is_update(s0.accounts@, i as int, (k, new_acct));
                    assert(self.accounts@ == s0.accounts@.update(i as int, (k, new_acct)));
                    lemma_get_update(s0.accounts@, i as int, (k, new_acct), address.bytes@);
                    assert forall|k2: Seq<u8>| k2 != address.bytes@ implies map_get(
                        self.accounts@,
                        k2,
                    ) == map_get(s0.accounts@, k2) by {
                        lemma_get_update(s0.accounts@, i as int, (k, new_acct), k2);
                    }
                    lemma_sum_update(s0.accounts@, i as int, (k, new_acct), committed_of());
                    assert forall|m: int| 0 <= m < self.accounts@.len() implies (
                    #[trigger] self.accounts@[m].1).wf() by {
                        if m != i {
                            assert(self.accounts@[m].1 == s0.accounts@[m].1);
                        }
                    }
                    if s0.inv_approvals() {
                        assert forall|m: int|
                            0 <= m < self.accounts@.len() implies account_approvals_ok(
                            #[trigger] self.accounts@[m].1,
                        ) by {
                            if m != i {
                                assert(self.accounts@[m].1 == s0.accounts@[m].1);
                            } else {
                                assert(account_approvals_ok(s0.accounts@[i as int].1));
                            }
                        }
                    }
                }
                Ok(ret)
            },
            None => {
                let key = dup_bytes(&address.bytes);
                let new_acct = Account::new(credits, current_epoch);
                let ret = new_acct.dup();
                self.accounts.insert(key, new_acct);
                self.credit_sold = new_sold;
                proof {
                    let lb = map_lb(s0.accounts@, key@);
                    crate::bmap::lemma_lb_props(s0.accounts@, key@, 0);
                    lemma_sum_insert(s0.accounts@, lb, (key, new_acct), committed_of());
                    assert forall|m: int| 0 <= m < self.accounts@.len() implies (
                    #[trigger] self.accounts@[m].1).wf() by {
                        if m < lb {
                            assert(self.accounts@[m].1 == s0.accounts@[m].1);
                        } else if m > lb {
                            assert(self.accounts@[m].1 == s0.accounts@[m - 1].1);
                        }
                    }
                    if s0.inv_approvals() {
                        assert forall|m: int|
                            0 <= m < self.accounts@.len() implies account_approvals_ok(
                            #[trigger] self.accounts@[m].1,
                        ) by {
                            if m < lb {
                                assert(self.accounts@[m].1 == s0.accounts@[m].1);
                            } else if m > lb {
                                assert(self.accounts@[m].1 == s0.accounts@[m - 1].1);
                            }
                        }
                    }
                }
                Ok(ret)
            },
        }
    }
}

/// The hash recorded in the expiry index for `addr` at `epoch`, if any.
pub open spec fn spec_exp(em: EpochMap<ByteMap<Vec<u8>>>, epoch: i64, addr: Seq<u8>) -> Option<
    Seq<u8>,
> {
    match imap_get(em@, epoch) {
        Some(inner) => match map_get(inner@, addr) {
            Some(h) => Some(h@),
            None => None,
        },
        None => None,
    }
}

/// A well-formed expiry index: sorted at both levels, no empty inner map.
pub open spec fn expiries_wf(em: EpochMap<ByteMap<Vec<u8>>>) -> bool {
    &&& em.wf()
    &&& forall|i: int| 0 <= i < em@.len() ==> (#[trigger] em@[i].1).wf()
    &&& forall|i: int| 0 <= i < em@.len() ==> (#[trigger] em@[i].1)@.len() > 0
}

/// Keeps the expiry index in step with a subscription whose expiry moves
/// from `remove` to `add` (either may be absent): records the blob `hash`
/// for `subscriber` at `add`, and drops the subscriber's entry at `remove`,
/// dropping the epoch when its last entry goes.
pub fn update_expiry_index(
    expiries: &mut EpochMap<ByteMap<Vec<u8>>>,
    subscriber: &Address,
    hash: &BlobHash,
    add: Option<i64>,
    remove: Option<i64>,
)
    requires
        expiries_wf(*old(expiries)),
    ensures
        expiries_wf(*final(expiries)),
        add is None ==> final(expiries)@.len() <= old(expiries)@.len(),
        match add {
            Some(ea) => (match remove {
                Some(er) => er != ea,
                None => true,
            }) ==> spec_exp(*final(expiries), ea, subscriber.bytes@) == Some(hash.bytes@),
            None => true,
        },
        match remove {
            Some(er) => spec_exp(*final(expiries), er, subscriber.bytes@) == None::<Seq<u8>>,
            None => true,
        },
        forall|e2: i64, a2: Seq<u8>|
            !(a2 == subscriber.bytes@ && ((match add {
                Some(ea) => e2 == ea,
                None => false,
            }) || (match remove {
                Some(er) => e2 == er,
                None => false,
            }))) ==> spec_exp(*final(expiries), e2, a2) == spec_exp(*old(expiries), e2, a2),
{
    if let Some(ea) = add {
        let ghost em0 = *expiries;
        match expiries.index_of(ea) {
            Some(i) => {
                let (e, mut inner) = expiries.take_at(i);
                let ghost inner0 = inner;
                inner.insert(dup_bytes(&subscriber.bytes), dup_bytes(&hash.bytes));
                expiries.put_at(i, e, inner);
                proof {
                    crate::imap::lemma_imap_remove_insert_is_update(
                        em0@,
                        i as int,
                        (e, inner),
                    );
                    crate::imap::lemma_imap_get_update(em0@, i as int, (e, inner), ea);
                    assert forall|e2: i64, a2: Seq<u8>|
                        !(a2 == subscriber.bytes@ && e2 == ea) implies spec_exp(
                        *expiries,
                        e2,
                        a2,
                    ) == spec_exp(em0, e2, a2) by {
                        crate::imap::lemma_imap_get_update(em0@, i as int, (e, inner), e2);
                    }
                    assert forall|m: int| 0 <= m < expiries@.len() implies (
                    #[trigger] expiries@[m].1).wf() && (#[trigger] expiries@[m].1)@.len() > 0 by {
                        if m != i {
                            assert(expiries@[m].1 == em0@[m].1);
                        }
                    }
                    assert(spec_exp(*expiries, ea, subscriber.bytes@) == Some(hash.bytes@));
                    assert(expiries_wf(*expiries));
                }
            },
            None => {
                let mut inner: ByteMap<Vec<u8>> = ByteMap::new();
                inner.insert(dup_bytes(&subscriber.bytes), dup_bytes(&hash.bytes));
                expiries.insert(ea, inner);
                proof {
                    crate::imap::lemma_imap_lb_props(em0@, ea, 0);
                    let lb = crate::imap::imap_lb(em0@, ea);
                    assert forall|e2: i64, a2: Seq<u8>|
                        !(a2 == subscriber.bytes@ && e2 == ea) implies spec_exp(
                        *expiries,
                        e2,
                        a2,
                    ) == spec_exp(em0, e2, a2) by {
                        if e2 != ea {
                            assert(imap_get(expiries@, e2) == imap_get(em0@, e2));
                        }
                    }
                    assert forall|m: int| 0 <= m < expiries@.len() implies (
                    #[trigger] expiries@[m].1).wf() && (#[trigger] expiries@[m].1)@.len() > 0 by {
                        if m < lb {
                            assert(expiries@[m].1 == em0@[m].1);
                        } else if m > lb {
                            assert(expiries@[m].1 == em0@[m - 1].1);
                        }
                    }
                    assert(spec_exp(*expiries, ea, subscriber.bytes@) == Some(hash.bytes@));
                    assert(expiries_wf(*expiries));
                }
            },
        }
    }
    if let Some(er) = remove {
        proof {
            assert(expiries_wf(*expiries));
        }
        let ghost em1 = *expiries;
        match expiries.index_of(er) {
            Some(i) => {
                let (e, mut inner) = expiries.take_at(i);
                let ghost inner1 = inner;
                let prev = inner.remove(&subscriber.bytes);
                if inner.is_empty() {
                    proof {
                        assert(em1@[i as int].1@.len() > 0);
                        assert(inner1 == em1@[i as int].1);
                        if prev is None {
                            assert(inner@ == inner1@);
                            assert(false);
                        }
                        crate::bmap::lemma_idx_from_props(inner1@, subscriber.bytes@, 0);
                        assert(inner1@.len() == 1);
                        crate::imap::lemma_imap_get_remove(em1@, i as int, er);
                        assert forall|e2: i64, a2: Seq<u8>|
                            !(a2 == subscriber.bytes@ && e2 == er) implies spec_exp(
                            *expiries,
                            e2,
                            a2,
                        ) == spec_exp(em1, e2, a2) by {
                            crate::imap::lemma_imap_get_remove(em1@, i as int, e2);
                            if e2 == er {
                                assert(inner1@.len() == 1);
                                crate::bmap::lemma_idx_from_props(inner1@, a2, 0);
                                crate::bmap::lemma_idx_from_props(inner1@, subscriber.bytes@, 0);
                                assert(inner1@[0].0@ == subscriber.bytes@);
                            }
                        }
                        assert forall|m: int| 0 <= m < expiries@.len() implies (
                        #[trigger] expiries@[m].1).wf() && (#[trigger] expiries@[m].1)@.len()
                            > 0 by {
                            if m < i {
                                assert(expiries@[m].1 == em1@[m].1);
                            } else {
                                assert(expiries@[m].1 == em1@[m + 1].1);
                            }
                        }
                        if add is Some && add->0 != er {
                            let ea = add->0;
                            assert(spec_exp(*expiries, ea, subscriber.bytes@) == spec_exp(
                                em1,
                                ea,
                                subscriber.bytes@,
                            ));
                        }
                    }
                } else {
                    expiries.put_at(i, e, inner);
                    proof {
                        crate::imap::lemma_imap_remove_insert_is_update(
                            em1@,
                            i as int,
                            (e, inner),
                        );
                        crate::imap::lemma_imap_get_update(em1@, i as int, (e, inner), er);
                        assert forall|e2: i64, a2: Seq<u8>|
                            !(a2 == subscriber.bytes@ && e2 == er) implies spec_exp(
                            *expiries,
                            e2,
                            a2,
                        ) == spec_exp(em1, e2, a2) by {
                            crate::imap::lemma_imap_get_update(em1@, i as int, (e, inner), e2);
                        }
                        assert forall|m: int| 0 <= m < expiries@.len() implies (
                        #[trigger] expiries@[m].1).wf() && (#[trigger] expiries@[m].1)@.len()
                            > 0 by {
                            if m != i {
                                assert(expiries@[m].1 == em1@[m].1);
                            }
                        }
                        if add is Some && add->0 != er {
                            let ea = add->0;
                            assert(spec_exp(*expiries, ea, subscriber.bytes@) == spec_exp(
                                em1,
                                ea,
                                subscriber.bytes@,
                            ));
                        }
                    }
                }
            },
            None => {
            },
        }
    }
}

/// The subscription group held by `addr` on the blob under `hash`, if any.
pub open spec fn spec_group_of(blobs: ByteMap<Blob>, hash: Seq<u8>, addr: Seq<u8>) -> Option<
    SubscriptionGroup,
> {
    match map_get(blobs@, hash) {
        Some(b) => map_get(b.subscribers@, addr),
        None => None,
    }
}

/// The subscription held by `addr` under identifier `id` on the blob under
/// `hash`, if any.
pub open spec fn spec_sub_of(blobs: ByteMap<Blob>, hash: Seq<u8>, addr: Seq<u8>, id: Seq<u8>) -> Option<
    Subscription,
> {
    match spec_group_of(blobs, hash, addr) {
        Some(g) => map_get(g.subscriptions@, id),
        None => None,
    }
}

/// Whether the queue holds the resolver key `pk` for `addr` under `hash`.
pub open spec fn spec_queue_has(
    q: ByteMap<ByteMap<ByteMap<()>>>,
    hash: Seq<u8>,
    addr: Seq<u8>,
    pk: Seq<u8>,
) -> bool {
    match map_get(q@, hash) {
        Some(m) => match map_get(m@, addr) {
            Some(ks) => map_has(ks@, pk),
            None => false,
        },
        None => false,
    }
}

/// Whether the two-level map holds the resolver key `pk` under `addr`.
pub open spec fn addr_set_has(m: ByteMap<ByteMap<()>>, addr: Seq<u8>, pk: Seq<u8>) -> bool {
    match map_get(m@, addr) {
        Some(ks) => map_has(ks@, pk),
        None => false,
    }
}

/// A well-formed queue entry: sorted inner maps, none of them empty.
pub open spec fn queue_entry_wf(m: ByteMap<ByteMap<()>>) -> bool {
    &&& m.wf()
    &&& forall|y: int| 0 <= y < m@.len() ==> (#[trigger] m@[y].1).wf()
    &&& forall|y: int| 0 <= y < m@.len() ==> (#[trigger] m@[y].1)@.len() > 0
}

/// Records in the two-level map that `subscriber` names the resolver key
/// `pk`.
fn addr_set_insert(m: &mut ByteMap<ByteMap<()>>, subscriber: &Address, pk: &PublicKey)
    requires
        queue_entry_wf(*old(m)),
    ensures
        queue_entry_wf(*final(m)),
        final(m)@.len() > 0,
        addr_set_has(*final(m), subscriber.bytes@, pk.bytes@),
        forall|a2: Seq<u8>, p2: Seq<u8>|
            !(a2 == subscriber.bytes@ && p2 == pk.bytes@) ==> addr_set_has(*final(m), a2, p2)
                == addr_set_has(*old(m), a2, p2),
{
    let ghost m0 = *m;
    match m.index_of(&subscriber.bytes) {
        Some(j) => {
            let (ak, mut ks) = m.take_at(j);
            let ghost ks0 = ks;
            ks.insert(dup_bytes(&pk.bytes), ());
            m.put_at(j, ak, ks);
            proof {
                lemma_remove_insert_is_update(m0@, j as int, (ak, ks));
                lemma_get_update(m0@, j as int, (ak, ks), subscriber.bytes@);
                crate::bmap::lemma_idx_from_props(ks@, pk.bytes@, 0);
                assert forall|x: int| 0 <= x < m@.len() implies (#[trigger] m@[x].1).wf() && (
                #[trigger] m@[x].1)@.len() > 0 by {
                    if x != j {
                        assert(m@[x].1 == m0@[x].1);
                    }
                }
                assert forall|a2: Seq<u8>, p2: Seq<u8>|
                    !(a2 == subscriber.bytes@ && p2 == pk.bytes@) implies addr_set_has(
                    *m,
                    a2,
                    p2,
                ) == addr_set_has(m0, a2, p2) by {
                    lemma_get_update(m0@, j as int, (ak, ks), a2);
                    if a2 == subscriber.bytes@ {
                        assert(map_get(m0@, a2) == Some(ks0));
                        assert(map_get(ks@, p2) == map_get(ks0@, p2));
                    }
                }
            }
        },
        None => {
            let mut keys: ByteMap<()> = ByteMap::new();
            keys.insert(dup_bytes(&pk.bytes), ());
            let ghost keys1 = keys;
            m.insert(dup_bytes(&subscriber.bytes), keys);
            proof {
                crate::bmap::lemma_lb_props(m0@, subscriber.bytes@, 0);
                let lb = map_lb(m0@, subscriber.bytes@);
                crate::bmap::lemma_idx_from_props(keys1@, pk.bytes@, 0);
                assert forall|x: int| 0 <= x < m@.len() implies (#[trigger] m@[x].1).wf() && (
                #[trigger] m@[x].1)@.len() > 0 by {
                    if x < lb {
                        assert(m@[x].1 == m0@[x].1);
                    } else if x > lb {
                        assert(m@[x].1 == m0@[x - 1].1);
                    }
                }
                assert forall|a2: Seq<u8>, p2: Seq<u8>|
                    !(a2 == subscriber.bytes@ && p2 == pk.bytes@) implies addr_set_has(
                    *m,
                    a2,
                    p2,
                ) == addr_set_has(m0, a2, p2) by {
                    if a2 == subscriber.bytes@ {
                        assert(map_get(m@, a2) == Some(keys1));
                        crate::bmap::lemma_idx_from_props(keys1@, p2, 0);
                        crate::bmap::lemma_idx_from_props(m0@, a2, 0);
                    }
                }
            }
        },
    }
}

/// Records in the queue that `subscriber` asks the resolver node `pk` to
/// handle the blob under `hash`.
pub fn queue_insert(
    q: &mut ByteMap<ByteMap<ByteMap<()>>>,
    hash: &BlobHash,
    subscriber: &Address,
    pk: &PublicKey,
)
    requires
        queue_wf(*old(q)),
    ensures
        queue_wf(*final(q)),
        spec_queue_has(*final(q), hash.bytes@, subscriber.bytes@, pk.bytes@),
        forall|h2: Seq<u8>, a2: Seq<u8>, p2: Seq<u8>|
            !(h2 == hash.bytes@ && a2 == subscriber.bytes@ && p2 == pk.bytes@) ==> spec_queue_has(
                *final(q),
                h2,
                a2,
                p2,
            ) == spec_queue_has(*old(q), h2, a2, p2),
        map_has(final(q)@, hash.bytes@),
        forall|h2: Seq<u8>|
            h2 != hash.bytes@ ==> map_get(final(q)@, h2) == map_get(old(q)@, h2),
{
    let ghost q0 = *q;
    match q.index_of(&hash.bytes) {
        Some(i) => {
            let (hk, mut m) = q.take_at(i);
            let ghost m0 = m;
            proof {
                assert(queue_entry_wf(m0)) by {
                    assert(m0 == q0@[i as int].1);
                    assert forall|y: int| 0 <= y < m0@.len() implies (#[trigger] m0@[y].1).wf()
                        && (#[trigger] m0@[y].1)@.len() > 0 by {
                        assert(q0@[i as int].1@[y].1.wf());
                        assert(q0@[i as int].1@[y].1@.len() > 0);
                    }
                }
            }
            addr_set_insert(&mut m, subscriber, pk);
            q.put_at(i, hk, m);
            proof {
                lemma_remove_insert_is_update(q0@, i as int, (hk, m));
                lemma_get_update(q0@, i as int, (hk, m), hash.bytes@);
                assert forall|h2: Seq<u8>| h2 != hash.bytes@ implies map_get(q@, h2) == map_get(
                    q0@,
                    h2,
                ) by {
                    lemma_get_update(q0@, i as int, (hk, m), h2);
                }
                assert forall|x: int| 0 <= x < q@.len() implies (#[trigger] q@[x].1).wf() && (
                #[trigger] q@[x].1)@.len() > 0 by {
                    if x != i {
                        assert(q@[x].1 == q0@[x].1);
                    }
                }
                assert forall|x: int, y: int|
                    0 <= x < q@.len() && 0 <= y < q@[x].1@.len() implies (
                #[trigger] q@[x].1@[y].1).wf() && (#[trigger] q@[x].1@[y].1)@.len() > 0 by {
                    if x != i {
                        assert(q@[x].1 == q0@[x].1);
                        assert(q0@[x].1@[y].1.wf() && q0@[x].1@[y].1@.len() > 0);
                    } else {
                        assert(q@[x].1 == m);
                    }
                }
                assert forall|h2: Seq<u8>, a2: Seq<u8>, p2: Seq<u8>|
                    !(h2 == hash.bytes@ && a2 == subscriber.bytes@ && p2 == pk.bytes@) implies
                    spec_queue_has(*q, h2, a2, p2) == spec_queue_has(q0, h2, a2, p2) by {
                    if h2 == hash.bytes@ {
                        assert(map_get(q0@, h2) == Some(m0));
                        assert(map_get(q@, h2) == Some(m));
                        assert(addr_set_has(m, a2, p2) == addr_set_has(m0, a2, p2));
                    } else {
                        lemma_get_update(q0@, i as int, (hk, m), h2);
                    }
                }
                assert(spec_queue_has(*q, hash.bytes@, subscriber.bytes@, pk.bytes@)) by {
                    assert(map_get(q@, hash.bytes@) == Some(m));
                    assert(addr_set_has(m, subscriber.bytes@, pk.bytes@));
                }
            }
        },
        None => {
            let mut m: ByteMap<ByteMap<()>> = ByteMap::new();
            addr_set_insert(&mut m, subscriber, pk);
            q.insert(dup_bytes(&hash.bytes), m);
            proof {
                crate::bmap::lemma_lb_props(q0@, hash.bytes@, 0);
                let lb = map_lb(q0@, hash.bytes@);
                crate::bmap::lemma_idx_from_props(q0@, hash.bytes@, 0);
                assert forall|x: int| 0 <= x < q@.len() implies (#[trigger] q@[x].1).wf() && (
                #[trigger] q@[x].1)@.len() > 0 by {
                    if x < lb {
                        assert(q@[x].1 == q0@[x].1);
                    } else if x > lb {
                        assert(q@[x].1 == q0@[x - 1].1);
                    }
                }
                assert forall|x: int, y: int|
                    0 <= x < q@.len() && 0 <= y < q@[x].1@.len() implies (
                #[trigger] q@[x].1@[y].1).wf() && (#[trigger] q@[x].1@[y].1)@.len() > 0 by {
                    if x < lb {
                        assert(q@[x].1 == q0@[x].1);
                        assert(q0@[x].1@[y].1.wf() && q0@[x].1@[y].1@.len() > 0);
                    } else if x > lb {
                        assert(q@[x].1 == q0@[x - 1].1);
                        assert(q0@[x - 1].1@[y].1.wf() && q0@[x - 1].1@[y].1@.len() > 0);
                    }
                }
                assert forall|h2: Seq<u8>, a2: Seq<u8>, p2: Seq<u8>|
                    !(h2 == hash.bytes@ && a2 == subscriber.bytes@ && p2 == pk.bytes@) implies
                    spec_queue_has(*q, h2, a2, p2) == spec_queue_has(q0, h2, a2, p2) by {
                    if h2 == hash.bytes@ {
                        assert(map_get(q0@, h2) == None::<ByteMap<ByteMap<()>>>);
                        assert(map_get(q@, h2) == Some(m));
                        assert(addr_set_has(m, a2, p2) == false);
                    }
                }
                assert(spec_queue_has(*q, hash.bytes@, subscriber.bytes@, pk.bytes@)) by {
                    assert(map_get(q@, hash.bytes@) == Some(m));
                }
            }
        },
    }
}

/// The subscription under `(addr, id)` in a subscriber map.
pub open spec fn subs_get(subs: ByteMap<SubscriptionGroup>, addr: Seq<u8>, id: Seq<u8>) -> Option<
    Subscription,
> {
    match map_get(subs@, addr) {
        Some(g) => map_get(g.subscriptions@, id),
        None => None,
    }
}

/// Whether a live (non-failed) subscription sits under `(addr, id)`.
pub open spec fn live_at(subs: ByteMap<SubscriptionGroup>, addr: Seq<u8>, id: Seq<u8>) -> bool {
    match subs_get(subs, addr, id) {
        Some(s) => !s.failed,
        None => false,
    }
}

/// A well-formed subscriber map: sorted, with sorted nonempty groups.
pub open spec fn subs_wf(subs: ByteMap<SubscriptionGroup>) -> bool {
    &&& subs.wf()
    &&& forall|i: int| 0 <= i < subs@.len() ==> (#[trigger] subs@[i].1).wf()
    &&& forall|i: int|
        0 <= i < subs@.len() ==> (#[trigger] subs@[i].1).subscriptions@.len() > 0
}

/// A blob has a live subscription exactly when some key pair holds one.
pub proof fn lemma_live_sub_iff(b: Blob)
    requires
        b.wf(),
    ensures
        blob_has_live_sub(b) <==> exists|a2: Seq<u8>, i2: Seq<u8>| #[trigger]
            live_at(b.subscribers, a2, i2),
{
    if blob_has_live_sub(b) {
        let (x, y) = choose|x: int, y: int|
            0 <= x < b.subscribers@.len() && 0 <= y < b.subscribers@[x].1.subscriptions@.len()
                && !(#[trigger] b.subscribers@[x].1.subscriptions@[y]).1.failed;
        let a2 = b.subscribers@[x].0@;
        let g = b.subscribers@[x].1;
        let i2 = g.subscriptions@[y].0@;
        lemma_get_at(b.subscribers@, a2, x);
        lemma_get_at(g.subscriptions@, i2, y);
        assert(live_at(b.subscribers, a2, i2));
    }
    if exists|a2: Seq<u8>, i2: Seq<u8>| #[trigger] live_at(b.subscribers, a2, i2) {
        let (a2, i2) = choose|a2: Seq<u8>, i2: Seq<u8>| #[trigger] live_at(b.subscribers, a2, i2);
        crate::bmap::lemma_get_char(b.subscribers@, a2);
        let g = match map_get(b.subscribers@, a2) {
            Some(g) => g,
            None => arbitrary(),
        };
        let x = choose|x: int|
            0 <= x < b.subscribers@.len() && b.subscribers@[x].0@ == a2 && b.subscribers@[x].1
                == g;
        crate::bmap::lemma_get_char(g.subscriptions@, i2);
        let sub = match map_get(g.subscriptions@, i2) {
            Some(s) => s,
            None => arbitrary(),
        };
        let y = choose|y: int|
            0 <= y < g.subscriptions@.len() && g.subscriptions@[y].0@ == i2 && g.subscriptions@[y].1
                == sub;
        assert(!b.subscribers@[x].1.subscriptions@[y].1.failed);
    }
}

/// Stores `sub` under `(addr, id)` in a subscriber map, creating the group
/// if the address is new.
fn subs_set(
    subs: &mut ByteMap<SubscriptionGroup>,
    addr: &Address,
    id_bytes: &Vec<u8>,
    sub: Subscription,
)
    requires
        subs_wf(*old(subs)),
    ensures
        subs_wf(*final(subs)),
        subs_get(*final(subs), addr.bytes@, id_bytes@) == Some(sub),
        forall|a2: Seq<u8>, i2: Seq<u8>|
            !(a2 == addr.bytes@ && i2 == id_bytes@) ==> subs_get(*final(subs), a2, i2) == subs_get(
                *old(subs),
                a2,
                i2,
            ),
        forall|a2: Seq<u8>|
            a2 != addr.bytes@ ==> map_get(final(subs)@, a2) == map_get(old(subs)@, a2),
        map_has(final(subs)@, addr.bytes@),
        final(subs)@.len() == old(subs)@.len() + (if map_has(old(subs)@, addr.bytes@) {
            0int
        } else {
            1int
        }),
        (match (map_get(old(subs)@, addr.bytes@), map_get(final(subs)@, addr.bytes@)) {
            (Some(g1), Some(g2)) => g2.subscriptions@.len() == g1.subscriptions@.len() + (
            if map_has(g1.subscriptions@, id_bytes@) {
                0int
            } else {
                1int
            }),
            (None, Some(g2)) => g2.subscriptions@.len() == 1,
            _ => false,
        }),
{
    let ghost subs0 = *subs;
    match subs.index_of(&addr.bytes) {
        Some(i) => {
            let (ak, mut g) = subs.take_at(i);
            let ghost g0 = g;
            g.subscriptions.insert(dup_bytes(id_bytes), sub);
            proof {
                if map_has(g0.subscriptions@, id_bytes@) {
                    crate::bmap::lemma_idx_from_props(g0.subscriptions@, id_bytes@, 0);
                } else {
                    crate::bmap::lemma_lb_props(g0.subscriptions@, id_bytes@, 0);
                }
            }
            subs.put_at(i, ak, g);
            proof {
                lemma_remove_insert_is_update(subs0@, i as int, (ak, g));
                lemma_get_update(subs0@, i as int, (ak, g), addr.bytes@);
                assert forall|a2: Seq<u8>| a2 != addr.bytes@ implies map_get(subs@, a2) == map_get(
                    subs0@,
                    a2,
                ) by {
                    lemma_get_update(subs0@, i as int, (ak, g), a2);
                }
                assert forall|x: int| 0 <= x < subs@.len() implies (#[trigger] subs@[x].1).wf() by {
                    if x != i {
                        assert(subs@[x].1 == subs0@[x].1);
                    }
                }
                assert forall|a2: Seq<u8>, i2: Seq<u8>|
                    !(a2 == addr.bytes@ && i2 == id_bytes@) implies subs_get(*subs, a2, i2)
                    == subs_get(subs0, a2, i2) by {
                    if a2 == addr.bytes@ {
                        assert(map_get(subs0@, a2) == Some(g0));
                        assert(map_get(subs@, a2) == Some(g));
                        assert(map_get(g.subscriptions@, i2) == map_get(g0.subscriptions@, i2));
                    }
                }
                assert(map_get(subs0@, addr.bytes@) == Some(g0));
            }
        },
        None => {
            let mut g = SubscriptionGroup { subscriptions: ByteMap::new() };
            g.subscriptions.insert(dup_bytes(id_bytes), sub);
            let ghost g1 = g;
            subs.insert(dup_bytes(&addr.bytes), g);
            proof {
                crate::bmap::lemma_lb_props(subs0@, addr.bytes@, 0);
                let lb = map_lb(subs0@, addr.bytes@);
                crate::bmap::lemma_idx_from_props(subs0@, addr.bytes@, 0);
                assert forall|x: int| 0 <= x < subs@.len() implies (#[trigger] subs@[x].1).wf() by {
                    if x < lb {
                        assert(subs@[x].1 == subs0@[x].1);
                    } else if x > lb {
                        assert(subs@[x].1 == subs0@[x - 1].1);
                    }
                }
                assert forall|a2: Seq<u8>, i2: Seq<u8>|
                    !(a2 == addr.bytes@ && i2 == id_bytes@) implies subs_get(*subs, a2, i2)
                    == subs_get(subs0, a2, i2) by {
                    if a2 == addr.bytes@ {
                        assert(map_get(subs@, a2) == Some(g1));
                        assert(map_get(g1.subscriptions@, i2) == None::<Subscription>);
                        assert(map_get(subs0@, a2) == None::<SubscriptionGroup>);
                    }
                }
            }
        },
    }
}

/// The approval stored under receiver `r` and caller tag `t`.
pub open spec fn appr_get(
    ap: ByteMap<ByteMap<CreditApproval>>,
    r: Seq<u8>,
    t: Seq<u8>,
) -> Option<CreditApproval> {
    match map_get(ap@, r) {
        Some(inner) => map_get(inner@, t),
        None => None,
    }
}

/// A well-formed approval table: sorted at both levels.
pub open spec fn approvals_wf(ap: ByteMap<ByteMap<CreditApproval>>) -> bool {
    &&& ap.wf()
    &&& forall|i: int| 0 <= i < ap@.len() ==> map_sorted((#[trigger] ap@[i].1)@)
}

/// The approval consulted when `origin`'s transaction, passed through
/// `caller`, spends the account's credit: the entry under the exact caller
/// wins, the any-caller entry (the empty tag) is the fallback.
pub open spec fn spec_find_approval(a: Account, origin: Seq<u8>, caller: Seq<u8>) -> Option<
    CreditApproval,
> {
    match map_get(a.approvals@, origin) {
        Some(inner) => match map_get(inner@, caller) {
            Some(ap) => Some(ap),
            None => map_get(inner@, Seq::<u8>::empty()),
        },
        None => None,
    }
}

/// The caller tag under which that approval is stored.
pub open spec fn spec_approval_tag(a: Account, origin: Seq<u8>, caller: Seq<u8>) -> Seq<u8> {
    match map_get(a.approvals@, origin) {
        Some(inner) => if map_has(inner@, caller) {
            caller
        } else {
            Seq::<u8>::empty()
        },
        None => Seq::<u8>::empty(),
    }
}

/// Adds `add_used` to the spent amount of the approval stored under
/// `(origin, tag)`; the caller has checked that it exists and that the sum
/// stays in range.
fn approvals_bump(
    ap: &mut ByteMap<ByteMap<CreditApproval>>,
    origin: &Address,
    tag: &Vec<u8>,
    add_used: i128,
)
    requires
        approvals_wf(*old(ap)),
        match appr_get(*old(ap), origin.bytes@, tag@) {
            Some(apv) => i128::MIN <= apv.used + add_used <= i128::MAX,
            None => false,
        },
    ensures
        approvals_wf(*final(ap)),
        final(ap)@.len() == old(ap)@.len(),
        appr_get(*final(ap), origin.bytes@, tag@) == (match appr_get(
            *old(ap),
            origin.bytes@,
            tag@,
        ) {
            Some(apv) => Some(CreditApproval { used: (apv.used + add_used) as i128, ..apv }),
            None => None::<CreditApproval>,
        }),
        forall|r2: Seq<u8>, t2: Seq<u8>|
            !(r2 == origin.bytes@ && t2 == tag@) ==> appr_get(*final(ap), r2, t2) == appr_get(
                *old(ap),
                r2,
                t2,
            ),
{
    let ghost ap0 = *ap;
    let oi = match ap.index_of(&origin.bytes) {
        Some(oi) => oi,
        None => {
            proof {
                assert(false);
            }
            0
        },
    };
    let (ok_, mut inner) = ap.take_at(oi);
    let ghost inner0 = inner;
    let ti = match inner.index_of(tag) {
        Some(ti) => ti,
        None => {
            proof {
                assert(false);
            }
            0
        },
    };
    let apv = inner.entries[ti].1;
    let (tk, _old_apv) = inner.take_at(ti);
    let apv2 = CreditApproval { limit: apv.limit, expiry: apv.expiry, used: apv.used + add_used };
    inner.put_at(ti, tk, apv2);
    ap.put_at(oi, ok_, inner);
    proof {
        lemma_remove_insert_is_update(inner0@, ti as int, (tk, apv2));
        lemma_remove_insert_is_update(ap0@, oi as int, (ok_, inner));
        lemma_get_update(inner0@, ti as int, (tk, apv2), tag@);
        lemma_get_update(ap0@, oi as int, (ok_, inner), origin.bytes@);
        assert(map_get(ap0@, origin.bytes@) == Some(inner0));
        assert(map_get(inner0@, tag@) == Some(apv));
        assert forall|x: int| 0 <= x < ap@.len() implies map_sorted((#[trigger] ap@[x].1)@) by {
            if x != oi {
                assert(ap@[x].1 == ap0@[x].1);
            }
        }
        assert forall|r2: Seq<u8>, t2: Seq<u8>|
            !(r2 == origin.bytes@ && t2 == tag@) implies appr_get(*ap, r2, t2) == appr_get(
            ap0,
            r2,
            t2,
        ) by {
            lemma_get_update(ap0@, oi as int, (ok_, inner), r2);
            if r2 == origin.bytes@ {
                lemma_get_update(inner0@, ti as int, (tk, apv2), t2);
            }
        }
    }
}

/// A single approval within its bounds: spent amount non-negative and
/// within the limit, when one is set.
pub open spec fn approval_ok(apv: CreditApproval) -> bool {
    apv.used >= 0 && (match apv.limit {
        Some(l) => apv.used <= l,
        None => true,
    })
}

/// Index-level and lookup-level statements of "every approval in the table
/// is within bounds" agree on well-formed tables.
pub proof fn lemma_approvals_ok_iff(ap: ByteMap<ByteMap<CreditApproval>>)
    requires
        approvals_wf(ap),
    ensures
        (forall|x: int, y: int|
            0 <= x < ap@.len() && 0 <= y < ap@[x].1@.len() ==> approval_ok(
                (#[trigger] ap@[x].1@[y]).1,
            )) <==> (forall|r2: Seq<u8>, t2: Seq<u8>|
            match #[trigger] appr_get(ap, r2, t2) {
                Some(apv) => approval_ok(apv),
                None => true,
            }),
{
    if forall|x: int, y: int|
        0 <= x < ap@.len() && 0 <= y < ap@[x].1@.len() ==> approval_ok(
            (#[trigger] ap@[x].1@[y]).1,
        ) {
        assert forall|r2: Seq<u8>, t2: Seq<u8>|
            match #[trigger] appr_get(ap, r2, t2) {
                Some(apv) => approval_ok(apv),
                None => true,
            } by {
            crate::bmap::lemma_get_char(ap@, r2);
            match map_get(ap@, r2) {
                Some(inner) => {
                    let x = choose|x: int|
                        0 <= x < ap@.len() && ap@[x].0@ == r2 && ap@[x].1 == inner;
                    crate::bmap::lemma_get_char(inner@, t2);
                    match map_get(inner@, t2) {
                        Some(apv) => {
                            let y = choose|y: int|
                                0 <= y < inner@.len() && inner@[y].0@ == t2 && inner@[y].1 == apv;
                            assert(approval_ok(ap@[x].1@[y].1));
                        },
                        None => {},
                    }
                },
                None => {},
            }
        }
    }
    if forall|r2: Seq<u8>, t2: Seq<u8>|
        match #[trigger] appr_get(ap, r2, t2) {
            Some(apv) => approval_ok(apv),
            None => true,
        } {
        assert forall|x: int, y: int|
            0 <= x < ap@.len() && 0 <= y < ap@[x].1@.len() implies approval_ok(
            (#[trigger] ap@[x].1@[y]).1,
        ) by {
            lemma_get_at(ap@, ap@[x].0@, x);
            assert(map_sorted(ap@[x].1@));
            lemma_get_at(ap@[x].1@, ap@[x].1@[y].0@, y);
            assert(appr_get(ap, ap@[x].0@, ap@[x].1@[y].0@) == Some(ap@[x].1@[y].1));
        }
    }
}


/// Splitting a charged window at a midpoint changes nothing: the two
/// partial charges sum to the whole.
pub proof fn lemma_split_product(x: int, y: int, z: int, s: int)
    ensures
        (y - x) * s + (z - y) * s == (z - x) * s,
{
    assert((y - x) * s + (z - y) * s == (z - x) * s) by (nonlinear_arith);
}

/// The time-to-live actually used: the requested one, or the minimum.
pub open spec fn spec_ttl(ttl: Option<i64>) -> int {
    match ttl {
        None => MIN_TTL as int,
        Some(t) => t as int,
    }
}

/// The paying subscriber: the sponsor when one is named, else the origin.
pub open spec fn spec_payer(origin: Seq<u8>, sponsor: Option<Seq<u8>>) -> Seq<u8> {
    match sponsor {
        Some(sp) => sp,
        None => origin,
    }
}

/// Whether the operation spends someone else's credit and so needs a valid
/// approval: a sponsor distinct from the origin is named.
pub open spec fn spec_delegated(origin: Seq<u8>, sponsor: Option<Seq<u8>>) -> bool {
    match sponsor {
        Some(sp) => sp != origin,
        None => false,
    }
}

/// The credit a subscription change must back: the full term for a new
/// subscription, the (signed) change of term for an existing one.
pub open spec fn spec_required(
    blobs: ByteMap<Blob>,
    hash: Seq<u8>,
    payer: Seq<u8>,
    id: Seq<u8>,
    t: int,
    expiry: int,
    size: u64,
) -> int {
    match spec_sub_of(blobs, hash, payer, id) {
        Some(os) => (expiry - os.expiry) * (size as int),
        None => t * (size as int),
    }
}

/// The time-based debit owed by the account through `epoch`.
pub open spec fn spec_debit(a: Account, epoch: i64) -> int {
    (epoch - a.last_debit_epoch) * a.capacity_used
}

impl State {
    /// Whether every balance the blob addition writes stays in numeric
    /// range.
    pub open spec fn spec_add_blob_fits(
        self,
        a: Account,
        required: int,
        epoch: i64,
        hash: Seq<u8>,
        payer: Seq<u8>,
        id: Seq<u8>,
        size: u64,
    ) -> bool {
        let debit = spec_debit(a, epoch);
        let new_cap: int = if map_has(self.blobs@, hash) {
            0
        } else {
            size as int
        };
        let new_acct_cap: int = if spec_sub_of(self.blobs, hash, payer, id) is Some {
            0
        } else {
            size as int
        };
        &&& i128::MIN <= debit <= i128::MAX
        &&& i128::MIN <= self.credit_debited + debit <= i128::MAX
        &&& i128::MIN <= self.credit_committed - debit <= i128::MAX
        &&& i128::MIN <= self.credit_committed - debit + required <= i128::MAX
        &&& i128::MIN <= a.credit_committed - debit <= i128::MAX
        &&& i128::MIN <= a.credit_committed - debit + required <= i128::MAX
        &&& i128::MIN <= a.credit_free - required <= i128::MAX
        &&& i128::MIN <= self.capacity_used + new_cap <= i128::MAX
        &&& i128::MIN <= a.capacity_used + new_acct_cap <= i128::MAX
    }

    /// Which failure, if any, this blob addition produces.
    pub open spec fn spec_add_blob_err(
        self,
        origin: Seq<u8>,
        caller: Seq<u8>,
        sponsor: Option<Seq<u8>>,
        hash: Seq<u8>,
        id: Seq<u8>,
        size: u64,
        ttl: Option<i64>,
        epoch: i64,
    ) -> Option<BlobError> {
        let t = spec_ttl(ttl);
        let payer = spec_payer(origin, sponsor);
        let deleg = spec_delegated(origin, sponsor);
        if t < MIN_TTL {
            Some(BlobError::IllegalArgument)
        } else if epoch + t > i64::MAX as int {
            Some(BlobError::Overflow)
        } else {
            match map_get(self.accounts@, payer) {
                None => Some(BlobError::NotFound),
                Some(a) => {
                    let expiry = epoch + t;
                    let required = spec_required(self.blobs, hash, payer, id, t, expiry, size);
                    let fits = self.spec_add_blob_fits(a, required, epoch, hash, payer, id, size);
                    if deleg {
                        match spec_find_approval(a, origin, caller) {
                            None => Some(BlobError::Forbidden),
                            Some(apv) => if !apv.valid_at(epoch) {
                                Some(BlobError::Forbidden)
                            } else if !(i128::MIN <= required <= i128::MAX) {
                                Some(BlobError::Overflow)
                            } else if a.credit_free < required {
                                Some(BlobError::InsufficientFunds)
                            } else if required > 0 && !apv.allows(required) {
                                Some(BlobError::Forbidden)
                            } else if required > 0 && apv.limit is None && apv.used + required
                                > i128::MAX as int {
                                Some(BlobError::Overflow)
                            } else if epoch < a.last_debit_epoch {
                                Some(BlobError::IllegalState)
                            } else if !fits {
                                Some(BlobError::Overflow)
                            } else {
                                None
                            },
                        }
                    } else {
                        if !(i128::MIN <= required <= i128::MAX) {
                            Some(BlobError::Overflow)
                        } else if a.credit_free < required {
                            Some(BlobError::InsufficientFunds)
                        } else if epoch < a.last_debit_epoch {
                            Some(BlobError::IllegalState)
                        } else if !fits {
                            Some(BlobError::Overflow)
                        } else {
                            None
                        }
                    }
                },
            }
        }
    }

    /// The side condition under which the blob addition preserves the
    /// capacity law: a blob left uncounted by a failed resolution must not
    /// silently re-enter the count through a fresh subscription.
    pub open spec fn spec_add_capacity_ok(self, hash: Seq<u8>, payer: Seq<u8>, id: Seq<u8>) -> bool {
        match map_get(self.blobs@, hash) {
            Some(b) => (b.status is Failed && spec_sub_of(self.blobs, hash, payer, id) is None)
                ==> blob_has_live_sub(b),
            None => true,
        }
    }
}

/// The fields the stored subscription must carry after the addition.
pub open spec fn spec_new_sub_ok(
    old_blobs: ByteMap<Blob>,
    s2: Subscription,
    hash: Seq<u8>,
    payer: Seq<u8>,
    id: Seq<u8>,
    origin: Seq<u8>,
    caller: Seq<u8>,
    deleg: bool,
    expiry: int,
    epoch: i64,
    source: Seq<u8>,
) -> bool {
    match spec_sub_of(old_blobs, hash, payer, id) {
        Some(os) => {
            &&& s2.added == os.added
            &&& s2.expiry == expiry
            &&& s2.auto_renew == os.auto_renew
            &&& s2.source.bytes@ == source
            &&& (match (s2.delegate, os.delegate) {
                (None, None) => true,
                (Some(x), Some(y)) => x.0.bytes@ == y.0.bytes@ && x.1.bytes@ == y.1.bytes@,
                _ => false,
            })
            &&& s2.failed == os.failed
        },
        None => {
            &&& s2.added == epoch
            &&& s2.expiry == expiry
            &&& s2.auto_renew == false
            &&& s2.source.bytes@ == source
            &&& (if deleg {
                match s2.delegate {
                    Some(d) => d.0.bytes@ == origin && d.1.bytes@ == caller,
                    None => false,
                }
            } else {
                s2.delegate is None
            })
            &&& s2.failed == false
        },
    }
}

/// The product of a non-negative epoch count and a size always fits the
/// credit range.
fn mul_epochs_size(t: i64, size: u64) -> (r: i128)
    requires
        t >= 0,
    ensures
        r == t * size,
{
    let a = t as i128;
    let b = size as i128;
    proof {
        assert(a * b <= i128::MAX && a * b >= 0) by (nonlinear_arith)
            requires
                0 <= a <= i64::MAX as i128,
                0 <= b <= u64::MAX as i128,
        ;
    }
    a * b
}

/// Finds the approval consulted for `(origin, caller)` on this account, and
/// whether it sits under the exact caller tag or the any-caller tag.
fn find_approval(a: &Account, origin: &Address, caller: &Address) -> (r: Option<(
    CreditApproval,
    bool,
)>)
    ensures
        match r {
            Some(p) => spec_find_approval(*a, origin.bytes@, caller.bytes@) == Some(p.0)
                && spec_approval_tag(*a, origin.bytes@, caller.bytes@) == (if p.1 {
                caller.bytes@
            } else {
                Seq::<u8>::empty()
            }),
            None => spec_find_approval(*a, origin.bytes@, caller.bytes@) == None::<CreditApproval>,
        },
{
    let empty_tag: Vec<u8> = Vec::new();
    proof {
        assert(empty_tag@ =~= Seq::<u8>::empty());
    }
    match a.approvals.get(&origin.bytes) {
        None => None,
        Some(inner) => match inner.get(&caller.bytes) {
            Some(apv) => Some((*apv, true)),
            None => match inner.get(&empty_tag) {
                Some(apv) => Some((*apv, false)),
                None => None,
            },
        },
    }
}

/// Everything the state and the returned account satisfy after a
/// successful blob addition with the given computed charge and debit.
pub open spec fn spec_add_blob_post(
    pre: State,
    post: State,
    origin: Seq<u8>,
    caller: Seq<u8>,
    payer: Seq<u8>,
    deleg: bool,
    source: Seq<u8>,
    hash: Seq<u8>,
    metadata: Seq<u8>,
    id: Seq<u8>,
    size: u64,
    expiry: int,
    epoch: i64,
    required: int,
    debit: int,
    acct: Account,
) -> bool {
    let a = map_get(pre.accounts@, payer)->0;
    let had_blob = map_has(pre.blobs@, hash);
    let had_sub = spec_sub_of(pre.blobs, hash, payer, id) is Some;
    let was_failed = match map_get(pre.blobs@, hash) {
        Some(b) => b.status is Failed,
        None => false,
    };
    &&& post.credit_debited == pre.credit_debited + debit
    &&& post.credit_committed == pre.credit_committed - debit + required
    &&& post.capacity_used == pre.capacity_used + (if had_blob {
        0int
    } else {
        size as int
    })
    &&& post.credit_sold == pre.credit_sold
    &&& post.capacity_free == pre.capacity_free
    &&& post.credit_debit_rate == pre.credit_debit_rate
    &&& post.pending == pre.pending
    &&& post.read_requests == pre.read_requests
    &&& post.accounts@.len() == pre.accounts@.len()
    &&& forall|k2: Seq<u8>| k2 != payer ==> map_get(post.accounts@, k2) == map_get(pre.accounts@, k2)
    &&& match map_get(post.accounts@, payer) {
        Some(a2) => {
            &&& a2.capacity_used == a.capacity_used + (if had_sub {
                0int
            } else {
                size as int
            })
            &&& a2.credit_free == a.credit_free - required
            &&& a2.credit_committed == a.credit_committed - debit + required
            &&& a2.last_debit_epoch == epoch
            &&& account_like(acct, a2)
            &&& if deleg && required > 0 {
                let tag = spec_approval_tag(a, origin, caller);
                &&& appr_get(a2.approvals, origin, tag) == (match appr_get(a.approvals, origin, tag) {
                    Some(apv) => Some(CreditApproval { used: (apv.used + required) as i128, ..apv }),
                    None => None::<CreditApproval>,
                })
                &&& forall|r2: Seq<u8>, t2: Seq<u8>|
                    !(r2 == origin && t2 == tag) ==> appr_get(a2.approvals, r2, t2) == appr_get(
                        a.approvals,
                        r2,
                        t2,
                    )
            } else {
                a2.approvals == a.approvals
            }
        },
        None => false,
    }
    &&& post.blobs@.len() == pre.blobs@.len() + (if had_blob {
        0int
    } else {
        1int
    })
    &&& forall|h2: Seq<u8>| h2 != hash ==> map_get(post.blobs@, h2) == map_get(pre.blobs@, h2)
    &&& match map_get(post.blobs@, hash) {
        Some(b2) => {
            &&& b2.size == (match map_get(pre.blobs@, hash) {
                Some(b) => b.size,
                None => size,
            })
            &&& b2.metadata_hash.bytes@ == (match map_get(pre.blobs@, hash) {
                Some(b) => b.metadata_hash.bytes@,
                None => metadata,
            })
            &&& b2.status == (if was_failed {
                BlobStatus::Failed
            } else {
                BlobStatus::Added
            })
            &&& match subs_get(b2.subscribers, payer, id) {
                Some(s2) => spec_new_sub_ok(
                    pre.blobs,
                    s2,
                    hash,
                    payer,
                    id,
                    origin,
                    caller,
                    deleg,
                    expiry,
                    epoch,
                    source,
                ),
                None => false,
            }
            &&& forall|a2: Seq<u8>, i2: Seq<u8>|
                !(a2 == payer && i2 == id) ==> subs_get(b2.subscribers, a2, i2) == (match map_get(
                    pre.blobs@,
                    hash,
                ) {
                    Some(b) => subs_get(b.subscribers, a2, i2),
                    None => None::<Subscription>,
                })
        },
        None => false,
    }
    &&& spec_exp(post.expiries, expiry as i64, payer) == Some(hash)
    &&& (match spec_sub_of(pre.blobs, hash, payer, id) {
        Some(os) => os.expiry != expiry ==> spec_exp(post.expiries, os.expiry, payer) == None::<
            Seq<u8>,
        >,
        None => true,
    })
    &&& forall|e2: i64, a2: Seq<u8>|
        !(a2 == payer && (e2 as int == expiry || (match spec_sub_of(pre.blobs, hash, payer, id) {
            Some(os) => e2 == os.expiry,
            None => false,
        }))) ==> spec_exp(post.expiries, e2, a2) == spec_exp(pre.expiries, e2, a2)
    &&& if !had_blob || !was_failed {
        &&& spec_queue_has(post.added, hash, payer, source)
        &&& forall|h2: Seq<u8>, a2: Seq<u8>, p2: Seq<u8>|
            !(h2 == hash && a2 == payer && p2 == source) ==> spec_queue_has(post.added, h2, a2, p2)
                == spec_queue_has(pre.added, h2, a2, p2)
    } else {
        post.added == pre.added
    }
}

impl State {
    /// Writes the state for a checked blob addition.  Every argument that
    /// carries a new balance has already been computed and checked against
    /// the numeric range; the contract restates each as an equation over
    /// the old state.
    #[verifier::rlimit(100)]
    #[verifier::spinoff_prover]
    fn add_blob_commit(
        &mut self,
        origin: &Address,
        caller: &Address,
        payer: &Address,
        deleg: bool,
        source: &PublicKey,
        hash: &BlobHash,
        metadata_hash: &BlobHash,
        idb: &Vec<u8>,
        size: u64,
        t: i64,
        expiry: i64,
        current_epoch: i64,
        sub_exists: bool,
        os_added: i64,
        os_expiry: i64,
        os_auto: bool,
        os_failed: bool,
        os_delegate: Option<(Address, Address)>,
        blob_failed: bool,
        tag_is_caller: bool,
        required: i128,
        debit: i128,
        g_debited: i128,
        g_comm: i128,
        g_cap: i128,
        a_comm: i128,
        a_free: i128,
        a_cap: i128,
    ) -> (ret: Account)
        requires
            old(self).wf(),
            map_has(old(self).accounts@, payer.bytes@),
            ({
                let a = map_get(old(self).accounts@, payer.bytes@)->0;
                let os_opt = spec_sub_of(old(self).blobs, hash.bytes@, payer.bytes@, idb@);
                &&& sub_exists == (os_opt is Some)
                &&& (match os_opt {
                    Some(os) => os_added == os.added && os_expiry == os.expiry && os_auto
                        == os.auto_renew && os_failed == os.failed && (match (
                        os_delegate,
                        os.delegate,
                    ) {
                        (None, None) => true,
                        (Some(x), Some(y)) => x.0.bytes@ == y.0.bytes@ && x.1.bytes@ == y.1.bytes@,
                        _ => false,
                    }),
                    None => os_delegate is None,
                })
                &&& blob_failed == (match map_get(old(self).blobs@, hash.bytes@) {
                    Some(b) => b.status is Failed,
                    None => false,
                })
                &&& expiry == current_epoch + t
                &&& current_epoch >= a.last_debit_epoch
                &&& required == spec_required(
                    old(self).blobs,
                    hash.bytes@,
                    payer.bytes@,
                    idb@,
                    t as int,
                    expiry as int,
                    size,
                )
                &&& debit == spec_debit(a, current_epoch)
                &&& g_debited == old(self).credit_debited + debit
                &&& g_comm == old(self).credit_committed - debit + required
                &&& g_cap == old(self).capacity_used + (if map_has(old(self).blobs@, hash.bytes@) {
                    0int
                } else {
                    size as int
                })
                &&& a_comm == a.credit_committed - debit + required
                &&& a_free == a.credit_free - required
                &&& a_cap == a.capacity_used + (if sub_exists {
                    0int
                } else {
                    size as int
                })
                &&& (deleg && required > 0 ==> (match spec_find_approval(
                    a,
                    origin.bytes@,
                    caller.bytes@,
                ) {
                    Some(apv) => apv.used + required <= i128::MAX && apv.allows(required as int),
                    None => false,
                }) && tag_is_caller == (spec_approval_tag(a, origin.bytes@, caller.bytes@)
                    == caller.bytes@) && appr_get(
                    a.approvals,
                    origin.bytes@,
                    spec_approval_tag(a, origin.bytes@, caller.bytes@),
                ) == spec_find_approval(a, origin.bytes@, caller.bytes@))
            }),
        ensures
            final(self).wf(),
            spec_add_blob_post(
                *old(self),
                *final(self),
                origin.bytes@,
                caller.bytes@,
                payer.bytes@,
                deleg,
                source.bytes@,
                hash.bytes@,
                metadata_hash.bytes@,
                idb@,
                size,
                expiry as int,
                current_epoch,
                required as int,
                debit as int,
                ret,
            ),
            old(self).inv_committed() ==> final(self).inv_committed(),
            old(self).inv_capacity() && old(self).spec_add_capacity_ok(
                hash.bytes@,
                payer.bytes@,
                idb@,
            ) ==> final(self).inv_capacity(),
            old(self).inv_approvals() ==> final(self).inv_approvals(),
    {
        let ghost s0 = *self;
        let ghost a = map_get(s0.accounts@, payer.bytes@)->0;
        let ai = match self.accounts.index_of(&payer.bytes) {
            Some(i) => i,
            None => {
                proof {
                    assert(false);
                }
                0
            },
        };
        proof {
            lemma_get_at(s0.accounts@, payer.bytes@, ai as int);
            assert(a == s0.accounts@[ai as int].1);
        }
        let bi_opt = self.blobs.index_of(&hash.bytes);
        let blob_exists = match bi_opt {
            Some(_i) => true,
            None => false,
        };
        let new_sub = if sub_exists {
            Subscription {
                added: os_added,
                expiry,
                auto_renew: os_auto,
                source: source.dup(),
                delegate: os_delegate,
                failed: os_failed,
            }
        } else {
            Subscription {
                added: current_epoch,
                expiry,
                auto_renew: false,
                source: source.dup(),
                delegate: if deleg {
                    Some((origin.dup(), caller.dup()))
                } else {
                    None
                },
                failed: false,
            }
        };
        let (ak, acct) = self.accounts.take_at(ai);
        let mut approvals = acct.approvals;
        if deleg && required > 0 {
            let tag: Vec<u8> = if tag_is_caller {
                dup_bytes(&caller.bytes)
            } else {
                Vec::new()
            };
            proof {
                assert(tag@ == spec_approval_tag(a, origin.bytes@, caller.bytes@)) by {
                    if !tag_is_caller {
                        assert(tag@ =~= Seq::<u8>::empty());
                    }
                }
            }
            approvals_bump(&mut approvals, origin, &tag, required);
        }
        let acct2 = Account {
            capacity_used: a_cap,
            credit_free: a_free,
            credit_committed: a_comm,
            last_debit_epoch: current_epoch,
            approvals,
        };
        let ret = acct2.dup();
        self.accounts.put_at(ai, ak, acct2);
        proof {
            lemma_remove_insert_is_update(s0.accounts@, ai as int, (ak, acct2));
            lemma_get_update(s0.accounts@, ai as int, (ak, acct2), payer.bytes@);
            assert forall|k2: Seq<u8>| k2 != payer.bytes@ implies map_get(self.accounts@, k2)
                == map_get(s0.accounts@, k2) by {
                lemma_get_update(s0.accounts@, ai as int, (ak, acct2), k2);
            }
            lemma_sum_update(s0.accounts@, ai as int, (ak, acct2), committed_of());
            assert forall|m: int| 0 <= m < self.accounts@.len() implies (
            #[trigger] self.accounts@[m].1).wf() by {
                if m != ai {
                    assert(self.accounts@[m].1 == s0.accounts@[m].1);
                }
            }
            if s0.inv_approvals() {
                lemma_approvals_ok_iff(a.approvals);
                lemma_approvals_ok_iff(acct2.approvals);
                assert forall|m: int| 0 <= m < self.accounts@.len() implies account_approvals_ok(
                    #[trigger] self.accounts@[m].1,
                ) by {
                    if m != ai {
                        assert(self.accounts@[m].1 == s0.accounts@[m].1);
                    } else {
                        assert(account_approvals_ok(a));
                        assert forall|r2: Seq<u8>, t2: Seq<u8>|
                            match #[trigger] appr_get(acct2.approvals, r2, t2) {
                                Some(apv) => approval_ok(apv),
                                None => true,
                            } by {
                            if deleg && required > 0 {
                                let tag = spec_approval_tag(a, origin.bytes@, caller.bytes@);
                                if !(r2 == origin.bytes@ && t2 == tag) {
                                    assert(appr_get(acct2.approvals, r2, t2) == appr_get(
                                        a.approvals,
                                        r2,
                                        t2,
                                    ));
                                }
                            } else {
                                assert(acct2.approvals == a.approvals);
                            }
                        }
                    }
                }
            }
        }
        let ghost s1_blobs = self.blobs;
        match bi_opt {
            None => {
                let mut subs: ByteMap<SubscriptionGroup> = ByteMap::new();
                subs_set(&mut subs, payer, &idb, new_sub);
                let blob = Blob {
                    size,
                    metadata_hash: metadata_hash.dup(),
                    subscribers: subs,
                    status: BlobStatus::Added,
                };
                let ghost blob_g = blob;
                let hk = dup_bytes(&hash.bytes);
                self.blobs.insert(hk, blob);
                proof {
                    crate::bmap::lemma_lb_props(s0.blobs@, hash.bytes@, 0);
                    let lb = map_lb(s0.blobs@, hash.bytes@);
                    crate::bmap::lemma_idx_from_props(s0.blobs@, hash.bytes@, 0);
                    lemma_sum_insert(s0.blobs@, lb, (hk, blob_g), counted_size_of());
                    assert forall|m: int| 0 <= m < self.blobs@.len() implies (
                    #[trigger] self.blobs@[m].1).wf() by {
                        if m < lb {
                            assert(self.blobs@[m].1 == s0.blobs@[m].1);
                        } else if m > lb {
                            assert(self.blobs@[m].1 == s0.blobs@[m - 1].1);
                        }
                    }
                    assert(counted_size_of()(blob_g) == size as int);
                }
            },
            Some(bi) => {
                let (bk, mut blob) = self.blobs.take_at(bi);
                let ghost b_old = blob;
                let now_failed = match blob.status {
                    BlobStatus::Failed => true,
                    _ => false,
                };
                if !now_failed {
                    blob.status = BlobStatus::Added;
                }
                subs_set(&mut blob.subscribers, payer, &idb, new_sub);
                let ghost b_new = blob;
                self.blobs.put_at(bi, bk, blob);
                proof {
                    lemma_remove_insert_is_update(s0.blobs@, bi as int, (bk, b_new));
                    lemma_get_update(s0.blobs@, bi as int, (bk, b_new), hash.bytes@);
                    assert forall|h2: Seq<u8>| h2 != hash.bytes@ implies map_get(self.blobs@, h2)
                        == map_get(s0.blobs@, h2) by {
                        lemma_get_update(s0.blobs@, bi as int, (bk, b_new), h2);
                    }
                    assert forall|m: int| 0 <= m < self.blobs@.len() implies (
                    #[trigger] self.blobs@[m].1).wf() by {
                        if m != bi {
                            assert(self.blobs@[m].1 == s0.blobs@[m].1);
                        }
                    }
                    lemma_sum_update(s0.blobs@, bi as int, (bk, b_new), counted_size_of());
                    if s0.inv_capacity() && s0.spec_add_capacity_ok(
                        hash.bytes@,
                        payer.bytes@,
                        idb@,
                    ) {
                        assert(counted_size_of()(b_new) == counted_size_of()(b_old)) by {
                            lemma_live_sub_iff(b_old);
                            lemma_live_sub_iff(b_new);
                            if !(b_old.status is Failed) {
                                assert(blob_counted(b_old));
                                assert(blob_counted(b_new));
                            } else {
                                if sub_exists {
                                    if blob_has_live_sub(b_old) {
                                        let (xa, xi) = choose|xa: Seq<u8>, xi: Seq<u8>| #[trigger]
                                            live_at(b_old.subscribers, xa, xi);
                                        assert(live_at(b_new.subscribers, xa, xi));
                                    }
                                    if blob_has_live_sub(b_new) {
                                        let (xa, xi) = choose|xa: Seq<u8>, xi: Seq<u8>| #[trigger]
                                            live_at(b_new.subscribers, xa, xi);
                                        assert(live_at(b_old.subscribers, xa, xi));
                                    }
                                } else {
                                    assert(blob_has_live_sub(b_old));
                                    assert(live_at(b_new.subscribers, payer.bytes@, idb@));
                                    assert(blob_has_live_sub(b_new));
                                }
                            }
                        }
                    }
                }
            },
        }
        self.credit_debited = g_debited;
        self.credit_committed = g_comm;
        self.capacity_used = g_cap;
        update_expiry_index(
            &mut self.expiries,
            payer,
            hash,
            Some(expiry),
            if sub_exists && os_expiry != expiry {
                Some(os_expiry)
            } else {
                None
            },
        );
        if !blob_exists || !blob_failed {
            queue_insert(&mut self.added, hash, payer, source);
        }
        ret
    }

    /// Adds (or extends) a subscription by `payer = sponsor ?? origin` to
    /// the blob under `hash`: charges the full term for a new subscription
    /// or the signed change of term for an existing one, debits the payer's
    /// running usage first, brings the expiry index in step, and queues the
    /// blob for the resolver unless a failed resolution stands.  Under the
    /// rule that every subscriber backs its own full term, shortening a
    /// subscription only gives up the shortener's own coverage, so it is
    /// accepted without consulting the rest of the group.
    #[verifier::rlimit(100)]
    #[verifier::spinoff_prover]
    pub fn add_blob(
        &mut self,
        origin: &Address,
        caller: &Address,
        sponsor: Option<&Address>,
        source: &PublicKey,
        hash: &BlobHash,
        metadata_hash: &BlobHash,
        id: &SubscriptionId,
        size: u64,
        ttl: Option<i64>,
        current_epoch: i64,
    ) -> (r: Result<Account, BlobError>)
        requires
            old(self).wf(),
            caller.wf(),
        ensures
            final(self).wf(),
            ({
                let sponsor_v = match sponsor {
                    Some(sp) => Some(sp.bytes@),
                    None => None,
                };
                let payer = spec_payer(origin.bytes@, sponsor_v);
                let deleg = spec_delegated(origin.bytes@, sponsor_v);
                let t = spec_ttl(ttl);
                let expiry = current_epoch + t;
                let err = old(self).spec_add_blob_err(
                    origin.bytes@,
                    caller.bytes@,
                    sponsor_v,
                    hash.bytes@,
                    id.enc(),
                    size,
                    ttl,
                    current_epoch,
                );
                match r {
                    Err(e) => err == Some(e) && *final(self) == *old(self),
                    Ok(acct) => {
                        let required = spec_required(
                            old(self).blobs,
                            hash.bytes@,
                            payer,
                            id.enc(),
                            t,
                            expiry,
                            size,
                        );
                        let a = map_get(old(self).accounts@, payer)->0;
                        let debit = spec_debit(a, current_epoch);
                        &&& err == None::<BlobError>
                        &&& spec_add_blob_post(
                            *old(self),
                            *final(self),
                            origin.bytes@,
                            caller.bytes@,
                            payer,
                            deleg,
                            source.bytes@,
                            hash.bytes@,
                            metadata_hash.bytes@,
                            id.enc(),
                            size,
                            expiry,
                            current_epoch,
                            required,
                            debit,
                            acct,
                        )
                    },
                }
            }),
            old(self).inv_committed() ==> final(self).inv_committed(),
            ({
                let sponsor_v = match sponsor {
                    Some(sp) => Some(sp.bytes@),
                    None => None,
                };
                old(self).inv_capacity() && old(self).spec_add_capacity_ok(
                    hash.bytes@,
                    spec_payer(origin.bytes@, sponsor_v),
                    id.enc(),
                ) ==> final(self).inv_capacity()
            }),
            old(self).inv_approvals() ==> final(self).inv_approvals(),
    {
        let ghost s0 = *self;
        let ghost sponsor_v: Option<Seq<u8>> = match sponsor {
            Some(sp) => Some(sp.bytes@),
            None => None,
        };
        let t: i64 = match ttl {
            None => MIN_TTL,
            Some(v) => v,
        };
        if t < MIN_TTL {
            return Err(BlobError::IllegalArgument);
        }
        let expiry = match current_epoch.checked_add(t) {
            Some(e) => e,
            None => {
                return Err(BlobError::Overflow);
            },
        };
        let payer: &Address = match sponsor {
            Some(sp) => sp,
            None => origin,
        };
        let deleg = match sponsor {
            Some(sp) => !crate::ord::bytes_eq(&sp.bytes, &origin.bytes),
            None => false,
        };
        let ai = match self.accounts.index_of(&payer.bytes) {
            Some(i) => i,
            None => {
                return Err(BlobError::NotFound);
            },
        };
        proof {
            lemma_get_at(s0.accounts@, payer.bytes@, ai as int);
        }
        let ghost a = s0.accounts@[ai as int].1;
        let mut apv_used: i128 = 0;
        let mut apv_limit: Option<i128> = None;
        let mut tag_is_caller = false;
        if deleg {
            match find_approval(&self.accounts.entries[ai].1, origin, caller) {
                None => {
                    return Err(BlobError::Forbidden);
                },
                Some(p) => {
                    let apv = p.0;
                    match apv.expiry {
                        Some(e) => {
                            if current_epoch >= e {
                                return Err(BlobError::Forbidden);
                            }
                        },
                        None => {},
                    }
                    apv_used = apv.used;
                    apv_limit = apv.limit;
                    tag_is_caller = p.1;
                },
            }
        }
        let idb = id.to_bytes();
        let bi_opt = self.blobs.index_of(&hash.bytes);
        let mut sub_exists = false;
        let mut os_added: i64 = 0;
        let mut os_expiry: i64 = 0;
        let mut os_auto = false;
        let mut os_failed = false;
        let mut os_delegate: Option<(Address, Address)> = None;
        let mut blob_failed = false;
        match bi_opt {
            Some(bi) => {
                proof {
                    lemma_get_at(s0.blobs@, hash.bytes@, bi as int);
                }
                let b_ref = &self.blobs.entries[bi].1;
                blob_failed = match b_ref.status {
                    BlobStatus::Failed => true,
                    _ => false,
                };
                match b_ref.subscribers.get(&payer.bytes) {
                    None => {},
                    Some(g) => {
                        match g.subscriptions.get(&idb) {
                            None => {},
                            Some(os) => {
                                sub_exists = true;
                                os_added = os.added;
                                os_expiry = os.expiry;
                                os_auto = os.auto_renew;
                                os_failed = os.failed;
                                os_delegate = match &os.delegate {
                                    None => None,
                                    Some(d) => Some((d.0.dup(), d.1.dup())),
                                };
                            },
                        }
                    },
                }
            },
            None => {},
        }
        let required: i128 = if sub_exists {
            let diff: i128 = (expiry as i128) - (os_expiry as i128);
            match diff.checked_mul(size as i128) {
                Some(x) => x,
                None => {
                    return Err(BlobError::Overflow);
                },
            }
        } else {
            mul_epochs_size(t, size)
        };
        if self.accounts.entries[ai].1.credit_free < required {
            return Err(BlobError::InsufficientFunds);
        }
        if deleg && required > 0 {
            match apv_used.checked_add(required) {
                None => {
                    match apv_limit {
                        Some(_l) => {
                            return Err(BlobError::Forbidden);
                        },
                        None => {
                            return Err(BlobError::Overflow);
                        },
                    }
                },
                Some(nu) => {
                    match apv_limit {
                        Some(l) => {
                            if nu > l {
                                return Err(BlobError::Forbidden);
                            }
                        },
                        None => {},
                    }
                },
            }
        }
        if current_epoch < self.accounts.entries[ai].1.last_debit_epoch {
            return Err(BlobError::IllegalState);
        }
        let a_ld = self.accounts.entries[ai].1.last_debit_epoch;
        let dd: i128 = (current_epoch as i128) - (a_ld as i128);
        let debit = match dd.checked_mul(self.accounts.entries[ai].1.capacity_used) {
            Some(x) => x,
            None => {
                return Err(BlobError::Overflow);
            },
        };
        let g_debited = match self.credit_debited.checked_add(debit) {
            Some(x) => x,
            None => {
                return Err(BlobError::Overflow);
            },
        };
        let g_comm1 = match self.credit_committed.checked_sub(debit) {
            Some(x) => x,
            None => {
                return Err(BlobError::Overflow);
            },
        };
        let g_comm = match g_comm1.checked_add(required) {
            Some(x) => x,
            None => {
                return Err(BlobError::Overflow);
            },
        };
        let a_comm1 = match self.accounts.entries[ai].1.credit_committed.checked_sub(debit) {
            Some(x) => x,
            None => {
                return Err(BlobError::Overflow);
            },
        };
        let a_comm = match a_comm1.checked_add(required) {
            Some(x) => x,
            None => {
                return Err(BlobError::Overflow);
            },
        };
        let a_free = match self.accounts.entries[ai].1.credit_free.checked_sub(required) {
            Some(x) => x,
            None => {
                return Err(BlobError::Overflow);
            },
        };
        let blob_exists = match bi_opt {
            Some(_i) => true,
            None => false,
        };
        let new_cap_add: i128 = if blob_exists {
            0
        } else {
            size as i128
        };
        let g_cap = match self.capacity_used.checked_add(new_cap_add) {
            Some(x) => x,
            None => {
                return Err(BlobError::Overflow);
            },
        };
        let a_cap_add: i128 = if sub_exists {
            0
        } else {
            size as i128
        };
        let a_cap = match self.accounts.entries[ai].1.capacity_used.checked_add(a_cap_add) {
            Some(x) => x,
            None => {
                return Err(BlobError::Overflow);
            },
        };
        proof {
            assert(s0.spec_add_blob_err(
                origin.bytes@,
                caller.bytes@,
                sponsor_v,
                hash.bytes@,
                id.enc(),
                size,
                ttl,
                current_epoch,
            ) == None::<BlobError>);
        }
        // All checks passed: write the new state.
        proof {
            assert(idb@ == id.enc());
            let aa = map_get(s0.accounts@, payer.bytes@)->0;
            assert(aa == a);
            if deleg && required > 0 {
                let tag = spec_approval_tag(aa, origin.bytes@, caller.bytes@);
                assert(appr_get(aa.approvals, origin.bytes@, tag) == spec_find_approval(
                    aa,
                    origin.bytes@,
                    caller.bytes@,
                )) by {
                    match map_get(aa.approvals@, origin.bytes@) {
                        Some(inner) => {
                            if map_has(inner@, caller.bytes@) {
                                crate::bmap::lemma_idx_from_props(inner@, caller.bytes@, 0);
                            }
                        },
                        None => {},
                    }
                }
                assert(tag_is_caller == (tag == caller.bytes@)) by {
                    if !tag_is_caller {
                        assert(tag == Seq::<u8>::empty() || tag == caller.bytes@);
                        assert(caller.bytes@.len() >= 1);
                    }
                }
            }
        }
        let ret = self.add_blob_commit(
            origin,
            caller,
            payer,
            deleg,
            source,
            hash,
            metadata_hash,
            &idb,
            size,
            t,
            expiry,
            current_epoch,
            sub_exists,
            os_added,
            os_expiry,
            os_auto,
            os_failed,
            os_delegate,
            blob_failed,
            tag_is_caller,
            required,
            debit,
            g_debited,
            g_comm,
            g_cap,
            a_comm,
            a_free,
            a_cap,
        );
        proof {
            assert(idb@ == id.enc());
        }
        Ok(ret)
    }
}

/// Drops the resolver key `pk` recorded for `subscriber` from the
/// two-level map, dropping the subscriber when the last key goes.
fn addr_set_remove(m: &mut ByteMap<ByteMap<()>>, subscriber: &Vec<u8>, pk: &Vec<u8>)
    requires
        queue_entry_wf(*old(m)),
    ensures
        queue_entry_wf(*final(m)),
        !addr_set_has(*final(m), subscriber@, pk@),
        forall|a2: Seq<u8>, p2: Seq<u8>|
            !(a2 == subscriber@ && p2 == pk@) ==> addr_set_has(*final(m), a2, p2) == addr_set_has(
                *old(m),
                a2,
                p2,
            ),
        final(m)@.len() <= old(m)@.len(),
{
    let ghost m0 = *m;
    match m.index_of(subscriber) {
        None => {
            proof {
                crate::bmap::lemma_idx_from_props(m0@, subscriber@, 0);
            }
        },
        Some(j) => {
            let (ak, mut ks) = m.take_at(j);
            let ghost ks0 = ks;
            let prev = ks.remove(pk);
            if ks.is_empty() {
                proof {
                    crate::bmap::lemma_get_remove(m0@, j as int, subscriber@);
                    assert forall|a2: Seq<u8>, p2: Seq<u8>|
                        !(a2 == subscriber@ && p2 == pk@) implies addr_set_has(*m, a2, p2)
                        == addr_set_has(m0, a2, p2) by {
                        crate::bmap::lemma_get_remove(m0@, j as int, a2);
                        if a2 == subscriber@ {
                            assert(map_get(m0@, a2) == Some(ks0));
                            if prev is None {
                                assert(ks@ == ks0@);
                                assert(ks0@.len() == 0);
                                crate::bmap::lemma_idx_from_props(ks0@, p2, 0);
                            } else {
                                crate::bmap::lemma_idx_from_props(ks0@, pk@, 0);
                                assert(ks0@.len() == 1);
                                crate::bmap::lemma_idx_from_props(ks0@, p2, 0);
                            }
                        }
                    }
                    assert forall|x: int| 0 <= x < m@.len() implies (#[trigger] m@[x].1).wf() && (
                    #[trigger] m@[x].1)@.len() > 0 by {
                        if x < j {
                            assert(m@[x].1 == m0@[x].1);
                        } else {
                            assert(m@[x].1 == m0@[x + 1].1);
                        }
                    }
                }
            } else {
                m.put_at(j, ak, ks);
                proof {
                    lemma_remove_insert_is_update(m0@, j as int, (ak, ks));
                    lemma_get_update(m0@, j as int, (ak, ks), subscriber@);
                    assert forall|a2: Seq<u8>, p2: Seq<u8>|
                        !(a2 == subscriber@ && p2 == pk@) implies addr_set_has(*m, a2, p2)
                        == addr_set_has(m0, a2, p2) by {
                        lemma_get_update(m0@, j as int, (ak, ks), a2);
                        if a2 == subscriber@ {
                            assert(map_get(m0@, a2) == Some(ks0));
                            assert(map_get(ks@, p2) == map_get(ks0@, p2));
                        }
                    }
                    assert forall|x: int| 0 <= x < m@.len() implies (#[trigger] m@[x].1).wf() && (
                    #[trigger] m@[x].1)@.len() > 0 by {
                        if x != j {
                            assert(m@[x].1 == m0@[x].1);
                        }
                    }
                }
            }
        },
    }
}

/// Drops the `(subscriber, pk)` tuple recorded under `hash` from the
/// queue, dropping the subscriber when its last key goes and the hash when
/// its last subscriber goes.
pub fn queue_remove(
    q: &mut ByteMap<ByteMap<ByteMap<()>>>,
    hash: &BlobHash,
    subscriber: &Vec<u8>,
    pk: &Vec<u8>,
)
    requires
        queue_wf(*old(q)),
    ensures
        queue_wf(*final(q)),
        !spec_queue_has(*final(q), hash.bytes@, subscriber@, pk@),
        forall|h2: Seq<u8>, a2: Seq<u8>, p2: Seq<u8>|
            !(h2 == hash.bytes@ && a2 == subscriber@ && p2 == pk@) ==> spec_queue_has(
                *final(q),
                h2,
                a2,
                p2,
            ) == spec_queue_has(*old(q), h2, a2, p2),
{
    let ghost q0 = *q;
    match q.index_of(&hash.bytes) {
        None => {
            proof {
                crate::bmap::lemma_idx_from_props(q0@, hash.bytes@, 0);
            }
        },
        Some(i) => {
            let (hk, mut m) = q.take_at(i);
            let ghost m0 = m;
            proof {
                assert(queue_entry_wf(m0)) by {
                    assert(m0 == q0@[i as int].1);
                    assert forall|y: int| 0 <= y < m0@.len() implies (#[trigger] m0@[y].1).wf()
                        && (#[trigger] m0@[y].1)@.len() > 0 by {
                        assert(q0@[i as int].1@[y].1.wf());
                        assert(q0@[i as int].1@[y].1@.len() > 0);
                    }
                }
            }
            addr_set_remove(&mut m, subscriber, pk);
            if m.is_empty() {
                proof {
                    crate::bmap::lemma_get_remove(q0@, i as int, hash.bytes@);
                    assert forall|h2: Seq<u8>, a2: Seq<u8>, p2: Seq<u8>|
                        !(h2 == hash.bytes@ && a2 == subscriber@ && p2 == pk@) implies
                        spec_queue_has(*q, h2, a2, p2) == spec_queue_has(q0, h2, a2, p2) by {
                        crate::bmap::lemma_get_remove(q0@, i as int, h2);
                        if h2 == hash.bytes@ {
                            assert(map_get(q0@, h2) == Some(m0));
                            assert(addr_set_has(m0, a2, p2) == addr_set_has(m, a2, p2));
                            crate::bmap::lemma_idx_from_props(m@, a2, 0);
                        }
                    }
                    assert forall|x: int| 0 <= x < q@.len() implies (#[trigger] q@[x].1).wf() && (
                    #[trigger] q@[x].1)@.len() > 0 by {
                        if x < i {
                            assert(q@[x].1 == q0@[x].1);
                        } else {
                            assert(q@[x].1 == q0@[x + 1].1);
                        }
                    }
                    assert forall|x: int, y: int|
                        0 <= x < q@.len() && 0 <= y < q@[x].1@.len() implies (
                    #[trigger] q@[x].1@[y].1).wf() && (#[trigger] q@[x].1@[y].1)@.len() > 0 by {
                        if x < i {
                            assert(q@[x].1 == q0@[x].1);
                            assert(q0@[x].1@[y].1.wf() && q0@[x].1@[y].1@.len() > 0);
                        } else {
                            assert(q@[x].1 == q0@[x + 1].1);
                            assert(q0@[x + 1].1@[y].1.wf() && q0@[x + 1].1@[y].1@.len() > 0);
                        }
                    }
                }
            } else {
                q.put_at(i, hk, m);
                proof {
                    lemma_remove_insert_is_update(q0@, i as int, (hk, m));
                    lemma_get_update(q0@, i as int, (hk, m), hash.bytes@);
                    assert forall|h2: Seq<u8>, a2: Seq<u8>, p2: Seq<u8>|
                        !(h2 == hash.bytes@ && a2 == subscriber@ && p2 == pk@) implies
                        spec_queue_has(*q, h2, a2, p2) == spec_queue_has(q0, h2, a2, p2) by {
                        lemma_get_update(q0@, i as int, (hk, m), h2);
                        if h2 == hash.bytes@ {
                            assert(map_get(q0@, h2) == Some(m0));
                            assert(addr_set_has(m, a2, p2) == addr_set_has(m0, a2, p2));
                        }
                    }
                    assert forall|x: int| 0 <= x < q@.len() implies (#[trigger] q@[x].1).wf() && (
                    #[trigger] q@[x].1)@.len() > 0 by {
                        if x != i {
                            assert(q@[x].1 == q0@[x].1);
                        }
                    }
                    assert forall|x: int, y: int|
                        0 <= x < q@.len() && 0 <= y < q@[x].1@.len() implies (
                    #[trigger] q@[x].1@[y].1).wf() && (#[trigger] q@[x].1@[y].1)@.len() > 0 by {
                        if x != i {
                            assert(q@[x].1 == q0@[x].1);
                            assert(q0@[x].1@[y].1.wf() && q0@[x].1@[y].1@.len() > 0);
                        } else {
                            assert(q@[x].1 == m);
                        }
                    }
                }
            }
        },
    }
}

/// Drops every tuple recorded under `hash` from the queue.
pub fn queue_remove_hash(q: &mut ByteMap<ByteMap<ByteMap<()>>>, hash: &BlobHash)
    requires
        queue_wf(*old(q)),
    ensures
        queue_wf(*final(q)),
        map_get(final(q)@, hash.bytes@) == None::<ByteMap<ByteMap<()>>>,
        forall|h2: Seq<u8>|
            h2 != hash.bytes@ ==> map_get(final(q)@, h2) == map_get(old(q)@, h2),
        forall|h2: Seq<u8>, a2: Seq<u8>, p2: Seq<u8>|
            h2 != hash.bytes@ ==> spec_queue_has(*final(q), h2, a2, p2) == spec_queue_has(
                *old(q),
                h2,
                a2,
                p2,
            ),
{
    let ghost q0 = *q;
    let _prev = q.remove(&hash.bytes);
    proof {
        if _prev is Some {
            crate::bmap::lemma_idx_from_props(q0@, hash.bytes@, 0);
            let i = map_idx(q0@, hash.bytes@);
            assert forall|x: int| 0 <= x < q@.len() implies (#[trigger] q@[x].1).wf() && (
            #[trigger] q@[x].1)@.len() > 0 by {
                if x < i {
                    assert(q@[x].1 == q0@[x].1);
                } else {
                    assert(q@[x].1 == q0@[x + 1].1);
                }
            }
            assert forall|x: int, y: int|
                0 <= x < q@.len() && 0 <= y < q@[x].1@.len() implies (
            #[trigger] q@[x].1@[y].1).wf() && (#[trigger] q@[x].1@[y].1)@.len() > 0 by {
                if x < i {
                    assert(q@[x].1 == q0@[x].1);
                    assert(q0@[x].1@[y].1.wf() && q0@[x].1@[y].1@.len() > 0);
                } else {
                    assert(q@[x].1 == q0@[x + 1].1);
                    assert(q0@[x + 1].1@[y].1.wf() && q0@[x + 1].1@[y].1@.len() > 0);
                }
            }
        }
    }
}

/// Removes the subscription under `(addr, id)`, dropping the group when it
/// empties; reports whether the whole subscriber map is empty afterwards.
fn subs_remove(subs: &mut ByteMap<SubscriptionGroup>, addr: &Vec<u8>, id_bytes: &Vec<u8>) -> (r:
    bool)
    requires
        subs_wf(*old(subs)),
        subs_get(*old(subs), addr@, id_bytes@) is Some,
    ensures
        subs_wf(*final(subs)),
        subs_get(*final(subs), addr@, id_bytes@) == None::<Subscription>,
        forall|a2: Seq<u8>, i2: Seq<u8>|
            !(a2 == addr@ && i2 == id_bytes@) ==> subs_get(*final(subs), a2, i2) == subs_get(
                *old(subs),
                a2,
                i2,
            ),
        r == (final(subs)@.len() == 0),
{
    let ghost subs0 = *subs;
    let i = match subs.index_of(addr) {
        Some(i) => i,
        None => {
            proof {
                assert(false);
            }
            0
        },
    };
    let (ak, mut g) = subs.take_at(i);
    let ghost g0 = g;
    let prev = g.subscriptions.remove(id_bytes);
    proof {
        if prev is None {
            assert(false);
        }
        crate::bmap::lemma_idx_from_props(g0.subscriptions@, id_bytes@, 0);
    }
    if g.subscriptions.is_empty() {
        proof {
            crate::bmap::lemma_get_remove(subs0@, i as int, addr@);
            assert forall|a2: Seq<u8>, i2: Seq<u8>|
                !(a2 == addr@ && i2 == id_bytes@) implies subs_get(*subs, a2, i2) == subs_get(
                subs0,
                a2,
                i2,
            ) by {
                crate::bmap::lemma_get_remove(subs0@, i as int, a2);
                if a2 == addr@ {
                    assert(map_get(subs0@, a2) == Some(g0));
                    assert(g0.subscriptions@.len() == 1);
                    crate::bmap::lemma_idx_from_props(g0.subscriptions@, i2, 0);
                }
            }
            assert forall|x: int| 0 <= x < subs@.len() implies (#[trigger] subs@[x].1).wf() by {
                if x < i {
                    assert(subs@[x].1 == subs0@[x].1);
                } else {
                    assert(subs@[x].1 == subs0@[x + 1].1);
                }
            }
        }
        subs.is_empty()
    } else {
        subs.put_at(i, ak, g);
        proof {
            lemma_remove_insert_is_update(subs0@, i as int, (ak, g));
            lemma_get_update(subs0@, i as int, (ak, g), addr@);
            assert forall|a2: Seq<u8>, i2: Seq<u8>|
                !(a2 == addr@ && i2 == id_bytes@) implies subs_get(*subs, a2, i2) == subs_get(
                subs0,
                a2,
                i2,
            ) by {
                lemma_get_update(subs0@, i as int, (ak, g), a2);
                if a2 == addr@ {
                    assert(map_get(subs0@, a2) == Some(g0));
                    assert(map_get(g.subscriptions@, i2) == map_get(g0.subscriptions@, i2));
                }
            }
            assert forall|x: int| 0 <= x < subs@.len() implies (#[trigger] subs@[x].1).wf() by {
                if x != i {
                    assert(subs@[x].1 == subs0@[x].1);
                }
            }
        }
        subs.is_empty()
    }
}

/// Whether any subscription other than the one under `(addr, id)` is live.
fn has_other_live(subs: &ByteMap<SubscriptionGroup>, addr: &Vec<u8>, id_bytes: &Vec<u8>) -> (r:
    bool)
    requires
        subs_wf(*subs),
    ensures
        r == exists|a2: Seq<u8>, i2: Seq<u8>|
            !(a2 == addr@ && i2 == id_bytes@) && #[trigger] live_at(*subs, a2, i2),
{
    let n = subs.entries.len();
    let mut x: usize = 0;
    while x < n
        invariant
            0 <= x <= n,
            n == subs@.len(),
            subs_wf(*subs),
            forall|xi: int, yi: int|
                0 <= xi < x && 0 <= yi < subs@[xi].1.subscriptions@.len() ==> ((
                #[trigger] subs@[xi].1.subscriptions@[yi]).1.failed || (subs@[xi].0@ == addr@
                    && subs@[xi].1.subscriptions@[yi].0@ == id_bytes@)),
        decreases n - x,
    {
        let g = &subs.entries[x].1;
        let same_addr = crate::ord::bytes_eq(&subs.entries[x].0, addr);
        let m = g.subscriptions.entries.len();
        let mut y: usize = 0;
        while y < m
            invariant
                0 <= y <= m,
                0 <= x < n,
                n == subs@.len(),
                m == subs@[x as int].1.subscriptions@.len(),
                g == &subs.entries@[x as int].1,
                same_addr == (subs@[x as int].0@ == addr@),
                subs_wf(*subs),
                forall|yi: int|
                    0 <= yi < y ==> ((#[trigger] subs@[x as int].1.subscriptions@[yi]).1.failed || (
                    subs@[x as int].0@ == addr@ && subs@[x as int].1.subscriptions@[yi].0@
                        == id_bytes@)),
            decreases m - y,
        {
            let e = &g.subscriptions.entries[y];
            if !e.1.failed {
                let same_id = crate::ord::bytes_eq(&e.0, id_bytes);
                if !(same_addr && same_id) {
                    proof {
                        let a2 = subs@[x as int].0@;
                        let i2 = subs@[x as int].1.subscriptions@[y as int].0@;
                        lemma_get_at(subs@, a2, x as int);
                        lemma_get_at(subs@[x as int].1.subscriptions@, i2, y as int);
                        assert(live_at(*subs, a2, i2));
                    }
                    return true;
                }
            }
            y = y + 1;
        }
        x = x + 1;
    }
    proof {
        if exists|a2: Seq<u8>, i2: Seq<u8>|
            !(a2 == addr@ && i2 == id_bytes@) && #[trigger] live_at(*subs, a2, i2) {
            let (a2, i2) = choose|a2: Seq<u8>, i2: Seq<u8>|
                !(a2 == addr@ && i2 == id_bytes@) && #[trigger] live_at(*subs, a2, i2);
            crate::bmap::lemma_get_char(subs@, a2);
            let g2 = match map_get(subs@, a2) {
                Some(g2) => g2,
                None => arbitrary(),
            };
            let xi = choose|xi: int|
                0 <= xi < subs@.len() && subs@[xi].0@ == a2 && subs@[xi].1 == g2;
            crate::bmap::lemma_get_char(g2.subscriptions@, i2);
            let sub = match map_get(g2.subscriptions@, i2) {
                Some(s2) => s2,
                None => arbitrary(),
            };
            let yi = choose|yi: int|
                0 <= yi < g2.subscriptions@.len() && g2.subscriptions@[yi].0@ == i2
                    && g2.subscriptions@[yi].1 == sub;
            assert(subs@[xi].1.subscriptions@[yi].1.failed || (subs@[xi].0@ == addr@
                && subs@[xi].1.subscriptions@[yi].0@ == id_bytes@));
            assert(false);
        }
    }
    false
}

impl State {
    /// Whether every balance a failed finalization writes stays in numeric
    /// range.
    pub open spec fn spec_finalize_fits(
        self,
        a: Account,
        sub: Subscription,
        size: u64,
    ) -> bool {
        let refund = if a.last_debit_epoch > sub.added {
            (a.last_debit_epoch - sub.added) * (size as int)
        } else {
            0
        };
        let reclaim = if sub.expiry > a.last_debit_epoch {
            (sub.expiry - a.last_debit_epoch) * (size as int)
        } else {
            0
        };
        &&& refund <= i128::MAX
        &&& reclaim <= i128::MAX
        &&& a.credit_free + refund + reclaim <= i128::MAX
        &&& i128::MIN <= self.credit_debited - refund
        &&& i128::MIN <= self.capacity_used - size
        &&& i128::MIN <= a.capacity_used - size
        &&& i128::MIN <= self.credit_committed - reclaim
        &&& i128::MIN <= a.credit_committed - reclaim
    }

    /// Which failure, if any, finalizing the subscription produces.
    pub open spec fn spec_finalize_err(
        self,
        subscriber: Seq<u8>,
        hash: Seq<u8>,
        id: Seq<u8>,
        status: BlobStatus,
    ) -> Option<BlobError> {
        if !(status is Resolved || status is Failed) {
            Some(BlobError::IllegalState)
        } else {
            match map_get(self.accounts@, subscriber) {
                None => Some(BlobError::NotFound),
                Some(a) => match map_get(self.blobs@, hash) {
                    None => None,
                    Some(b) => if b.status is Resolved || b.status is Failed {
                        if b.status == status {
                            None
                        } else {
                            Some(BlobError::IllegalState)
                        }
                    } else {
                        match spec_sub_of(self.blobs, hash, subscriber, id) {
                            None => Some(BlobError::NotFound),
                            Some(sub) => if status is Failed && !self.spec_finalize_fits(
                                a,
                                sub,
                                b.size,
                            ) {
                                Some(BlobError::Overflow)
                            } else {
                                None
                            },
                        }
                    },
                },
            }
        }
    }

    /// Whether the call is one of the documented no-ops: the blob is gone,
    /// or it already carries the requested terminal status.
    pub open spec fn spec_finalize_noop(self, hash: Seq<u8>, status: BlobStatus) -> bool {
        match map_get(self.blobs@, hash) {
            None => true,
            Some(b) => b.status == status,
        }
    }

    /// Records the resolver's terminal verdict for one subscription.  A
    /// verdict for a deleted blob, or a repeat of the verdict already
    /// recorded, is accepted and changes nothing, so delivery may be
    /// retried; a conflicting verdict after the first is refused.  A failed
    /// verdict refunds the subscriber: spent credit for the wasted window
    /// since the subscription was added is re-minted, and the forward
    /// commitment returns to free credit.
    #[verifier::rlimit(100)]
    #[verifier::spinoff_prover]
    pub fn finalize_blob(
        &mut self,
        subscriber: &Address,
        hash: &BlobHash,
        id: &SubscriptionId,
        status: BlobStatus,
    ) -> (r: Result<(), BlobError>)
        requires
            old(self).wf(),
        ensures
            final(self).wf(),
            match r {
                Err(e) => old(self).spec_finalize_err(subscriber.bytes@, hash.bytes@, id.enc(), status)
                    == Some(e) && *final(self) == *old(self),
                Ok(u) => {
                    &&& old(self).spec_finalize_err(subscriber.bytes@, hash.bytes@, id.enc(), status)
                        == None::<BlobError>
                    &&& if old(self).spec_finalize_noop(hash.bytes@, status) {
                        *final(self) == *old(self)
                    } else {
                        let a = map_get(old(self).accounts@, subscriber.bytes@)->0;
                        let b = map_get(old(self).blobs@, hash.bytes@)->0;
                        let sub = spec_sub_of(old(self).blobs, hash.bytes@, subscriber.bytes@, id.enc())->0;
                        let refund = if status is Failed && a.last_debit_epoch > sub.added {
                            (a.last_debit_epoch - sub.added) * (b.size as int)
                        } else {
                            0
                        };
                        let reclaim = if status is Failed && sub.expiry > a.last_debit_epoch {
                            (sub.expiry - a.last_debit_epoch) * (b.size as int)
                        } else {
                            0
                        };
                        let others_live = exists|a2: Seq<u8>, i2: Seq<u8>|
                            !(a2 == subscriber.bytes@ && i2 == id.enc()) && #[trigger] live_at(
                                b.subscribers,
                                a2,
                                i2,
                            );
                        &&& final(self).credit_sold == old(self).credit_sold
                        &&& final(self).capacity_free == old(self).capacity_free
                        &&& final(self).credit_debit_rate == old(self).credit_debit_rate
                        &&& final(self).credit_debited == old(self).credit_debited - refund
                        &&& final(self).credit_committed == old(self).credit_committed - reclaim
                        &&& final(self).capacity_used == old(self).capacity_used - (
                        if status is Failed && !others_live {
                            b.size as int
                        } else {
                            0
                        })
                        &&& final(self).expiries == old(self).expiries
                        &&& final(self).added == old(self).added
                        &&& final(self).read_requests == old(self).read_requests
                        &&& final(self).accounts@.len() == old(self).accounts@.len()
                        &&& forall|k2: Seq<u8>|
                            k2 != subscriber.bytes@ ==> map_get(final(self).accounts@, k2)
                                == map_get(old(self).accounts@, k2)
                        &&& match map_get(final(self).accounts@, subscriber.bytes@) {
                            Some(a2) => {
                                &&& a2.credit_free == a.credit_free + refund + reclaim
                                &&& a2.credit_committed == a.credit_committed - reclaim
                                &&& a2.capacity_used == a.capacity_used - (if status is Failed {
                                    b.size as int
                                } else {
                                    0
                                })
                                &&& a2.last_debit_epoch == a.last_debit_epoch
                                &&& a2.approvals == a.approvals
                                &&& (status is Failed && sub.added <= a.last_debit_epoch
                                    <= sub.expiry ==> a2.credit_free == a.credit_free + (sub.expiry
                                    - sub.added) * (b.size as int))
                            },
                            None => false,
                        }
                        &&& final(self).blobs@.len() == old(self).blobs@.len()
                        &&& forall|h2: Seq<u8>|
                            h2 != hash.bytes@ ==> map_get(final(self).blobs@, h2) == map_get(
                                old(self).blobs@,
                                h2,
                            )
                        &&& match map_get(final(self).blobs@, hash.bytes@) {
                            Some(b2) => {
                                &&& b2.size == b.size
                                &&& b2.metadata_hash.bytes@ == b.metadata_hash.bytes@
                                &&& b2.status == status
                                &&& match subs_get(b2.subscribers, subscriber.bytes@, id.enc()) {
                                    Some(s2) => sub_like(
                                        s2,
                                        Subscription {
                                            failed: (if status is Failed {
                                                true
                                            } else {
                                                sub.failed
                                            }),
                                            ..sub
                                        },
                                    ),
                                    None => false,
                                }
                                &&& forall|a2: Seq<u8>, i2: Seq<u8>|
                                    !(a2 == subscriber.bytes@ && i2 == id.enc()) ==> subs_get(
                                        b2.subscribers,
                                        a2,
                                        i2,
                                    ) == subs_get(b.subscribers, a2, i2)
                            },
                            None => false,
                        }
                        &&& !spec_queue_has(
                            final(self).pending,
                            hash.bytes@,
                            subscriber.bytes@,
                            sub.source.bytes@,
                        )
                        &&& forall|h2: Seq<u8>, a2: Seq<u8>, p2: Seq<u8>|
                            !(h2 == hash.bytes@ && a2 == subscriber.bytes@ && p2
                                == sub.source.bytes@) ==> spec_queue_has(
                                final(self).pending,
                                h2,
                                a2,
                                p2,
                            ) == spec_queue_has(old(self).pending, h2, a2, p2)
                    }
                },
            },
            old(self).inv_committed() ==> final(self).inv_committed(),
            old(self).inv_capacity() ==> final(self).inv_capacity(),
            old(self).inv_approvals() ==> final(self).inv_approvals(),
    {
        let ghost s0 = *self;
        let terminal = match status {
            BlobStatus::Resolved => true,
            BlobStatus::Failed => true,
            _ => false,
        };
        if !terminal {
            return Err(BlobError::IllegalState);
        }
        let ai = match self.accounts.index_of(&subscriber.bytes) {
            Some(i) => i,
            None => {
                return Err(BlobError::NotFound);
            },
        };
        proof {
            lemma_get_at(s0.accounts@, subscriber.bytes@, ai as int);
        }
        let bi = match self.blobs.index_of(&hash.bytes) {
            Some(i) => i,
            None => {
                return Ok(());
            },
        };
        proof {
            lemma_get_at(s0.blobs@, hash.bytes@, bi as int);
        }
        let b_status = self.blobs.entries[bi].1.status;
        let pre_terminal = match b_status {
            BlobStatus::Resolved => true,
            BlobStatus::Failed => true,
            _ => false,
        };
        if pre_terminal {
            let same = match (b_status, status) {
                (BlobStatus::Resolved, BlobStatus::Resolved) => true,
                (BlobStatus::Failed, BlobStatus::Failed) => true,
                _ => false,
            };
            if same {
                return Ok(());
            } else {
                return Err(BlobError::IllegalState);
            }
        }
        let idb = id.to_bytes();
        let mut sub_found = false;
        let mut os_added: i64 = 0;
        let mut os_expiry: i64 = 0;
        let mut os_auto = false;
        let mut os_failed = false;
        let mut os_delegate: Option<(Address, Address)> = None;
        let mut os_source: PublicKey = PublicKey { bytes: Vec::new() };
        match self.blobs.entries[bi].1.subscribers.get(&subscriber.bytes) {
            None => {},
            Some(g) => {
                match g.subscriptions.get(&idb) {
                    None => {},
                    Some(os) => {
                        sub_found = true;
                        os_added = os.added;
                        os_expiry = os.expiry;
                        os_auto = os.auto_renew;
                        os_failed = os.failed;
                        os_delegate = match &os.delegate {
                            None => None,
                            Some(d) => Some((d.0.dup(), d.1.dup())),
                        };
                        os_source = os.source.dup();
                    },
                }
            },
        }
        if !sub_found {
            return Err(BlobError::NotFound);
        }
        let size = self.blobs.entries[bi].1.size;
        let failed = match status {
            BlobStatus::Failed => true,
            _ => false,
        };
        let mut refund: i128 = 0;
        let mut reclaim: i128 = 0;
        if failed {
            let a_ld = self.accounts.entries[ai].1.last_debit_epoch;
            if a_ld > os_added {
                let d: i128 = (a_ld as i128) - (os_added as i128);
                refund = match d.checked_mul(size as i128) {
                    Some(x) => x,
                    None => {
                        return Err(BlobError::Overflow);
                    },
                };
            }
            if os_expiry > a_ld {
                let d: i128 = (os_expiry as i128) - (a_ld as i128);
                reclaim = match d.checked_mul(size as i128) {
                    Some(x) => x,
                    None => {
                        return Err(BlobError::Overflow);
                    },
                };
            }
            let fr = match self.accounts.entries[ai].1.credit_free.checked_add(refund) {
                Some(x) => x,
                None => {
                    return Err(BlobError::Overflow);
                },
            };
            let _fr2 = match fr.checked_add(reclaim) {
                Some(x) => x,
                None => {
                    return Err(BlobError::Overflow);
                },
            };
            let _gd = match self.credit_debited.checked_sub(refund) {
                Some(x) => x,
                None => {
                    return Err(BlobError::Overflow);
                },
            };
            let _gc = match self.capacity_used.checked_sub(size as i128) {
                Some(x) => x,
                None => {
                    return Err(BlobError::Overflow);
                },
            };
            let _ac = match self.accounts.entries[ai].1.capacity_used.checked_sub(size as i128) {
                Some(x) => x,
                None => {
                    return Err(BlobError::Overflow);
                },
            };
            let _gcm = match self.credit_committed.checked_sub(reclaim) {
                Some(x) => x,
                None => {
                    return Err(BlobError::Overflow);
                },
            };
            let _acm = match self.accounts.entries[ai].1.credit_committed.checked_sub(reclaim) {
                Some(x) => x,
                None => {
                    return Err(BlobError::Overflow);
                },
            };
        }
        // All checks passed: write the new state.
        let ghost a = s0.accounts@[ai as int].1;
        let ghost b = s0.blobs@[bi as int].1;
        let (bk, mut blob) = self.blobs.take_at(bi);
        blob.status = status;
        let others = has_other_live(&blob.subscribers, &subscriber.bytes, &idb);
        if failed {
            let new_sub = Subscription {
                added: os_added,
                expiry: os_expiry,
                auto_renew: os_auto,
                source: os_source.dup(),
                delegate: os_delegate,
                failed: true,
            };
            subs_set(&mut blob.subscribers, subscriber, &idb, new_sub);
        }
        let ghost b_new = blob;
        self.blobs.put_at(bi, bk, blob);
        proof {
            lemma_remove_insert_is_update(s0.blobs@, bi as int, (bk, b_new));
            lemma_get_update(s0.blobs@, bi as int, (bk, b_new), hash.bytes@);
            assert forall|h2: Seq<u8>| h2 != hash.bytes@ implies map_get(self.blobs@, h2)
                == map_get(s0.blobs@, h2) by {
                lemma_get_update(s0.blobs@, bi as int, (bk, b_new), h2);
            }
            assert forall|m: int| 0 <= m < self.blobs@.len() implies (
            #[trigger] self.blobs@[m].1).wf() by {
                if m != bi {
                    assert(self.blobs@[m].1 == s0.blobs@[m].1);
                }
            }
            lemma_sum_update(s0.blobs@, bi as int, (bk, b_new), counted_size_of());
            lemma_live_sub_iff(b);
            lemma_live_sub_iff(b_new);
            assert(counted_size_of()(b) == b.size as int);
            if failed {
                if blob_has_live_sub(b_new) {
                    let (xa, xi) = choose|xa: Seq<u8>, xi: Seq<u8>| #[trigger]
                        live_at(b_new.subscribers, xa, xi);
                    assert(!(xa == subscriber.bytes@ && xi == idb@));
                    assert(live_at(b.subscribers, xa, xi));
                }
                if exists|a2: Seq<u8>, i2: Seq<u8>|
                    !(a2 == subscriber.bytes@ && i2 == idb@) && #[trigger] live_at(
                        b.subscribers,
                        a2,
                        i2,
                    ) {
                    let (xa, xi) = choose|xa: Seq<u8>, xi: Seq<u8>|
                        !(xa == subscriber.bytes@ && xi == idb@) && #[trigger] live_at(
                            b.subscribers,
                            xa,
                            xi,
                        );
                    assert(live_at(b_new.subscribers, xa, xi));
                    assert(blob_has_live_sub(b_new));
                }
            }
        }
        if failed {
            let (ak, acct) = self.accounts.take_at(ai);
            let acct2 = Account {
                capacity_used: acct.capacity_used - (size as i128),
                credit_free: acct.credit_free + refund + reclaim,
                credit_committed: acct.credit_committed - reclaim,
                last_debit_epoch: acct.last_debit_epoch,
                approvals: acct.approvals,
            };
            self.accounts.put_at(ai, ak, acct2);
            self.credit_debited = self.credit_debited - refund;
            self.credit_committed = self.credit_committed - reclaim;
            if !others {
                self.capacity_used = self.capacity_used - (size as i128);
            }
            proof {
                lemma_remove_insert_is_update(s0.accounts@, ai as int, (ak, acct2));
                lemma_get_update(s0.accounts@, ai as int, (ak, acct2), subscriber.bytes@);
                assert forall|k2: Seq<u8>| k2 != subscriber.bytes@ implies map_get(
                    self.accounts@,
                    k2,
                ) == map_get(s0.accounts@, k2) by {
                    lemma_get_update(s0.accounts@, ai as int, (ak, acct2), k2);
                }
                lemma_sum_update(s0.accounts@, ai as int, (ak, acct2), committed_of());
                assert forall|m: int| 0 <= m < self.accounts@.len() implies (
                #[trigger] self.accounts@[m].1).wf() by {
                    if m != ai {
                        assert(self.accounts@[m].1 == s0.accounts@[m].1);
                    }
                }
                if s0.inv_approvals() {
                    assert forall|m: int|
                        0 <= m < self.accounts@.len() implies account_approvals_ok(
                        #[trigger] self.accounts@[m].1,
                    ) by {
                        if m != ai {
                            assert(self.accounts@[m].1 == s0.accounts@[m].1);
                        } else {
                            assert(account_approvals_ok(a));
                        }
                    }
                }
            }
        }
        proof {
            if failed {
                lemma_split_product(
                    os_added as int,
                    a.last_debit_epoch as int,
                    os_expiry as int,
                    size as int,
                );
            }
        }
        queue_remove(&mut self.pending, hash, &subscriber.bytes, &os_source.bytes);
        Ok(())
    }
}


/// Everything the state and the returned account satisfy after a
/// successful deletion.
/// Everything a successful deletion does to the state apart from the
/// expiry index.
pub open spec fn spec_delete_core(
    pre: State,
    post: State,
    payer: Seq<u8>,
    hash: Seq<u8>,
    id: Seq<u8>,
    epoch: i64,
    acct: Account,
    deleted: bool,
) -> bool {

                        let a = map_get(pre.accounts@, payer)->0;
                        let b = map_get(pre.blobs@, hash)->0;
                        let sub = spec_sub_of(pre.blobs, hash, payer, id)->0;
                        let de = if sub.expiry < epoch {
                            sub.expiry
                        } else {
                            epoch
                        };
                        let dd: int = if de > a.last_debit_epoch {
                            de - a.last_debit_epoch
                        } else {
                            0
                        };
                        let debit = dd * a.capacity_used;
                        let reclaim: int = if !(b.status is Failed) && de == epoch {
                            (sub.expiry - de) * (b.size as int)
                        } else {
                            0
                        };
                        &&& post.credit_sold == pre.credit_sold
                        &&& post.capacity_free == pre.capacity_free
                        &&& post.credit_debit_rate == pre.credit_debit_rate
                        &&& post.credit_debited == pre.credit_debited + debit
                        &&& post.credit_committed == pre.credit_committed - debit
                            - reclaim
                        &&& post.capacity_used == pre.capacity_used - (if deleted
                            && !(b.status is Failed) {
                            b.size as int
                        } else {
                            0
                        })
                        &&& post.read_requests == pre.read_requests
                        &&& post.accounts@.len() == pre.accounts@.len()
                        &&& forall|k2: Seq<u8>|
                            k2 != payer ==> map_get(post.accounts@, k2) == map_get(
                                pre.accounts@,
                                k2,
                            )
                        &&& match map_get(post.accounts@, payer) {
                            Some(a2) => {
                                &&& a2.credit_free == a.credit_free + reclaim
                                &&& a2.credit_committed == a.credit_committed - debit - reclaim
                                &&& a2.capacity_used == a.capacity_used - (
                                if !(b.status is Failed) {
                                    b.size as int
                                } else {
                                    0
                                })
                                &&& a2.last_debit_epoch == (if de > a.last_debit_epoch {
                                    de
                                } else {
                                    a.last_debit_epoch
                                })
                                &&& a2.approvals == a.approvals
                                &&& account_like(acct, a2)
                            },
                            None => false,
                        }
                        &&& deleted == (match map_get(post.blobs@, hash) {
                            Some(b2) => false,
                            None => true,
                        })
                        &&& forall|h2: Seq<u8>|
                            h2 != hash ==> map_get(post.blobs@, h2) == map_get(
                                pre.blobs@,
                                h2,
                            )
                        &&& if deleted {
                            &&& post.blobs@.len() == pre.blobs@.len() - 1
                            &&& map_get(post.pending@, hash) == None::<ByteMap<
                                ByteMap<()>,
                            >>
                            &&& map_get(post.added@, hash) == None::<ByteMap<
                                ByteMap<()>,
                            >>
                            &&& forall|h2: Seq<u8>|
                                h2 != hash ==> map_get(post.pending@, h2) == map_get(
                                    pre.pending@,
                                    h2,
                                ) && map_get(post.added@, h2) == map_get(
                                    pre.added@,
                                    h2,
                                )
                        } else {
                            &&& post.blobs@.len() == pre.blobs@.len()
                            &&& post.pending == pre.pending
                            &&& post.added == pre.added
                            &&& match map_get(post.blobs@, hash) {
                                Some(b2) => {
                                    &&& b2.size == b.size
                                    &&& b2.status == b.status
                                    &&& b2.metadata_hash == b.metadata_hash
                                    &&& subs_get(b2.subscribers, payer, id) == None::<
                                        Subscription,
                                    >
                                    &&& forall|a2: Seq<u8>, i2: Seq<u8>|
                                        !(a2 == payer && i2 == id) ==> subs_get(
                                            b2.subscribers,
                                            a2,
                                            i2,
                                        ) == subs_get(b.subscribers, a2, i2)
                                },
                                None => false,
                            }
                        }
                        &&& deleted == (forall|a2: Seq<u8>, i2: Seq<u8>|
                            !(a2 == payer && i2 == id) ==> spec_sub_of(
                                pre.blobs,
                                hash,
                                a2,
                                i2,
                            ) is None)

}

/// Everything the state and the returned account satisfy after a
/// successful deletion, the expiry index included.
pub open spec fn spec_delete_post(
    pre: State,
    post: State,
    payer: Seq<u8>,
    hash: Seq<u8>,
    id: Seq<u8>,
    epoch: i64,
    acct: Account,
    deleted: bool,
) -> bool {
    let sub = spec_sub_of(pre.blobs, hash, payer, id)->0;
    &&& spec_delete_core(pre, post, payer, hash, id, epoch, acct, deleted)
    &&& spec_exp(post.expiries, sub.expiry, payer) == None::<Seq<u8>>
    &&& forall|e2: i64, a2: Seq<u8>|
        !(a2 == payer && e2 == sub.expiry) ==> spec_exp(post.expiries, e2, a2) == spec_exp(
            pre.expiries,
            e2,
            a2,
        )
}

impl State {
    /// Whether every balance the deletion writes stays in numeric range.
    pub open spec fn spec_delete_fits(
        self,
        a: Account,
        b: Blob,
        sub: Subscription,
        epoch: i64,
    ) -> bool {
        let de = if sub.expiry < epoch {
            sub.expiry
        } else {
            epoch
        };
        let dd: int = if de > a.last_debit_epoch {
            de - a.last_debit_epoch
        } else {
            0
        };
        let debit = dd * a.capacity_used;
        let reclaim: int = if !(b.status is Failed) && de == epoch {
            (sub.expiry - de) * (b.size as int)
        } else {
            0
        };
        &&& i128::MIN <= debit <= i128::MAX
        &&& i128::MIN <= self.credit_debited + debit <= i128::MAX
        &&& i128::MIN <= self.credit_committed - debit <= i128::MAX
        &&& i128::MIN <= a.credit_committed - debit <= i128::MAX
        &&& reclaim <= i128::MAX
        &&& i128::MIN <= self.credit_committed - debit - reclaim
        &&& i128::MIN <= a.credit_committed - debit - reclaim
        &&& a.credit_free + reclaim <= i128::MAX
        &&& i128::MIN <= a.capacity_used - (if !(b.status is Failed) {
            b.size as int
        } else {
            0
        })
        &&& i128::MIN <= self.capacity_used - (b.size as int)
    }

    /// Which failure, if any, the deletion produces.
    pub open spec fn spec_delete_err(
        self,
        origin: Seq<u8>,
        caller: Seq<u8>,
        sponsor: Option<Seq<u8>>,
        hash: Seq<u8>,
        id: Seq<u8>,
        epoch: i64,
    ) -> Option<BlobError> {
        let payer = spec_payer(origin, sponsor);
        let deleg = spec_delegated(origin, sponsor);
        match map_get(self.accounts@, payer) {
            None => Some(BlobError::NotFound),
            Some(a) => if deleg && (match spec_find_approval(a, origin, caller) {
                Some(apv) => !apv.valid_at(epoch),
                None => true,
            }) {
                Some(BlobError::Forbidden)
            } else {
                match map_get(self.blobs@, hash) {
                    None => Some(BlobError::NotFound),
                    Some(b) => match spec_sub_of(self.blobs, hash, payer, id) {
                        None => Some(BlobError::NotFound),
                        Some(sub) => if !self.spec_delete_fits(a, b, sub, epoch) {
                            Some(BlobError::Overflow)
                        } else {
                            None
                        },
                    },
                }
            },
        }
    }


    /// Writes the state for a checked deletion, leaving the expiry index
    /// untouched.  Every argument carrying a new balance has already been
    /// computed and checked against the numeric range; the contract
    /// restates each as an equation over the old state.
    #[verifier::rlimit(100)]
    #[verifier::spinoff_prover]
    fn delete_blob_apply(
        &mut self,
        payer: &Address,
        hash: &BlobHash,
        idb: &Vec<u8>,
        os_expiry: i64,
        os_failed: bool,
        blob_failed: bool,
        size: u64,
        de: i64,
        current_epoch: i64,
        debit: i128,
        g_deb: i128,
        g_c2: i128,
        a_c2: i128,
        a_free: i128,
        a_cap: i128,
        reclaim: i128,
    ) -> (r: (Account, bool))
        requires
            old(self).wf(),
            map_has(old(self).accounts@, payer.bytes@),
            ({
                let a = map_get(old(self).accounts@, payer.bytes@)->0;
                let os_opt = spec_sub_of(old(self).blobs, hash.bytes@, payer.bytes@, idb@);
                &&& (match os_opt {
                    Some(os) => os_expiry == os.expiry && os_failed == os.failed,
                    None => false,
                })
                &&& (match map_get(old(self).blobs@, hash.bytes@) {
                    Some(b) => blob_failed == (b.status is Failed) && size == b.size,
                    None => false,
                })
                &&& de == (if os_expiry < current_epoch {
                    os_expiry
                } else {
                    current_epoch
                })
                &&& debit == (if de > a.last_debit_epoch {
                    de - a.last_debit_epoch
                } else {
                    0
                }) * a.capacity_used
                &&& reclaim == (if !blob_failed && de == current_epoch {
                    (os_expiry - de) * (size as int)
                } else {
                    0
                })
                &&& g_deb == old(self).credit_debited + debit
                &&& g_c2 == old(self).credit_committed - debit - reclaim
                &&& a_c2 == a.credit_committed - debit - reclaim
                &&& a_free == a.credit_free + reclaim
                &&& a_cap == a.capacity_used - (if !blob_failed {
                    size as int
                } else {
                    0
                })
                &&& i128::MIN <= old(self).capacity_used - (size as int)
            }),
        ensures
            final(self).wf(),
            final(self).expiries == old(self).expiries,
            spec_delete_core(
                *old(self),
                *final(self),
                payer.bytes@,
                hash.bytes@,
                idb@,
                current_epoch,
                r.0,
                r.1,
            ),
            old(self).inv_committed() ==> final(self).inv_committed(),
            old(self).inv_capacity() && (match (
                map_get(old(self).blobs@, hash.bytes@),
                spec_sub_of(old(self).blobs, hash.bytes@, payer.bytes@, idb@),
            ) {
                (Some(b), Some(sub)) => b.status is Failed ==> sub.failed,
                _ => true,
            }) ==> final(self).inv_capacity(),
            old(self).inv_approvals() ==> final(self).inv_approvals(),
    {
        let ghost s0 = *self;
        let ai = match self.accounts.index_of(&payer.bytes) {
            Some(i) => i,
            None => {
                proof {
                    assert(false);
                }
                0
            },
        };
        proof {
            lemma_get_at(s0.accounts@, payer.bytes@, ai as int);
        }
        let ghost a = s0.accounts@[ai as int].1;
        let bi = match self.blobs.index_of(&hash.bytes) {
            Some(i) => i,
            None => {
                proof {
                    assert(false);
                }
                0
            },
        };
        proof {
            lemma_get_at(s0.blobs@, hash.bytes@, bi as int);
        }
        let ghost b = s0.blobs@[bi as int].1;
        let a_ld = self.accounts.entries[ai].1.last_debit_epoch;
        let (bk, mut blob) = self.blobs.take_at(bi);
        let empty = subs_remove(&mut blob.subscribers, &payer.bytes, idb);
        let ghost b_new = blob;
        proof {
            assert(empty == (forall|a2: Seq<u8>, i2: Seq<u8>|
                !(a2 == payer.bytes@ && i2 == idb@) ==> spec_sub_of(
                    s0.blobs,
                    hash.bytes@,
                    a2,
                    i2,
                ) is None)) by {
                if empty {
                    assert forall|a2: Seq<u8>, i2: Seq<u8>|
                        !(a2 == payer.bytes@ && i2 == idb@) implies spec_sub_of(
                        s0.blobs,
                        hash.bytes@,
                        a2,
                        i2,
                    ) is None by {
                        if spec_sub_of(s0.blobs, hash.bytes@, a2, i2) is Some {
                            assert(subs_get(blob.subscribers, a2, i2) == subs_get(
                                b.subscribers,
                                a2,
                                i2,
                            ));
                            crate::bmap::lemma_idx_from_props(blob.subscribers@, a2, 0);
                            assert(false);
                        }
                    }
                } else {
                    let k0 = blob.subscribers@[0].0@;
                    let g0 = blob.subscribers@[0].1;
                    assert(g0.subscriptions@.len() > 0);
                    let i0 = g0.subscriptions@[0].0@;
                    lemma_get_at(blob.subscribers@, k0, 0);
                    lemma_get_at(g0.subscriptions@, i0, 0);
                    assert(subs_get(blob.subscribers, k0, i0) is Some);
                    assert(!(k0 == payer.bytes@ && i0 == idb@));
                    assert(subs_get(b.subscribers, k0, i0) is Some);
                    assert(spec_sub_of(s0.blobs, hash.bytes@, k0, i0) is Some);
                }
            }
        }
        if empty {
            proof {
                crate::bmap::lemma_get_remove(s0.blobs@, bi as int, hash.bytes@);
                assert forall|h2: Seq<u8>| h2 != hash.bytes@ implies map_get(self.blobs@, h2)
                    == map_get(s0.blobs@, h2) by {
                    crate::bmap::lemma_get_remove(s0.blobs@, bi as int, h2);
                }
                assert forall|m: int| 0 <= m < self.blobs@.len() implies (
                #[trigger] self.blobs@[m].1).wf() by {
                    if m < bi {
                        assert(self.blobs@[m].1 == s0.blobs@[m].1);
                    } else {
                        assert(self.blobs@[m].1 == s0.blobs@[m + 1].1);
                    }
                }
                lemma_sum_remove(s0.blobs@, bi as int, counted_size_of());
                if b.status is Failed {
                    lemma_live_sub_iff(b);
                }
            }
            queue_remove_hash(&mut self.pending, hash);
            queue_remove_hash(&mut self.added, hash);
        } else {
            self.blobs.put_at(bi, bk, blob);
            proof {
                lemma_remove_insert_is_update(s0.blobs@, bi as int, (bk, b_new));
                lemma_get_update(s0.blobs@, bi as int, (bk, b_new), hash.bytes@);
                assert forall|h2: Seq<u8>| h2 != hash.bytes@ implies map_get(self.blobs@, h2)
                    == map_get(s0.blobs@, h2) by {
                    lemma_get_update(s0.blobs@, bi as int, (bk, b_new), h2);
                }
                assert forall|m: int| 0 <= m < self.blobs@.len() implies (
                #[trigger] self.blobs@[m].1).wf() by {
                    if m != bi {
                        assert(self.blobs@[m].1 == s0.blobs@[m].1);
                    }
                }
                lemma_sum_update(s0.blobs@, bi as int, (bk, b_new), counted_size_of());
                lemma_live_sub_iff(b);
                lemma_live_sub_iff(b_new);
                if b.status is Failed && os_failed {
                    if blob_has_live_sub(b_new) {
                        let (xa, xi) = choose|xa: Seq<u8>, xi: Seq<u8>| #[trigger]
                            live_at(b_new.subscribers, xa, xi);
                        assert(live_at(b.subscribers, xa, xi));
                    }
                    if blob_has_live_sub(b) {
                        let (xa, xi) = choose|xa: Seq<u8>, xi: Seq<u8>| #[trigger]
                            live_at(b.subscribers, xa, xi);
                        assert(!(xa == payer.bytes@ && xi == idb@));
                        assert(live_at(b_new.subscribers, xa, xi));
                    }
                }
            }
        }
        let (ak, acct) = self.accounts.take_at(ai);
        let acct2 = Account {
            capacity_used: a_cap,
            credit_free: a_free,
            credit_committed: a_c2,
            last_debit_epoch: if de > a_ld {
                de
            } else {
                a_ld
            },
            approvals: acct.approvals,
        };
        let ret = acct2.dup();
        self.accounts.put_at(ai, ak, acct2);
        proof {
            lemma_remove_insert_is_update(s0.accounts@, ai as int, (ak, acct2));
            lemma_get_update(s0.accounts@, ai as int, (ak, acct2), payer.bytes@);
            assert forall|k2: Seq<u8>| k2 != payer.bytes@ implies map_get(self.accounts@, k2)
                == map_get(s0.accounts@, k2) by {
                lemma_get_update(s0.accounts@, ai as int, (ak, acct2), k2);
            }
            lemma_sum_update(s0.accounts@, ai as int, (ak, acct2), committed_of());
            assert forall|m: int| 0 <= m < self.accounts@.len() implies (
            #[trigger] self.accounts@[m].1).wf() by {
                if m != ai {
                    assert(self.accounts@[m].1 == s0.accounts@[m].1);
                }
            }
            if s0.inv_approvals() {
                assert forall|m: int| 0 <= m < self.accounts@.len() implies account_approvals_ok(
                    #[trigger] self.accounts@[m].1,
                ) by {
                    if m != ai {
                        assert(self.accounts@[m].1 == s0.accounts@[m].1);
                    } else {
                        assert(account_approvals_ok(a));
                    }
                }
            }
        }
        self.credit_debited = g_deb;
        self.credit_committed = g_c2;
        if empty && !blob_failed {
            self.capacity_used = self.capacity_used - (size as i128);
        }
        (ret, empty)
    }

    /// Writes the state for a checked deletion and brings the expiry index
    /// in step.
    #[verifier::rlimit(100)]
    #[verifier::spinoff_prover]
    fn delete_blob_commit(
        &mut self,
        payer: &Address,
        hash: &BlobHash,
        idb: &Vec<u8>,
        os_expiry: i64,
        os_failed: bool,
        blob_failed: bool,
        size: u64,
        de: i64,
        current_epoch: i64,
        debit: i128,
        g_deb: i128,
        g_c2: i128,
        a_c2: i128,
        a_free: i128,
        a_cap: i128,
        reclaim: i128,
    ) -> (r: (Account, bool))
        requires
            old(self).wf(),
            map_has(old(self).accounts@, payer.bytes@),
            ({
                let a = map_get(old(self).accounts@, payer.bytes@)->0;
                let os_opt = spec_sub_of(old(self).blobs, hash.bytes@, payer.bytes@, idb@);
                &&& (match os_opt {
                    Some(os) => os_expiry == os.expiry && os_failed == os.failed,
                    None => false,
                })
                &&& (match map_get(old(self).blobs@, hash.bytes@) {
                    Some(b) => blob_failed == (b.status is Failed) && size == b.size,
                    None => false,
                })
                &&& de == (if os_expiry < current_epoch {
                    os_expiry
                } else {
                    current_epoch
                })
                &&& debit == (if de > a.last_debit_epoch {
                    de - a.last_debit_epoch
                } else {
                    0
                }) * a.capacity_used
                &&& reclaim == (if !blob_failed && de == current_epoch {
                    (os_expiry - de) * (size as int)
                } else {
                    0
                })
                &&& g_deb == old(self).credit_debited + debit
                &&& g_c2 == old(self).credit_committed - debit - reclaim
                &&& a_c2 == a.credit_committed - debit - reclaim
                &&& a_free == a.credit_free + reclaim
                &&& a_cap == a.capacity_used - (if !blob_failed {
                    size as int
                } else {
                    0
                })
                &&& i128::MIN <= old(self).capacity_used - (size as int)
            }),
        ensures
            final(self).wf(),
            final(self).expiries@.len() <= old(self).expiries@.len(),
            spec_delete_post(
                *old(self),
                *final(self),
                payer.bytes@,
                hash.bytes@,
                idb@,
                current_epoch,
                r.0,
                r.1,
            ),
            old(self).inv_committed() ==> final(self).inv_committed(),
            old(self).inv_capacity() && (match (
                map_get(old(self).blobs@, hash.bytes@),
                spec_sub_of(old(self).blobs, hash.bytes@, payer.bytes@, idb@),
            ) {
                (Some(b), Some(sub)) => b.status is Failed ==> sub.failed,
                _ => true,
            }) ==> final(self).inv_capacity(),
            old(self).inv_approvals() ==> final(self).inv_approvals(),
    {
        let ghost s0 = *self;
        let r = self.delete_blob_apply(
            payer,
            hash,
            idb,
            os_expiry,
            os_failed,
            blob_failed,
            size,
            de,
            current_epoch,
            debit,
            g_deb,
            g_c2,
            a_c2,
            a_free,
            a_cap,
            reclaim,
        );
        let ghost sm = *self;
        update_expiry_index(&mut self.expiries, payer, hash, None, Some(os_expiry));
        proof {
            assert(self.accounts == sm.accounts);
            assert(self.blobs == sm.blobs);
            assert(self.added == sm.added);
            assert(self.pending == sm.pending);
            assert(self.read_requests == sm.read_requests);
            assert(spec_delete_core(
                s0,
                *self,
                payer.bytes@,
                hash.bytes@,
                idb@,
                current_epoch,
                r.0,
                r.1,
            ));
            assert(sm.expiries == s0.expiries);
            assert forall|e2: i64, a2: Seq<u8>|
                !(a2 == payer.bytes@ && e2 == os_expiry) implies spec_exp(
                self.expiries,
                e2,
                a2,
            ) == spec_exp(s0.expiries, e2, a2) by {
                assert(spec_exp(sm.expiries, e2, a2) == spec_exp(s0.expiries, e2, a2));
            }
        }
        r
    }

    /// Computes every amount a deletion writes, or nothing when one of
    /// them would leave the numeric range: the debit epoch, the time
    /// debit, the new subnet debited and committed totals, the account's
    /// new committed, free and capacity values, and the reclaimed credit.
    #[verifier::rlimit(100)]
    fn compute_delete_amounts(
        &self,
        payer: &Address,
        hash: &BlobHash,
        idb: &Vec<u8>,
        current_epoch: i64,
    ) -> (r: Option<(i64, i128, i128, i128, i128, i128, i128, i128)>)
        requires
            self.wf(),
            map_has(self.accounts@, payer.bytes@),
            spec_sub_of(self.blobs, hash.bytes@, payer.bytes@, idb@) is Some,
        ensures
            ({
                let a = map_get(self.accounts@, payer.bytes@)->0;
                let b = map_get(self.blobs@, hash.bytes@)->0;
                let sub = spec_sub_of(self.blobs, hash.bytes@, payer.bytes@, idb@)->0;
                match r {
                    Some(t) => {
                        &&& self.spec_delete_fits(a, b, sub, current_epoch)
                        &&& t.0 == (if sub.expiry < current_epoch {
                            sub.expiry
                        } else {
                            current_epoch
                        })
                        &&& t.1 == (if t.0 > a.last_debit_epoch {
                            t.0 - a.last_debit_epoch
                        } else {
                            0
                        }) * a.capacity_used
                        &&& t.7 == (if !(b.status is Failed) && t.0 == current_epoch {
                            (sub.expiry - t.0) * (b.size as int)
                        } else {
                            0
                        })
                        &&& t.2 == self.credit_debited + t.1
                        &&& t.3 == self.credit_committed - t.1 - t.7
                        &&& t.4 == a.credit_committed - t.1 - t.7
                        &&& t.5 == a.credit_free + t.7
                        &&& t.6 == a.capacity_used - (if !(b.status is Failed) {
                            b.size as int
                        } else {
                            0
                        })
                        &&& i128::MIN <= self.capacity_used - (b.size as int)
                    },
                    None => !self.spec_delete_fits(a, b, sub, current_epoch),
                }
            }),
    {
        let ai = match self.accounts.index_of(&payer.bytes) {
            Some(i) => i,
            None => {
                proof {
                    assert(false);
                }
                0
            },
        };
        proof {
            lemma_get_at(self.accounts@, payer.bytes@, ai as int);
        }
        let bi = match self.blobs.index_of(&hash.bytes) {
            Some(i) => i,
            None => {
                proof {
                    assert(false);
                }
                0
            },
        };
        proof {
            lemma_get_at(self.blobs@, hash.bytes@, bi as int);
        }
        let mut os_expiry: i64 = 0;
        match self.blobs.entries[bi].1.subscribers.get(&payer.bytes) {
            None => {
                proof {
                    assert(false);
                }
            },
            Some(g) => {
                match g.subscriptions.get(idb) {
                    None => {
                        proof {
                            assert(false);
                        }
                    },
                    Some(os) => {
                        os_expiry = os.expiry;
                    },
                }
            },
        }
        let size = self.blobs.entries[bi].1.size;
        let blob_failed = match self.blobs.entries[bi].1.status {
            BlobStatus::Failed => true,
            _ => false,
        };
        let de: i64 = if os_expiry < current_epoch {
            os_expiry
        } else {
            current_epoch
        };
        let a_ld = self.accounts.entries[ai].1.last_debit_epoch;
        let dd: i128 = if de > a_ld {
            (de as i128) - (a_ld as i128)
        } else {
            0
        };
        let debit = match dd.checked_mul(self.accounts.entries[ai].1.capacity_used) {
            Some(x) => x,
            None => {
                return None;
            },
        };
        let g_deb = match self.credit_debited.checked_add(debit) {
            Some(x) => x,
            None => {
                return None;
            },
        };
        let g_c1 = match self.credit_committed.checked_sub(debit) {
            Some(x) => x,
            None => {
                return None;
            },
        };
        let a_c1 = match self.accounts.entries[ai].1.credit_committed.checked_sub(debit) {
            Some(x) => x,
            None => {
                return None;
            },
        };
        let mut reclaim: i128 = 0;
        if !blob_failed && de == current_epoch {
            let d: i128 = (os_expiry as i128) - (de as i128);
            reclaim = match d.checked_mul(size as i128) {
                Some(x) => x,
                None => {
                    proof {
                        assert(d * (size as i128) >= 0) by (nonlinear_arith)
                            requires
                                d >= 0,
                                size as i128 >= 0,
                        ;
                    }
                    return None;
                },
            };
        }
        let g_c2 = match g_c1.checked_sub(reclaim) {
            Some(x) => x,
            None => {
                return None;
            },
        };
        let a_c2 = match a_c1.checked_sub(reclaim) {
            Some(x) => x,
            None => {
                return None;
            },
        };
        let a_free = match self.accounts.entries[ai].1.credit_free.checked_add(reclaim) {
            Some(x) => x,
            None => {
                return None;
            },
        };
        let size_dec: i128 = if !blob_failed {
            size as i128
        } else {
            0
        };
        let a_cap = match self.accounts.entries[ai].1.capacity_used.checked_sub(size_dec) {
            Some(x) => x,
            None => {
                return None;
            },
        };
        match self.capacity_used.checked_sub(size as i128) {
            Some(_x) => {},
            None => {
                return None;
            },
        };
        Some((de, debit, g_deb, g_c2, a_c2, a_free, a_cap, reclaim))
    }

    /// Removes the subscription under `(payer = sponsor ?? origin, id)` on
    /// the blob under `hash`: debits the payer's running usage up to the
    /// earlier of the subscription's expiry and the current epoch, refunds
    /// the remaining commitment when deletion comes before expiry, keeps
    /// the expiry index in step, and deletes the blob (and its queue
    /// entries) when its last subscription goes.
    #[verifier::rlimit(100)]
    #[verifier::spinoff_prover]
    pub fn delete_blob(
        &mut self,
        origin: &Address,
        caller: &Address,
        sponsor: Option<&Address>,
        hash: &BlobHash,
        id: &SubscriptionId,
        current_epoch: i64,
    ) -> (r: Result<(Account, bool), BlobError>)
        requires
            old(self).wf(),
        ensures
            final(self).wf(),
            final(self).expiries@.len() <= old(self).expiries@.len(),
            ({
                let sponsor_v = match sponsor {
                    Some(sp) => Some(sp.bytes@),
                    None => None,
                };
                let payer = spec_payer(origin.bytes@, sponsor_v);
                let err = old(self).spec_delete_err(
                    origin.bytes@,
                    caller.bytes@,
                    sponsor_v,
                    hash.bytes@,
                    id.enc(),
                    current_epoch,
                );
                match r {
                    Err(e) => err == Some(e) && *final(self) == *old(self),
                    Ok(p) => err == None::<BlobError> && spec_delete_post(
                        *old(self),
                        *final(self),
                        payer,
                        hash.bytes@,
                        id.enc(),
                        current_epoch,
                        p.0,
                        p.1,
                    ),
                }
            }),
            old(self).inv_committed() ==> final(self).inv_committed(),
            ({
                let sponsor_v = match sponsor {
                    Some(sp) => Some(sp.bytes@),
                    None => None,
                };
                let payer = spec_payer(origin.bytes@, sponsor_v);
                old(self).inv_capacity() && (match (
                    map_get(old(self).blobs@, hash.bytes@),
                    spec_sub_of(old(self).blobs, hash.bytes@, payer, id.enc()),
                ) {
                    (Some(b), Some(sub)) => b.status is Failed ==> sub.failed,
                    _ => true,
                }) ==> final(self).inv_capacity()
            }),
            old(self).inv_approvals() ==> final(self).inv_approvals(),
    {
        let ghost s0 = *self;
        let ghost sponsor_v: Option<Seq<u8>> = match sponsor {
            Some(sp) => Some(sp.bytes@),
            None => None,
        };
        let payer: &Address = match sponsor {
            Some(sp) => sp,
            None => origin,
        };
        let deleg = match sponsor {
            Some(sp) => !crate::ord::bytes_eq(&sp.bytes, &origin.bytes),
            None => false,
        };
        let ai = match self.accounts.index_of(&payer.bytes) {
            Some(i) => i,
            None => {
                return Err(BlobError::NotFound);
            },
        };
        proof {
            lemma_get_at(s0.accounts@, payer.bytes@, ai as int);
        }
        let ghost a = s0.accounts@[ai as int].1;
        if deleg {
            match find_approval(&self.accounts.entries[ai].1, origin, caller) {
                None => {
                    return Err(BlobError::Forbidden);
                },
                Some(p) => {
                    match p.0.expiry {
                        Some(e) => {
                            if current_epoch >= e {
                                return Err(BlobError::Forbidden);
                            }
                        },
                        None => {},
                    }
                },
            }
        }
        let bi = match self.blobs.index_of(&hash.bytes) {
            Some(i) => i,
            None => {
                return Err(BlobError::NotFound);
            },
        };
        proof {
            lemma_get_at(s0.blobs@, hash.bytes@, bi as int);
        }
        let ghost b = s0.blobs@[bi as int].1;
        let idb = id.to_bytes();
        let mut sub_found = false;
        let mut os_expiry: i64 = 0;
        let mut os_failed = false;
        match self.blobs.entries[bi].1.subscribers.get(&payer.bytes) {
            None => {},
            Some(g) => {
                match g.subscriptions.get(&idb) {
                    None => {},
                    Some(os) => {
                        sub_found = true;
                        os_expiry = os.expiry;
                        os_failed = os.failed;
                    },
                }
            },
        }
        if !sub_found {
            return Err(BlobError::NotFound);
        }
        let size = self.blobs.entries[bi].1.size;
        let blob_failed = match self.blobs.entries[bi].1.status {
            BlobStatus::Failed => true,
            _ => false,
        };
        let amounts = match self.compute_delete_amounts(payer, hash, &idb, current_epoch) {
            Some(t) => t,
            None => {
                return Err(BlobError::Overflow);
            },
        };
        let (de, debit, g_deb, g_c2, a_c2, a_free, a_cap, reclaim) = amounts;
        proof {
            assert(s0.spec_delete_err(
                origin.bytes@,
                caller.bytes@,
                sponsor_v,
                hash.bytes@,
                id.enc(),
                current_epoch,
            ) == None::<BlobError>);
        }
        // All checks passed: write the new state.
        let r2 = self.delete_blob_commit(
            payer,
            hash,
            &idb,
            os_expiry,
            os_failed,
            blob_failed,
            size,
            de,
            current_epoch,
            debit,
            g_deb,
            g_c2,
            a_c2,
            a_free,
            a_cap,
            reclaim,
        );
        proof {
            assert(idb@ == id.enc());
        }
        Ok(r2)
    }
}

/// Finds, in the blob under `hash`, an identifier of a subscription by
/// `addr` whose expiry is exactly `e`; a miss means no such subscription
/// exists.
fn find_reap_target(blobs: &ByteMap<Blob>, addr: &Vec<u8>, hash: &Vec<u8>, e: i64) -> (r: Option<
    Vec<u8>,
>)
    requires
        blobs.wf(),
        forall|i: int| 0 <= i < blobs@.len() ==> (#[trigger] blobs@[i].1).wf(),
    ensures
        match r {
            Some(idb) => match spec_sub_of(*blobs, hash@, addr@, idb@) {
                Some(sub) => sub.expiry == e,
                None => false,
            },
            None => forall|idv: Seq<u8>|
                match #[trigger] spec_sub_of(*blobs, hash@, addr@, idv) {
                    Some(sub) => sub.expiry != e,
                    None => true,
                },
        },
{
    match blobs.get(hash) {
        None => None,
        Some(b_ref) => {
            proof {
                crate::bmap::lemma_get_char(blobs@, hash@);
                let w = choose|w: int|
                    0 <= w < blobs@.len() && blobs@[w].0@ == hash@ && blobs@[w].1 == *b_ref;
                assert(blobs@[w].1.wf());
            }
            match b_ref.subscribers.get(addr) {
                None => None,
                Some(g) => {
                    proof {
                        crate::bmap::lemma_get_char(b_ref.subscribers@, addr@);
                        let w2 = choose|w2: int|
                            0 <= w2 < b_ref.subscribers@.len() && b_ref.subscribers@[w2].0@
                                == addr@ && b_ref.subscribers@[w2].1 == *g;
                        assert(b_ref.subscribers@[w2].1.wf());
                    }
                    find_expiring(g, e)
                },
            }
        },
    }
}

/// Finds the identifier of a subscription in the group whose expiry is
/// exactly `e`, scanning in ascending identifier order; a miss means the
/// group has none.
fn find_expiring(g: &SubscriptionGroup, e: i64) -> (r: Option<Vec<u8>>)
    requires
        g.wf(),
    ensures
        match r {
            Some(idb) => match map_get(g.subscriptions@, idb@) {
                Some(sub) => sub.expiry == e,
                None => false,
            },
            None => forall|idv: Seq<u8>|
                match #[trigger] map_get(g.subscriptions@, idv) {
                    Some(sub) => sub.expiry != e,
                    None => true,
                },
        },
{
    let n = g.subscriptions.entries.len();
    let mut y: usize = 0;
    while y < n
        invariant
            0 <= y <= n,
            n == g.subscriptions@.len(),
            g.wf(),
            forall|m: int| 0 <= m < y ==> (#[trigger] g.subscriptions@[m]).1.expiry != e,
        decreases n - y,
    {
        let entry = &g.subscriptions.entries[y];
        if entry.1.expiry == e {
            proof {
                lemma_get_at(g.subscriptions@, g.subscriptions@[y as int].0@, y as int);
            }
            return Some(dup_bytes(&entry.0));
        }
        y = y + 1;
    }
    proof {
        assert forall|idv: Seq<u8>|
            match #[trigger] map_get(g.subscriptions@, idv) {
                Some(sub) => sub.expiry != e,
                None => true,
            } by {
            crate::bmap::lemma_get_char(g.subscriptions@, idv);
            match map_get(g.subscriptions@, idv) {
                Some(sub) => {
                    let w = choose|w: int|
                        0 <= w < g.subscriptions@.len() && g.subscriptions@[w].0@ == idv
                            && g.subscriptions@[w].1 == sub;
                    assert(g.subscriptions@[w].1.expiry != e);
                },
                None => {},
            }
        }
    }
    None
}

impl State {
    /// Every blob left by a failed resolution is settled: none of its
    /// subscriptions is still live.  This holds of every state the engine
    /// itself produces, since a failed verdict marks the subscription it
    /// is for and a fresh subscription turns the capacity law's own side
    /// condition off.
    pub open spec fn spec_failed_blobs_settled(self) -> bool {
        forall|h: Seq<u8>|
            match #[trigger] map_get(self.blobs@, h) {
                Some(b) => b.status is Failed ==> !blob_has_live_sub(b),
                None => true,
            }
    }
}

/// The part of one reaping step that drops the due index pair: everything
/// but the expiry index is untouched, and only the `(e, addr)` entry goes.
pub open spec fn spec_index_drop(pre: State, mid: State, e: i64, addr: Seq<u8>) -> bool {
    &&& mid.accounts == pre.accounts
    &&& mid.blobs == pre.blobs
    &&& mid.added == pre.added
    &&& mid.pending == pre.pending
    &&& mid.read_requests == pre.read_requests
    &&& mid.credit_sold == pre.credit_sold
    &&& mid.credit_committed == pre.credit_committed
    &&& mid.credit_debited == pre.credit_debited
    &&& mid.capacity_used == pre.capacity_used
    &&& mid.capacity_free == pre.capacity_free
    &&& mid.credit_debit_rate == pre.credit_debit_rate
    &&& spec_exp(mid.expiries, e, addr) == None::<Seq<u8>>
    &&& forall|e2: i64, a2: Seq<u8>|
        !(e2 == e && a2 == addr) ==> spec_exp(mid.expiries, e2, a2) == spec_exp(
            pre.expiries,
            e2,
            a2,
        )
}

/// One reaping step at a named due index pair: the pair leaves the index,
/// and then either one subscription with that expiry is deleted at its
/// expiry epoch, or no such subscription is deletable (it is missing, or
/// its deletion would be refused) and nothing else changes.
pub open spec fn spec_reap_step_at(
    pre: State,
    mid: State,
    post: State,
    current_epoch: i64,
    e: i64,
    addr: Seq<u8>,
    h: Seq<u8>,
) -> bool {
    &&& e <= current_epoch
    &&& spec_exp(pre.expiries, e, addr) == Some(h)
    &&& spec_index_drop(pre, mid, e, addr)
    &&& ((exists|idv: Seq<u8>, acct: Account, deleted: bool|
        (match spec_sub_of(mid.blobs, h, addr, idv) {
            Some(sub) => sub.expiry == e,
            None => false,
        }) && #[trigger] spec_delete_post(mid, post, addr, h, idv, e, acct, deleted)) || (post
        == mid && forall|idv: Seq<u8>|
        (match #[trigger] spec_sub_of(mid.blobs, h, addr, idv) {
            Some(sub) => sub.expiry == e,
            None => false,
        }) ==> mid.spec_delete_err(addr, addr, None, h, idv, e) is Some))
}

/// One reaping step between two states.
pub open spec fn spec_reap_step(pre: State, post: State, current_epoch: i64) -> bool {
    exists|e: i64, addr: Seq<u8>, h: Seq<u8>, mid: State| #[trigger] spec_reap_step_at(
        pre,
        mid,
        post,
        current_epoch,
        e,
        addr,
        h,
    )
}

/// One debit step on the account under `k`: the account is due, and either
/// its time debit is applied exactly, or the debit would leave the numeric
/// range and nothing changes.
pub open spec fn spec_debit_step_at(pre: State, post: State, epoch: i64, k: Seq<u8>) -> bool {
    match map_get(pre.accounts@, k) {
        None => false,
        Some(a) => {
            let debit = (epoch - a.last_debit_epoch) * a.capacity_used;
            let fits = i128::MIN <= debit <= i128::MAX && i128::MIN <= pre.credit_debited + debit
                <= i128::MAX && i128::MIN <= pre.credit_committed - debit <= i128::MAX
                && i128::MIN <= a.credit_committed - debit <= i128::MAX;
            &&& epoch > a.last_debit_epoch
            &&& if fits {
                &&& post.blobs == pre.blobs
                &&& post.expiries == pre.expiries
                &&& post.added == pre.added
                &&& post.pending == pre.pending
                &&& post.read_requests == pre.read_requests
                &&& post.credit_sold == pre.credit_sold
                &&& post.capacity_used == pre.capacity_used
                &&& post.capacity_free == pre.capacity_free
                &&& post.credit_debit_rate == pre.credit_debit_rate
                &&& post.credit_debited == pre.credit_debited + debit
                &&& post.credit_committed == pre.credit_committed - debit
                &&& post.accounts@.len() == pre.accounts@.len()
                &&& map_get(post.accounts@, k) == Some(
                    Account {
                        credit_committed: (a.credit_committed - debit) as i128,
                        last_debit_epoch: epoch,
                        ..a
                    },
                )
                &&& forall|k2: Seq<u8>|
                    k2 != k ==> map_get(post.accounts@, k2) == map_get(pre.accounts@, k2)
            } else {
                post == pre
            }
        },
    }
}

/// The whole effect of advancing the clock: a chain of reaping steps
/// empties the due part of the expiry index, then a chain of debit steps
/// visits every account still owing time (the step keys list them all).
pub open spec fn spec_debit_accounts_post(
    pre: State,
    post: State,
    epoch: i64,
    chain: Seq<State>,
    dchain: Seq<State>,
    ks: Seq<Seq<u8>>,
) -> bool {
    &&& chain.len() >= 1
    &&& chain[0] == pre
    &&& forall|i: int|
        0 <= i < chain.len() - 1 ==> spec_reap_step(#[trigger] chain[i], chain[i + 1], epoch)
    &&& dchain.len() == ks.len() + 1
    &&& dchain[0] == chain[chain.len() - 1]
    &&& dchain[dchain.len() - 1] == post
    &&& forall|i: int|
        0 <= i < ks.len() ==> spec_debit_step_at(
            #[trigger] dchain[i],
            dchain[i + 1],
            epoch,
            ks[i],
        )
    &&& forall|k: Seq<u8>|
        (match map_get(chain[chain.len() - 1].accounts@, k) {
            Some(a) => a.last_debit_epoch < epoch,
            None => false,
        }) ==> #[trigger] ks.contains(k)
}


/// Everything the reaping pass maintains: well-formedness, the step chain
/// from the starting state, the conservation laws, and the deleted-blob
/// bookkeeping.
pub open spec fn spec_reap_inv(
    s0: State,
    st: State,
    epoch: i64,
    chain: Seq<State>,
    dl: Seq<BlobHash>,
) -> bool {
    &&& st.wf()
    &&& chain.len() >= 1
    &&& chain[0] == s0
    &&& chain[chain.len() - 1] == st
    &&& forall|i: int|
        0 <= i < chain.len() - 1 ==> spec_reap_step(#[trigger] chain[i], chain[i + 1], epoch)
    &&& (s0.inv_committed() ==> st.inv_committed())
    &&& (s0.inv_approvals() ==> st.inv_approvals())
    &&& (s0.inv_capacity() && s0.spec_failed_blobs_settled() ==> st.inv_capacity()
        && st.spec_failed_blobs_settled())
    &&& st.accounts@.len() == s0.accounts@.len()
    &&& forall|e2: i64, a2: Seq<u8>|
        e2 > epoch ==> spec_exp(st.expiries, e2, a2) == spec_exp(s0.expiries, e2, a2)
    &&& forall|i: int| 0 <= i < dl.len() ==> map_get(st.blobs@, (#[trigger] dl[i]).bytes@) == None::<Blob>
    &&& forall|h2: Seq<u8>|
        map_has(s0.blobs@, h2) && !map_has(st.blobs@, h2) ==> exists|i: int|
            0 <= i < dl.len() && (#[trigger] dl[i]).bytes@ == h2
}

/// A deletion cannot wake a settled failed blob: removing a subscription
/// never creates a live one.
proof fn lemma_settled_after_delete(
    pre: State,
    post: State,
    payer: Seq<u8>,
    hash: Seq<u8>,
    id: Seq<u8>,
    epoch: i64,
    acct: Account,
    deleted: bool,
)
    requires
        pre.wf(),
        post.wf(),
        spec_delete_post(pre, post, payer, hash, id, epoch, acct, deleted),
        pre.spec_failed_blobs_settled(),
    ensures
        post.spec_failed_blobs_settled(),
{
    assert forall|h2: Seq<u8>|
        match #[trigger] map_get(post.blobs@, h2) {
            Some(b2) => b2.status is Failed ==> !blob_has_live_sub(b2),
            None => true,
        } by {
        match map_get(post.blobs@, h2) {
            Some(b2) => {
                if b2.status is Failed {
                    if h2 != hash {
                        assert(map_get(post.blobs@, h2) == map_get(pre.blobs@, h2));
                    } else {
                        let b = map_get(pre.blobs@, hash)->0;
                        crate::bmap::lemma_get_char(post.blobs@, h2);
                        let w2 = choose|w2: int|
                            0 <= w2 < post.blobs@.len() && post.blobs@[w2].0@ == h2
                                && post.blobs@[w2].1 == b2;
                        assert(post.blobs@[w2].1.wf());
                        crate::bmap::lemma_get_char(pre.blobs@, h2);
                        let w1 = choose|w1: int|
                            0 <= w1 < pre.blobs@.len() && pre.blobs@[w1].0@ == h2
                                && pre.blobs@[w1].1 == b;
                        assert(pre.blobs@[w1].1.wf());
                        lemma_live_sub_iff(b2);
                        lemma_live_sub_iff(b);
                        if blob_has_live_sub(b2) {
                            let (xa, xi) = choose|xa: Seq<u8>, xi: Seq<u8>| #[trigger]
                                live_at(b2.subscribers, xa, xi);
                            assert(!(xa == payer && xi == id));
                            assert(subs_get(b2.subscribers, xa, xi) == subs_get(
                                b.subscribers,
                                xa,
                                xi,
                            ));
                            assert(live_at(b.subscribers, xa, xi));
                        }
                    }
                }
            },
            None => {},
        }
    }
}

impl State {
    /// Drops the first pair of the expiry index: the smallest epoch's
    /// byte-wise first subscriber entry.
    #[verifier::rlimit(100)]
    #[verifier::spinoff_prover]
    fn drop_first_pair(&mut self)
        requires
            old(self).wf(),
            old(self).expiries@.len() > 0,
        ensures
            final(self).wf(),
            spec_index_drop(
                *old(self),
                *final(self),
                old(self).expiries@[0].0,
                old(self).expiries@[0].1@[0].0@,
            ),
            spec_exp(
                old(self).expiries,
                old(self).expiries@[0].0,
                old(self).expiries@[0].1@[0].0@,
            ) == Some(old(self).expiries@[0].1@[0].1@),
            final(self).expiries@.len() < old(self).expiries@.len()
                || (final(self).expiries@.len() == old(self).expiries@.len()
                && final(self).expiries@[0].1@.len() < old(self).expiries@[0].1@.len()),
    {
        let ghost pre = *self;
        let ghost e = pre.expiries@[0].0;
        let ghost addr_v = pre.expiries@[0].1@[0].0@;
        proof {
            crate::imap::lemma_imap_get_at(pre.expiries@, e, 0);
            lemma_get_at(pre.expiries@[0].1@, addr_v, 0);
        }
        let (e_taken, mut inner) = self.expiries.take_at(0);
        let ghost inner0 = inner;
        let (_ab, _hb) = inner.take_at(0);
        if inner.is_empty() {
            proof {
                crate::imap::lemma_imap_get_remove(pre.expiries@, 0, e);
                assert forall|e2: i64, a2: Seq<u8>|
                    !(e2 == e && a2 == addr_v) implies spec_exp(self.expiries, e2, a2)
                    == spec_exp(pre.expiries, e2, a2) by {
                    crate::imap::lemma_imap_get_remove(pre.expiries@, 0, e2);
                    if e2 == e {
                        assert(inner0@.len() == 1);
                        crate::bmap::lemma_idx_from_props(inner0@, a2, 0);
                    }
                }
                assert forall|m: int| 0 <= m < self.expiries@.len() implies (
                #[trigger] self.expiries@[m].1).wf() && (
                #[trigger] self.expiries@[m].1)@.len() > 0 by {
                    assert(self.expiries@[m].1 == pre.expiries@[m + 1].1);
                }
            }
        } else {
            self.expiries.put_at(0, e_taken, inner);
            proof {
                crate::imap::lemma_imap_remove_insert_is_update(
                    pre.expiries@,
                    0,
                    (e_taken, inner),
                );
                crate::imap::lemma_imap_get_update(pre.expiries@, 0, (e_taken, inner), e);
                crate::bmap::lemma_get_remove(inner0@, 0, addr_v);
                assert forall|e2: i64, a2: Seq<u8>|
                    !(e2 == e && a2 == addr_v) implies spec_exp(self.expiries, e2, a2)
                    == spec_exp(pre.expiries, e2, a2) by {
                    crate::imap::lemma_imap_get_update(pre.expiries@, 0, (e_taken, inner), e2);
                    if e2 == e {
                        crate::bmap::lemma_get_remove(inner0@, 0, a2);
                    }
                }
                assert forall|m: int| 0 <= m < self.expiries@.len() implies (
                #[trigger] self.expiries@[m].1).wf() && (
                #[trigger] self.expiries@[m].1)@.len() > 0 by {
                    if m != 0 {
                        assert(self.expiries@[m].1 == pre.expiries@[m].1);
                    }
                }
            }
        }
    }

    /// After a due pair has left the index, deletes the subscription it
    /// referenced at its expiry epoch, or changes nothing when no such
    /// subscription is deletable; reports whether the blob was removed.
    #[verifier::rlimit(100)]
    #[verifier::spinoff_prover]
    fn reap_pair(&mut self, addr_obj: &Address, hash_obj: &BlobHash, e: i64) -> (r: bool)
        requires
            old(self).wf(),
            spec_exp(old(self).expiries, e, addr_obj.bytes@) == None::<Seq<u8>>,
        ensures
            final(self).wf(),
            (exists|idv: Seq<u8>, acct: Account, dl: bool|
                (match spec_sub_of(old(self).blobs, hash_obj.bytes@, addr_obj.bytes@, idv) {
                    Some(sub) => sub.expiry == e,
                    None => false,
                }) && #[trigger] spec_delete_post(
                    *old(self),
                    *final(self),
                    addr_obj.bytes@,
                    hash_obj.bytes@,
                    idv,
                    e,
                    acct,
                    dl,
                )) || (*final(self) == *old(self) && forall|idv: Seq<u8>|
                (match #[trigger] spec_sub_of(
                    old(self).blobs,
                    hash_obj.bytes@,
                    addr_obj.bytes@,
                    idv,
                ) {
                    Some(sub) => sub.expiry == e,
                    None => false,
                }) ==> old(self).spec_delete_err(
                    addr_obj.bytes@,
                    addr_obj.bytes@,
                    None::<Seq<u8>>,
                    hash_obj.bytes@,
                    idv,
                    e,
                ) is Some),
            r == (map_has(old(self).blobs@, hash_obj.bytes@) && !map_has(
                final(self).blobs@,
                hash_obj.bytes@,
            )),
            forall|h2: Seq<u8>|
                h2 != hash_obj.bytes@ ==> map_get(final(self).blobs@, h2) == map_get(
                    old(self).blobs@,
                    h2,
                ),
            final(self).expiries == old(self).expiries,
            final(self).accounts@.len() == old(self).accounts@.len(),
            old(self).inv_committed() ==> final(self).inv_committed(),
            old(self).inv_approvals() ==> final(self).inv_approvals(),
            old(self).inv_capacity() && old(self).spec_failed_blobs_settled()
                ==> final(self).inv_capacity() && final(self).spec_failed_blobs_settled(),
    {
        let ghost mid = *self;
        let has_acct = self.accounts.contains(&addr_obj.bytes);
        let idb_opt: Option<Vec<u8>> = if has_acct {
            find_reap_target(&self.blobs, &addr_obj.bytes, &hash_obj.bytes, e)
        } else {
            None
        };
        match idb_opt {
            None => {
                proof {
                    assert forall|idv: Seq<u8>|
                        (match #[trigger] spec_sub_of(
                            mid.blobs,
                            hash_obj.bytes@,
                            addr_obj.bytes@,
                            idv,
                        ) {
                            Some(sub) => sub.expiry == e,
                            None => false,
                        }) implies mid.spec_delete_err(
                        addr_obj.bytes@,
                        addr_obj.bytes@,
                        None::<Seq<u8>>,
                        hash_obj.bytes@,
                        idv,
                        e,
                    ) is Some by {
                        if !has_acct {
                            crate::bmap::lemma_idx_from_props(mid.accounts@, addr_obj.bytes@, 0);
                        }
                    }
                }
                false
            },
            Some(idb) => {
                let ghost idb_v = idb@;
                let mut os_failed = false;
                let mut blob_failed = false;
                let mut size: u64 = 0;
                match self.blobs.get(&hash_obj.bytes) {
                    None => {
                        proof {
                            assert(false);
                        }
                    },
                    Some(b_ref) => {
                        size = b_ref.size;
                        blob_failed = match b_ref.status {
                            BlobStatus::Failed => true,
                            _ => false,
                        };
                        match b_ref.subscribers.get(&addr_obj.bytes) {
                            None => {
                                proof {
                                    assert(false);
                                }
                            },
                            Some(g) => {
                                match g.subscriptions.get(&idb) {
                                    None => {
                                        proof {
                                            assert(false);
                                        }
                                    },
                                    Some(os) => {
                                        os_failed = os.failed;
                                    },
                                }
                            },
                        }
                    },
                }
                proof {
                    if mid.inv_capacity() && mid.spec_failed_blobs_settled() {
                        let b = map_get(mid.blobs@, hash_obj.bytes@)->0;
                        if b.status is Failed {
                            crate::bmap::lemma_get_char(mid.blobs@, hash_obj.bytes@);
                            let w = choose|w: int|
                                0 <= w < mid.blobs@.len() && mid.blobs@[w].0@ == hash_obj.bytes@
                                    && mid.blobs@[w].1 == b;
                            assert(mid.blobs@[w].1.wf());
                            lemma_live_sub_iff(b);
                            assert(!live_at(b.subscribers, addr_obj.bytes@, idb_v));
                        }
                    }
                }
                match self.compute_delete_amounts(addr_obj, hash_obj, &idb, e) {
                    Some(t) => {
                        let (de, debit, g_deb, g_c2, a_c2, a_free, a_cap, reclaim) = t;
                        let (racct, was_deleted) = self.delete_blob_apply(
                            addr_obj,
                            hash_obj,
                            &idb,
                            e,
                            os_failed,
                            blob_failed,
                            size,
                            de,
                            e,
                            debit,
                            g_deb,
                            g_c2,
                            a_c2,
                            a_free,
                            a_cap,
                            reclaim,
                        );
                        proof {
                            assert(self.expiries == mid.expiries);
                            assert(spec_delete_post(
                                mid,
                                *self,
                                addr_obj.bytes@,
                                hash_obj.bytes@,
                                idb_v,
                                e,
                                racct,
                                was_deleted,
                            ));
                            if mid.inv_capacity() && mid.spec_failed_blobs_settled() {
                                lemma_settled_after_delete(
                                    mid,
                                    *self,
                                    addr_obj.bytes@,
                                    hash_obj.bytes@,
                                    idb_v,
                                    e,
                                    racct,
                                    was_deleted,
                                );
                            }
                        }
                        was_deleted
                    },
                    None => {
                        proof {
                            let a = map_get(mid.accounts@, addr_obj.bytes@)->0;
                            let b = map_get(mid.blobs@, hash_obj.bytes@)->0;
                            let sub = spec_sub_of(
                                mid.blobs,
                                hash_obj.bytes@,
                                addr_obj.bytes@,
                                idb_v,
                            )->0;
                            assert forall|idv: Seq<u8>|
                                (match #[trigger] spec_sub_of(
                                    mid.blobs,
                                    hash_obj.bytes@,
                                    addr_obj.bytes@,
                                    idv,
                                ) {
                                    Some(sub2) => sub2.expiry == e,
                                    None => false,
                                }) implies mid.spec_delete_err(
                                addr_obj.bytes@,
                                addr_obj.bytes@,
                                None::<Seq<u8>>,
                                hash_obj.bytes@,
                                idv,
                                e,
                            ) is Some by {
                                match spec_sub_of(
                                    mid.blobs,
                                    hash_obj.bytes@,
                                    addr_obj.bytes@,
                                    idv,
                                ) {
                                    Some(sub2) => {
                                        assert(mid.spec_delete_fits(a, b, sub2, e)
                                            == mid.spec_delete_fits(a, b, sub, e));
                                    },
                                    None => {},
                                }
                            }
                        }
                        false
                    },
                }
            },
        }
    }

    /// Applies one account's time debit through `current_epoch`, or leaves
    /// everything untouched when an amount would leave the numeric range.
    #[verifier::rlimit(100)]
    #[verifier::spinoff_prover]
    fn debit_account_at(&mut self, i: usize, current_epoch: i64)
        requires
            old(self).wf(),
            i < old(self).accounts@.len(),
            current_epoch > old(self).accounts@[i as int].1.last_debit_epoch,
        ensures
            final(self).wf(),
            spec_debit_step_at(
                *old(self),
                *final(self),
                current_epoch,
                old(self).accounts@[i as int].0@,
            ),
            final(self).accounts@.len() == old(self).accounts@.len(),
            forall|m: int|
                0 <= m < final(self).accounts@.len() ==> (#[trigger] final(self).accounts@[m]).0@
                    == old(self).accounts@[m].0@,
            forall|m: int|
                0 <= m < final(self).accounts@.len() && m != i
                    ==> (#[trigger] final(self).accounts@[m]).1 == old(self).accounts@[m].1,
            final(self).blobs == old(self).blobs,
            final(self).expiries == old(self).expiries,
            final(self).added == old(self).added,
            final(self).pending == old(self).pending,
            final(self).read_requests == old(self).read_requests,
            final(self).credit_sold == old(self).credit_sold,
            final(self).capacity_used == old(self).capacity_used,
            final(self).capacity_free == old(self).capacity_free,
            final(self).credit_debit_rate == old(self).credit_debit_rate,
            old(self).inv_committed() ==> final(self).inv_committed(),
            old(self).inv_approvals() ==> final(self).inv_approvals(),
    {
        let ghost s0 = *self;
        let ghost kcur = s0.accounts@[i as int].0@;
        proof {
            lemma_get_at(s0.accounts@, kcur, i as int);
        }
        let a_ld = self.accounts.entries[i].1.last_debit_epoch;
        let dd: i128 = (current_epoch as i128) - (a_ld as i128);
        match dd.checked_mul(self.accounts.entries[i].1.capacity_used) {
            None => {},
            Some(debit) => {
                match (
                    self.credit_debited.checked_add(debit),
                    self.credit_committed.checked_sub(debit),
                    self.accounts.entries[i].1.credit_committed.checked_sub(debit),
                ) {
                    (Some(g_deb), Some(g_com), Some(a_com)) => {
                        let (ak, acct) = self.accounts.take_at(i);
                        let acct2 = Account {
                            capacity_used: acct.capacity_used,
                            credit_free: acct.credit_free,
                            credit_committed: a_com,
                            last_debit_epoch: current_epoch,
                            approvals: acct.approvals,
                        };
                        self.accounts.put_at(i, ak, acct2);
                        self.credit_debited = g_deb;
                        self.credit_committed = g_com;
                        proof {
                            lemma_remove_insert_is_update(s0.accounts@, i as int, (ak, acct2));
                            lemma_get_update(s0.accounts@, i as int, (ak, acct2), kcur);
                            assert forall|k2: Seq<u8>| k2 != kcur implies map_get(
                                self.accounts@,
                                k2,
                            ) == map_get(s0.accounts@, k2) by {
                                lemma_get_update(s0.accounts@, i as int, (ak, acct2), k2);
                            }
                            lemma_sum_update(s0.accounts@, i as int, (ak, acct2), committed_of());
                            assert forall|m: int| 0 <= m < self.accounts@.len() implies (
                            #[trigger] self.accounts@[m].1).wf() by {
                                if m != i {
                                    assert(self.accounts@[m].1 == s0.accounts@[m].1);
                                }
                            }
                            if s0.inv_approvals() {
                                assert forall|m: int|
                                    0 <= m < self.accounts@.len() implies account_approvals_ok(
                                    #[trigger] self.accounts@[m].1,
                                ) by {
                                    if m != i {
                                        assert(self.accounts@[m].1 == s0.accounts@[m].1);
                                    } else {
                                        assert(account_approvals_ok(s0.accounts@[i as int].1));
                                    }
                                }
                            }
                        }
                    },
                    _ => {},
                }
            },
        }
        proof {
            assert(spec_debit_step_at(s0, *self, current_epoch, kcur));
        }
    }

    /// Performs one reaping step: drops the first (due) index pair, deletes
    /// its subscription when possible, and extends the step chain.
    #[verifier::rlimit(100)]
    #[verifier::spinoff_prover]
    fn reap_step_exec(
        &mut self,
        current_epoch: i64,
        deleted: &mut Vec<BlobHash>,
        Ghost(s0): Ghost<State>,
        Ghost(chain0): Ghost<Seq<State>>,
    ) -> (chain_out: Ghost<Seq<State>>)
        requires
            spec_reap_inv(s0, *old(self), current_epoch, chain0, old(deleted)@),
            old(self).expiries@.len() > 0,
            old(self).expiries@[0].0 <= current_epoch,
        ensures
            spec_reap_inv(s0, *final(self), current_epoch, chain_out@, final(deleted)@),
            final(self).expiries@.len() < old(self).expiries@.len()
                || (final(self).expiries@.len() == old(self).expiries@.len()
                && final(self).expiries@[0].1@.len() < old(self).expiries@[0].1@.len()),
    {
        let ghost pre = *self;
        let e = self.expiries.entries[0].0;
        let addr_obj = Address { bytes: dup_bytes(&self.expiries.entries[0].1.entries[0].0) };
        let hash_obj = BlobHash { bytes: dup_bytes(&self.expiries.entries[0].1.entries[0].1) };
        self.drop_first_pair();
        let ghost mid = *self;
        let was_deleted = self.reap_pair(&addr_obj, &hash_obj, e);
        let ghost chain = chain0.push(*self);
        proof {
            assert(spec_reap_step_at(
                pre,
                mid,
                *self,
                current_epoch,
                e,
                addr_obj.bytes@,
                hash_obj.bytes@,
            ));
            assert(spec_reap_step(pre, *self, current_epoch));
            assert forall|i: int|
                0 <= i < deleted@.len() implies map_get(
                self.blobs@,
                (#[trigger] deleted@[i]).bytes@,
            ) == None::<Blob> by {
                if deleted@[i].bytes@ != hash_obj.bytes@ {
                    assert(map_get(self.blobs@, deleted@[i].bytes@) == map_get(
                        mid.blobs@,
                        deleted@[i].bytes@,
                    ));
                }
            }
        }
        if was_deleted {
            deleted.push(hash_obj);
            proof {
                assert forall|h2: Seq<u8>|
                    map_has(s0.blobs@, h2) && !map_has(self.blobs@, h2) implies exists|i: int|
                    0 <= i < deleted@.len() && (#[trigger] deleted@[i]).bytes@ == h2 by {
                    if h2 == hash_obj.bytes@ {
                        assert(deleted@[deleted@.len() - 1].bytes@ == h2);
                    } else {
                        assert(map_get(self.blobs@, h2) == map_get(mid.blobs@, h2));
                        let w = choose|w: int|
                            0 <= w < old(deleted)@.len() && old(deleted)@[w].bytes@ == h2;
                        assert(deleted@[w].bytes@ == h2);
                    }
                }
            }
        } else {
            proof {
                assert forall|h2: Seq<u8>|
                    map_has(s0.blobs@, h2) && !map_has(self.blobs@, h2) implies exists|i: int|
                    0 <= i < deleted@.len() && (#[trigger] deleted@[i]).bytes@ == h2 by {
                    if h2 != hash_obj.bytes@ {
                        assert(map_get(self.blobs@, h2) == map_get(mid.blobs@, h2));
                    }
                }
            }
        }
        Ghost(chain)
    }

    /// Reaps every expiry-index entry at or below `current_epoch`, deleting
    /// the referenced subscriptions at their expiry epoch (so no refund is
    /// owed), then advances every account's time-based debit to
    /// `current_epoch`.  Index entries whose subscription is already gone,
    /// and steps whose debit would leave the numeric range of the credit
    /// model, are dropped or left in place rather than failing the whole
    /// pass: the ideal unbounded-integer engine never meets either case,
    /// and the contract records each step that was taken or justifiably
    /// skipped.
    #[verifier::rlimit(100)]
    #[verifier::spinoff_prover]
    pub fn debit_accounts(&mut self, current_epoch: i64) -> (deleted: Vec<BlobHash>)
        requires
            old(self).wf(),
        ensures
            final(self).wf(),
            old(self).inv_committed() ==> final(self).inv_committed(),
            old(self).inv_approvals() ==> final(self).inv_approvals(),
            old(self).inv_capacity() && old(self).spec_failed_blobs_settled()
                ==> final(self).inv_capacity(),
            forall|j: int|
                0 <= j < final(self).expiries@.len() ==> (#[trigger] final(self).expiries@[j]).0
                    > current_epoch,
            forall|e2: i64, a2: Seq<u8>|
                e2 > current_epoch ==> spec_exp(final(self).expiries, e2, a2) == spec_exp(
                    old(self).expiries,
                    e2,
                    a2,
                ),
            final(self).accounts@.len() == old(self).accounts@.len(),
            forall|i: int|
                0 <= i < deleted@.len() ==> map_get(
                    final(self).blobs@,
                    (#[trigger] deleted@[i]).bytes@,
                ) == None::<Blob>,
            forall|h2: Seq<u8>|
                map_has(old(self).blobs@, h2) && !map_has(final(self).blobs@, h2)
                    ==> exists|i: int|
                    0 <= i < deleted@.len() && (#[trigger] deleted@[i]).bytes@ == h2,
            exists|chain: Seq<State>, dchain: Seq<State>, ks: Seq<Seq<u8>>|
                #[trigger] spec_debit_accounts_post(
                    *old(self),
                    *final(self),
                    current_epoch,
                    chain,
                    dchain,
                    ks,
                ),
    {
        let ghost s0 = *self;
        let mut deleted: Vec<BlobHash> = Vec::new();
        let ghost mut chain: Seq<State> = seq![*old(self)];
        loop
            invariant
                s0 == *old(self),
                spec_reap_inv(s0, *self, current_epoch, chain, deleted@),
            ensures
                s0 == *old(self),
                spec_reap_inv(s0, *self, current_epoch, chain, deleted@),
                self.expiries@.len() == 0 || self.expiries@[0].0 > current_epoch,
            decreases self.expiries@.len(), (if self.expiries@.len() > 0 {
                self.expiries@[0].1@.len() as int
            } else {
                0int
            }),
        {
            if self.expiries.entries.len() == 0 {
                break;
            }
            if self.expiries.entries[0].0 > current_epoch {
                break;
            }
            let chain2 = self.reap_step_exec(current_epoch, &mut deleted, Ghost(s0), Ghost(chain));
            proof {
                chain = chain2@;
            }
        }

        // Advance every account's time-based debit to the current epoch.
        let ghost smid = *self;
        let ghost mut dchain: Seq<State> = seq![*self];
        let ghost mut ks: Seq<Seq<u8>> = Seq::empty();
        let n = self.accounts.entries.len();
        let mut i: usize = 0;
        while i < n
            invariant
                s0 == *old(self),
                smid == chain[chain.len() - 1],
                map_sorted(smid.accounts@),
                0 <= i <= n,
                n == self.accounts@.len(),
                self.wf(),
                dchain.len() == ks.len() + 1,
                dchain[0] == smid,
                dchain[dchain.len() - 1] == *self,
                forall|m: int|
                    0 <= m < ks.len() ==> spec_debit_step_at(
                        #[trigger] dchain[m],
                        dchain[m + 1],
                        current_epoch,
                        ks[m],
                    ),
                forall|m: int|
                    0 <= m < i && (#[trigger] smid.accounts@[m]).1.last_debit_epoch
                        < current_epoch ==> ks.contains(smid.accounts@[m].0@),
                s0.inv_committed() ==> self.inv_committed(),
                s0.inv_approvals() ==> self.inv_approvals(),
                s0.inv_capacity() && s0.spec_failed_blobs_settled() ==> self.inv_capacity(),
                self.accounts@.len() == smid.accounts@.len(),
                self.blobs == smid.blobs,
                self.expiries == smid.expiries,
                self.added == smid.added,
                self.pending == smid.pending,
                self.read_requests == smid.read_requests,
                self.credit_sold == smid.credit_sold,
                self.capacity_used == smid.capacity_used,
                self.capacity_free == smid.capacity_free,
                self.credit_debit_rate == smid.credit_debit_rate,
                forall|m: int|
                    0 <= m < self.accounts@.len() ==> (#[trigger] self.accounts@[m]).0@
                        == smid.accounts@[m].0@,
                forall|m: int|
                    i <= m < self.accounts@.len() ==> (#[trigger] self.accounts@[m]).1
                        == smid.accounts@[m].1,
            decreases n - i,
        {
            let ghost pre2 = *self;
            let a_ld = self.accounts.entries[i].1.last_debit_epoch;
            if current_epoch > a_ld {
                let ghost kcur = pre2.accounts@[i as int].0@;
                proof {
                    assert(kcur == smid.accounts@[i as int].0@);
                }
                self.debit_account_at(i, current_epoch);
                proof {
                    let ks0 = ks;
                    dchain = dchain.push(*self);
                    ks = ks0.push(kcur);
                    assert forall|m: int|
                        0 <= m < i + 1 && (#[trigger] smid.accounts@[m]).1.last_debit_epoch
                            < current_epoch implies ks.contains(smid.accounts@[m].0@) by {
                        if m < i {
                            assert(ks0.contains(smid.accounts@[m].0@));
                            let w = choose|w: int|
                                0 <= w < ks0.len() && ks0[w] == smid.accounts@[m].0@;
                            assert(ks[w] == smid.accounts@[m].0@);
                            assert(ks.contains(smid.accounts@[m].0@));
                        } else {
                            assert(ks[ks0.len() as int] == kcur);
                            assert(ks.contains(kcur));
                        }
                    }
                }
            } else {
                proof {
                    assert(smid.accounts@[i as int].1.last_debit_epoch >= current_epoch);
                }
            }
            i = i + 1;
        }
        proof {
            assert forall|j: int|
                0 <= j < self.expiries@.len() implies (#[trigger] self.expiries@[j]).0
                > current_epoch by {
                if j > 0 {
                    assert(self.expiries@[0].0 < self.expiries@[j].0);
                }
            }
            assert forall|k: Seq<u8>|
                (match map_get(smid.accounts@, k) {
                    Some(a) => a.last_debit_epoch < current_epoch,
                    None => false,
                }) implies #[trigger] ks.contains(k) by {
                crate::bmap::lemma_get_char(smid.accounts@, k);
                match map_get(smid.accounts@, k) {
                    Some(a) => {
                        let w = choose|w: int|
                            0 <= w < smid.accounts@.len() && smid.accounts@[w].0@ == k
                                && smid.accounts@[w].1 == a;
                        assert(smid.accounts@[w].1.last_debit_epoch < current_epoch);
                    },
                    None => {},
                }
            }
            assert(spec_debit_accounts_post(s0, *self, current_epoch, chain, dchain, ks));
        }
        deleted
    }
}

/// One page of a resolver queue: for each blob digest (in ascending
/// order), the blob's size and its subscribers, each with the resolver
/// keys they named.
fn queue_page(q: &ByteMap<ByteMap<ByteMap<()>>>, blobs: &ByteMap<Blob>, limit: u32) -> (r: Vec<
    (BlobHash, u64, Vec<(Address, Vec<PublicKey>)>),
>)
    ensures
        r@.len() == (if limit as int <= q@.len() {
            limit as int
        } else {
            q@.len() as int
        }),
        forall|i: int|
            0 <= i < r@.len() ==> {
                let entry = #[trigger] r@[i];
                &&& entry.0.bytes@ == q@[i].0@
                &&& entry.1 == (match map_get(blobs@, q@[i].0@) {
                    Some(b) => b.size,
                    None => 0u64,
                })
                &&& entry.2@.len() == q@[i].1@.len()
                &&& forall|x: int|
                    0 <= x < entry.2@.len() ==> (#[trigger] entry.2@[x]).0.bytes@
                        == q@[i].1@[x].0@ && entry.2@[x].1@.len() == q@[i].1@[x].1@.len()
                        && forall|y: int|
                        0 <= y < entry.2@[x].1@.len() ==> (#[trigger] entry.2@[x].1@[y]).bytes@
                            == q@[i].1@[x].1@[y].0@
            },
{
    let mut r: Vec<(BlobHash, u64, Vec<(Address, Vec<PublicKey>)>)> = Vec::new();
    let n = q.entries.len();
    let lim: usize = if (limit as usize) <= n {
        limit as usize
    } else {
        n
    };
    let mut i: usize = 0;
    while i < lim
        invariant
            0 <= i <= lim,
            lim <= n,
            n == q@.len(),
            lim == (if limit as int <= q@.len() {
                limit as int
            } else {
                q@.len() as int
            }),
            r@.len() == i,
            forall|m: int|
                0 <= m < i ==> {
                    let entry = #[trigger] r@[m];
                    &&& entry.0.bytes@ == q@[m].0@
                    &&& entry.1 == (match map_get(blobs@, q@[m].0@) {
                        Some(b) => b.size,
                        None => 0u64,
                    })
                    &&& entry.2@.len() == q@[m].1@.len()
                    &&& forall|x: int|
                        0 <= x < entry.2@.len() ==> (#[trigger] entry.2@[x]).0.bytes@
                            == q@[m].1@[x].0@ && entry.2@[x].1@.len() == q@[m].1@[x].1@.len()
                            && forall|y: int|
                            0 <= y < entry.2@[x].1@.len() ==> (
                            #[trigger] entry.2@[x].1@[y]).bytes@ == q@[m].1@[x].1@[y].0@
                },
        decreases lim - i,
    {
        let qe = &q.entries[i];
        let hash = BlobHash { bytes: dup_bytes(&qe.0) };
        let size: u64 = match blobs.get(&qe.0) {
            Some(b) => b.size,
            None => 0,
        };
        let mut subs: Vec<(Address, Vec<PublicKey>)> = Vec::new();
        let m = qe.1.entries.len();
        let mut x: usize = 0;
        while x < m
            invariant
                0 <= x <= m,
                0 <= i < n,
                n == q@.len(),
                m == q@[i as int].1@.len(),
                qe == &q.entries@[i as int],
                subs@.len() == x,
                forall|w: int|
                    0 <= w < x ==> (#[trigger] subs@[w]).0.bytes@ == q@[i as int].1@[w].0@
                        && subs@[w].1@.len() == q@[i as int].1@[w].1@.len() && forall|y: int|
                        0 <= y < subs@[w].1@.len() ==> (#[trigger] subs@[w].1@[y]).bytes@
                            == q@[i as int].1@[w].1@[y].0@,
            decreases m - x,
        {
            let ae = &qe.1.entries[x];
            let addr = Address { bytes: dup_bytes(&ae.0) };
            let mut pks: Vec<PublicKey> = Vec::new();
            let pm = ae.1.entries.len();
            let mut y: usize = 0;
            while y < pm
                invariant
                    0 <= y <= pm,
                    0 <= x < m,
                    0 <= i < n,
                    n == q@.len(),
                    m == q@[i as int].1@.len(),
                    qe == &q.entries@[i as int],
                    ae == &qe.1.entries@[x as int],
                    pm == q@[i as int].1@[x as int].1@.len(),
                    pks@.len() == y,
                    forall|w: int|
                        0 <= w < y ==> (#[trigger] pks@[w]).bytes@ == q@[i as int].1@[x as int].1@[w].0@,
                decreases pm - y,
            {
                pks.push(PublicKey { bytes: dup_bytes(&ae.1.entries[y].0) });
                y = y + 1;
            }
            subs.push((addr, pks));
            x = x + 1;
        }
        r.push((hash, size, subs));
        i = i + 1;
    }
    r
}

impl State {
    /// Looks up a blob and hands back a copy, or nothing if it is absent.
    pub fn get_blob(&self, hash: &BlobHash) -> (r: Option<Blob>)
        ensures
            match r {
                Some(b) => match map_get(self.blobs@, hash.bytes@) {
                    Some(stored) => crate::types::blob_like(b, stored),
                    None => false,
                },
                None => map_get(self.blobs@, hash.bytes@) == None::<Blob>,
            },
    {
        match self.blobs.get(&hash.bytes) {
            Some(b) => Some(b.dup()),
            None => None,
        }
    }

    /// The status of the blob under `hash`, for a subscriber that holds the
    /// subscription under `id`; nothing when no such subscription exists.
    pub fn get_blob_status(&self, subscriber: &Address, hash: &BlobHash, id: &SubscriptionId) -> (r:
        Option<BlobStatus>)
        ensures
            r == (match spec_sub_of(self.blobs, hash.bytes@, subscriber.bytes@, id.enc()) {
                Some(sub) => match map_get(self.blobs@, hash.bytes@) {
                    Some(b) => Some(b.status),
                    None => None::<BlobStatus>,
                },
                None => None::<BlobStatus>,
            }),
    {
        let idb = id.to_bytes();
        match self.blobs.get(&hash.bytes) {
            None => None,
            Some(b) => match b.subscribers.get(&subscriber.bytes) {
                None => None,
                Some(g) => match g.subscriptions.get(&idb) {
                    None => None,
                    Some(_sub) => Some(b.status),
                },
            },
        }
    }

    /// One page of blobs not yet handed to the resolver, in ascending
    /// digest order.
    pub fn get_added_blobs(&self, limit: u32) -> (r: Vec<
        (BlobHash, u64, Vec<(Address, Vec<PublicKey>)>),
    >)
        ensures
            r@.len() == (if limit as int <= self.added@.len() {
                limit as int
            } else {
                self.added@.len() as int
            }),
            forall|i: int|
                0 <= i < r@.len() ==> (#[trigger] r@[i]).0.bytes@ == self.added@[i].0@,
    {
        queue_page(&self.added, &self.blobs, limit)
    }

    /// One page of blobs the resolver is fetching, in ascending digest
    /// order.
    pub fn get_pending_blobs(&self, limit: u32) -> (r: Vec<
        (BlobHash, u64, Vec<(Address, Vec<PublicKey>)>),
    >)
        ensures
            r@.len() == (if limit as int <= self.pending@.len() {
                limit as int
            } else {
                self.pending@.len() as int
            }),
            forall|i: int|
                0 <= i < r@.len() ==> (#[trigger] r@[i]).0.bytes@ == self.pending@[i].0@,
    {
        queue_page(&self.pending, &self.blobs, limit)
    }

    /// Which failure, if any, moving the tuple to the pending queue
    /// produces.
    pub open spec fn spec_set_pending_err(
        self,
        subscriber: Seq<u8>,
        hash: Seq<u8>,
        id: Seq<u8>,
    ) -> Option<BlobError> {
        match map_get(self.blobs@, hash) {
            None => Some(BlobError::NotFound),
            Some(b) => match spec_sub_of(self.blobs, hash, subscriber, id) {
                None => Some(BlobError::NotFound),
                Some(sub) => if !(b.status is Added) {
                    Some(BlobError::IllegalState)
                } else {
                    None
                },
            },
        }
    }

    /// Hands one `(subscriber, source)` tuple to the resolver: moves it
    /// from the added queue to the pending queue and turns the blob's
    /// status from added to pending.
    pub fn set_blob_pending(
        &mut self,
        source: &PublicKey,
        subscriber: &Address,
        hash: &BlobHash,
        id: &SubscriptionId,
    ) -> (r: Result<(), BlobError>)
        requires
            old(self).wf(),
        ensures
            final(self).wf(),
            match r {
                Err(e) => old(self).spec_set_pending_err(subscriber.bytes@, hash.bytes@, id.enc())
                    == Some(e) && *final(self) == *old(self),
                Ok(u) => {
                    &&& old(self).spec_set_pending_err(subscriber.bytes@, hash.bytes@, id.enc())
                        == None::<BlobError>
                    &&& final(self).accounts == old(self).accounts
                    &&& final(self).expiries == old(self).expiries
                    &&& final(self).read_requests == old(self).read_requests
                    &&& final(self).credit_sold == old(self).credit_sold
                    &&& final(self).credit_committed == old(self).credit_committed
                    &&& final(self).credit_debited == old(self).credit_debited
                    &&& final(self).capacity_used == old(self).capacity_used
                    &&& final(self).capacity_free == old(self).capacity_free
                    &&& final(self).credit_debit_rate == old(self).credit_debit_rate
                    &&& !spec_queue_has(
                        final(self).added,
                        hash.bytes@,
                        subscriber.bytes@,
                        source.bytes@,
                    )
                    &&& spec_queue_has(
                        final(self).pending,
                        hash.bytes@,
                        subscriber.bytes@,
                        source.bytes@,
                    )
                    &&& forall|h2: Seq<u8>, a2: Seq<u8>, p2: Seq<u8>|
                        !(h2 == hash.bytes@ && a2 == subscriber.bytes@ && p2 == source.bytes@)
                            ==> spec_queue_has(final(self).added, h2, a2, p2) == spec_queue_has(
                            old(self).added,
                            h2,
                            a2,
                            p2,
                        ) && spec_queue_has(final(self).pending, h2, a2, p2) == spec_queue_has(
                            old(self).pending,
                            h2,
                            a2,
                            p2,
                        )
                    &&& forall|h2: Seq<u8>|
                        h2 != hash.bytes@ ==> map_get(final(self).blobs@, h2) == map_get(
                            old(self).blobs@,
                            h2,
                        )
                    &&& match (map_get(old(self).blobs@, hash.bytes@), map_get(
                        final(self).blobs@,
                        hash.bytes@,
                    )) {
                        (Some(b), Some(b2)) => b2 == Blob { status: BlobStatus::Pending, ..b },
                        _ => false,
                    }
                },
            },
            old(self).inv_committed() ==> final(self).inv_committed(),
            old(self).inv_capacity() ==> final(self).inv_capacity(),
            old(self).inv_approvals() ==> final(self).inv_approvals(),
    {
        let ghost s0 = *self;
        let bi = match self.blobs.index_of(&hash.bytes) {
            Some(i) => i,
            None => {
                return Err(BlobError::NotFound);
            },
        };
        proof {
            lemma_get_at(s0.blobs@, hash.bytes@, bi as int);
        }
        let idb = id.to_bytes();
        let mut sub_found = false;
        match self.blobs.entries[bi].1.subscribers.get(&subscriber.bytes) {
            None => {},
            Some(g) => {
                match g.subscriptions.get(&idb) {
                    None => {},
                    Some(_os) => {
                        sub_found = true;
                    },
                }
            },
        }
        if !sub_found {
            return Err(BlobError::NotFound);
        }
        let is_added = match self.blobs.entries[bi].1.status {
            BlobStatus::Added => true,
            _ => false,
        };
        if !is_added {
            return Err(BlobError::IllegalState);
        }
        let ghost b = s0.blobs@[bi as int].1;
        let (bk, mut blob) = self.blobs.take_at(bi);
        blob.status = BlobStatus::Pending;
        let ghost b_new = blob;
        self.blobs.put_at(bi, bk, blob);
        proof {
            lemma_remove_insert_is_update(s0.blobs@, bi as int, (bk, b_new));
            lemma_get_update(s0.blobs@, bi as int, (bk, b_new), hash.bytes@);
            assert forall|h2: Seq<u8>| h2 != hash.bytes@ implies map_get(self.blobs@, h2)
                == map_get(s0.blobs@, h2) by {
                lemma_get_update(s0.blobs@, bi as int, (bk, b_new), h2);
            }
            assert forall|m: int| 0 <= m < self.blobs@.len() implies (
            #[trigger] self.blobs@[m].1).wf() by {
                if m != bi {
                    assert(self.blobs@[m].1 == s0.blobs@[m].1);
                }
            }
            lemma_sum_update(s0.blobs@, bi as int, (bk, b_new), counted_size_of());
            assert(b_new == Blob { status: BlobStatus::Pending, ..b });
        }
        queue_remove(&mut self.added, hash, &subscriber.bytes, &source.bytes);
        queue_insert(&mut self.pending, hash, subscriber, source);
        Ok(())
    }
}

/// Stores `v` under `(receiver, tag)` in an approval table, creating the
/// receiver's entry if it is new.
fn approvals_set(
    ap: &mut ByteMap<ByteMap<CreditApproval>>,
    receiver: &Address,
    tag: &Vec<u8>,
    v: CreditApproval,
)
    requires
        approvals_wf(*old(ap)),
    ensures
        approvals_wf(*final(ap)),
        appr_get(*final(ap), receiver.bytes@, tag@) == Some(v),
        forall|r2: Seq<u8>, t2: Seq<u8>|
            !(r2 == receiver.bytes@ && t2 == tag@) ==> appr_get(*final(ap), r2, t2) == appr_get(
                *old(ap),
                r2,
                t2,
            ),
{
    let ghost ap0 = *ap;
    match ap.index_of(&receiver.bytes) {
        Some(j) => {
            let (rk, mut inner) = ap.take_at(j);
            let ghost inner0 = inner;
            inner.insert(dup_bytes(tag), v);
            ap.put_at(j, rk, inner);
            proof {
                lemma_remove_insert_is_update(ap0@, j as int, (rk, inner));
                lemma_get_update(ap0@, j as int, (rk, inner), receiver.bytes@);
                assert(map_get(ap0@, receiver.bytes@) == Some(inner0));
                assert forall|x: int| 0 <= x < ap@.len() implies map_sorted(
                    (#[trigger] ap@[x].1)@,
                ) by {
                    if x != j {
                        assert(ap@[x].1 == ap0@[x].1);
                    }
                }
                assert forall|r2: Seq<u8>, t2: Seq<u8>|
                    !(r2 == receiver.bytes@ && t2 == tag@) implies appr_get(*ap, r2, t2)
                    == appr_get(ap0, r2, t2) by {
                    lemma_get_update(ap0@, j as int, (rk, inner), r2);
                    if r2 == receiver.bytes@ {
                        assert(map_get(inner@, t2) == map_get(inner0@, t2));
                    }
                }
            }
        },
        None => {
            let mut inner: ByteMap<CreditApproval> = ByteMap::new();
            inner.insert(dup_bytes(tag), v);
            let ghost inner1 = inner;
            ap.insert(dup_bytes(&receiver.bytes), inner);
            proof {
                crate::bmap::lemma_lb_props(ap0@, receiver.bytes@, 0);
                let lb = map_lb(ap0@, receiver.bytes@);
                crate::bmap::lemma_idx_from_props(ap0@, receiver.bytes@, 0);
                assert forall|x: int| 0 <= x < ap@.len() implies map_sorted(
                    (#[trigger] ap@[x].1)@,
                ) by {
                    if x < lb {
                        assert(ap@[x].1 == ap0@[x].1);
                    } else if x > lb {
                        assert(ap@[x].1 == ap0@[x - 1].1);
                    }
                }
                assert forall|r2: Seq<u8>, t2: Seq<u8>|
                    !(r2 == receiver.bytes@ && t2 == tag@) implies appr_get(*ap, r2, t2)
                    == appr_get(ap0, r2, t2) by {
                    if r2 == receiver.bytes@ {
                        assert(map_get(ap@, r2) == Some(inner1));
                        assert(map_get(inner1@, t2) == None::<CreditApproval>);
                        assert(map_get(ap0@, r2) == None::<ByteMap<CreditApproval>>);
                    }
                }
            }
        },
    }
}

/// Removes the approval under `(receiver, tag)`, dropping the receiver's
/// entry when its last approval goes; reports whether one was there.
fn approvals_unset(ap: &mut ByteMap<ByteMap<CreditApproval>>, receiver: &Vec<u8>, tag: &Vec<u8>) -> (found: bool)
    requires
        approvals_wf(*old(ap)),
    ensures
        approvals_wf(*final(ap)),
        found == (appr_get(*old(ap), receiver@, tag@) is Some),
        appr_get(*final(ap), receiver@, tag@) == None::<CreditApproval>,
        forall|r2: Seq<u8>, t2: Seq<u8>|
            !(r2 == receiver@ && t2 == tag@) ==> appr_get(*final(ap), r2, t2) == appr_get(
                *old(ap),
                r2,
                t2,
            ),
{
    let ghost ap0 = *ap;
    match ap.index_of(receiver) {
        None => {
            proof {
                crate::bmap::lemma_idx_from_props(ap0@, receiver@, 0);
            }
            false
        },
        Some(j) => {
            let (rk, mut inner) = ap.take_at(j);
            let ghost inner0 = inner;
            let prev = inner.remove(tag);
            let found = match &prev {
                Some(_v) => true,
                None => false,
            };
            if inner.is_empty() {
                proof {
                    crate::bmap::lemma_get_remove(ap0@, j as int, receiver@);
                    assert forall|r2: Seq<u8>, t2: Seq<u8>|
                        !(r2 == receiver@ && t2 == tag@) implies appr_get(*ap, r2, t2)
                        == appr_get(ap0, r2, t2) by {
                        crate::bmap::lemma_get_remove(ap0@, j as int, r2);
                        if r2 == receiver@ {
                            assert(map_get(ap0@, r2) == Some(inner0));
                            if prev is None {
                                assert(inner@ == inner0@);
                                crate::bmap::lemma_idx_from_props(inner0@, t2, 0);
                            } else {
                                crate::bmap::lemma_idx_from_props(inner0@, tag@, 0);
                                assert(inner0@.len() == 1);
                                crate::bmap::lemma_idx_from_props(inner0@, t2, 0);
                            }
                        }
                    }
                    assert forall|x: int| 0 <= x < ap@.len() implies map_sorted(
                        (#[trigger] ap@[x].1)@,
                    ) by {
                        if x < j {
                            assert(ap@[x].1 == ap0@[x].1);
                        } else {
                            assert(ap@[x].1 == ap0@[x + 1].1);
                        }
                    }
                }
                found
            } else {
                ap.put_at(j, rk, inner);
                proof {
                    lemma_remove_insert_is_update(ap0@, j as int, (rk, inner));
                    lemma_get_update(ap0@, j as int, (rk, inner), receiver@);
                    assert(map_get(ap0@, receiver@) == Some(inner0));
                    assert forall|x: int| 0 <= x < ap@.len() implies map_sorted(
                        (#[trigger] ap@[x].1)@,
                    ) by {
                        if x != j {
                            assert(ap@[x].1 == ap0@[x].1);
                        }
                    }
                    assert forall|r2: Seq<u8>, t2: Seq<u8>|
                        !(r2 == receiver@ && t2 == tag@) implies appr_get(*ap, r2, t2)
                        == appr_get(ap0, r2, t2) by {
                        lemma_get_update(ap0@, j as int, (rk, inner), r2);
                        if r2 == receiver@ {
                            assert(map_get(inner@, t2) == map_get(inner0@, t2));
                        }
                    }
                }
                found
            }
        },
    }
}

impl State {
    /// Which failure, if any, the approval upsert produces.
    pub open spec fn spec_approve_err(
        self,
        from: Seq<u8>,
        receiver: Seq<u8>,
        tag: Seq<u8>,
        limit: Option<i128>,
        ttl: Option<i64>,
        epoch: i64,
    ) -> Option<BlobError> {
        if (match limit {
            Some(l) => l < 0,
            None => false,
        }) {
            Some(BlobError::IllegalArgument)
        } else if (match ttl {
            Some(t) => epoch + t > i64::MAX as int || epoch + t < i64::MIN as int,
            None => false,
        }) {
            Some(BlobError::Overflow)
        } else {
            match map_get(self.accounts@, from) {
                None => Some(BlobError::NotFound),
                Some(a) => if (match (limit, appr_get(a.approvals, receiver, tag)) {
                    (Some(l), Some(prev)) => prev.used > l,
                    _ => false,
                }) {
                    Some(BlobError::IllegalArgument)
                } else {
                    None
                },
            }
        }
    }

    /// Grants or updates a delegation of `from`'s credit to `receiver`,
    /// optionally restricted to one caller (the empty tag stands for any
    /// caller): the limit and expiry are replaced, the spent amount is
    /// kept, and a new limit may not undercut what is already spent.
    pub fn approve_credit(
        &mut self,
        from: &Address,
        receiver: &Address,
        required_caller: Option<&Address>,
        limit: Option<i128>,
        ttl: Option<i64>,
        current_epoch: i64,
    ) -> (r: Result<CreditApproval, BlobError>)
        requires
            old(self).wf(),
        ensures
            final(self).wf(),
            ({
                let tag = match required_caller {
                    Some(c) => c.bytes@,
                    None => Seq::<u8>::empty(),
                };
                let err = old(self).spec_approve_err(
                    from.bytes@,
                    receiver.bytes@,
                    tag,
                    limit,
                    ttl,
                    current_epoch,
                );
                match r {
                    Err(e) => err == Some(e) && *final(self) == *old(self),
                    Ok(apv) => {
                        let a = map_get(old(self).accounts@, from.bytes@)->0;
                        let expected = CreditApproval {
                            limit,
                            expiry: (match ttl {
                                Some(t) => Some((current_epoch + t) as i64),
                                None => None,
                            }),
                            used: (match appr_get(a.approvals, receiver.bytes@, tag) {
                                Some(prev) => prev.used,
                                None => 0,
                            }),
                        };
                        &&& err == None::<BlobError>
                        &&& apv == expected
                        &&& final(self).blobs == old(self).blobs
                        &&& final(self).expiries == old(self).expiries
                        &&& final(self).added == old(self).added
                        &&& final(self).pending == old(self).pending
                        &&& final(self).read_requests == old(self).read_requests
                        &&& final(self).credit_sold == old(self).credit_sold
                        &&& final(self).credit_committed == old(self).credit_committed
                        &&& final(self).credit_debited == old(self).credit_debited
                        &&& final(self).capacity_used == old(self).capacity_used
                        &&& final(self).capacity_free == old(self).capacity_free
                        &&& final(self).credit_debit_rate == old(self).credit_debit_rate
                        &&& final(self).accounts@.len() == old(self).accounts@.len()
                        &&& forall|k2: Seq<u8>|
                            k2 != from.bytes@ ==> map_get(final(self).accounts@, k2) == map_get(
                                old(self).accounts@,
                                k2,
                            )
                        &&& match map_get(final(self).accounts@, from.bytes@) {
                            Some(a2) => {
                                &&& a2.capacity_used == a.capacity_used
                                &&& a2.credit_free == a.credit_free
                                &&& a2.credit_committed == a.credit_committed
                                &&& a2.last_debit_epoch == a.last_debit_epoch
                                &&& appr_get(a2.approvals, receiver.bytes@, tag) == Some(expected)
                                &&& forall|r2: Seq<u8>, t2: Seq<u8>|
                                    !(r2 == receiver.bytes@ && t2 == tag) ==> appr_get(
                                        a2.approvals,
                                        r2,
                                        t2,
                                    ) == appr_get(a.approvals, r2, t2)
                            },
                            None => false,
                        }
                    },
                }
            }),
            old(self).inv_committed() ==> final(self).inv_committed(),
            old(self).inv_capacity() ==> final(self).inv_capacity(),
            old(self).inv_approvals() ==> final(self).inv_approvals(),
    {
        let ghost s0 = *self;
        match limit {
            Some(l) => {
                if l < 0 {
                    return Err(BlobError::IllegalArgument);
                }
            },
            None => {},
        }
        let expiry: Option<i64> = match ttl {
            None => None,
            Some(t) => match current_epoch.checked_add(t) {
                Some(e) => Some(e),
                None => {
                    return Err(BlobError::Overflow);
                },
            },
        };
        let ai = match self.accounts.index_of(&from.bytes) {
            Some(i) => i,
            None => {
                return Err(BlobError::NotFound);
            },
        };
        proof {
            lemma_get_at(s0.accounts@, from.bytes@, ai as int);
        }
        let ghost a = s0.accounts@[ai as int].1;
        let tag: Vec<u8> = match required_caller {
            Some(c) => dup_bytes(&c.bytes),
            None => Vec::new(),
        };
        proof {
            if required_caller is None {
                assert(tag@ =~= Seq::<u8>::empty());
            }
        }
        let mut used: i128 = 0;
        match self.accounts.entries[ai].1.approvals.get(&receiver.bytes) {
            None => {},
            Some(inner) => {
                match inner.get(&tag) {
                    None => {},
                    Some(prev) => {
                        used = prev.used;
                        match limit {
                            Some(l) => {
                                if prev.used > l {
                                    return Err(BlobError::IllegalArgument);
                                }
                            },
                            None => {},
                        }
                    },
                }
            },
        }
        let apv = CreditApproval { limit, expiry, used };
        let (ak, acct) = self.accounts.take_at(ai);
        let mut approvals = acct.approvals;
        approvals_set(&mut approvals, receiver, &tag, apv);
        let acct2 = Account {
            capacity_used: acct.capacity_used,
            credit_free: acct.credit_free,
            credit_committed: acct.credit_committed,
            last_debit_epoch: acct.last_debit_epoch,
            approvals,
        };
        self.accounts.put_at(ai, ak, acct2);
        proof {
            lemma_remove_insert_is_update(s0.accounts@, ai as int, (ak, acct2));
            lemma_get_update(s0.accounts@, ai as int, (ak, acct2), from.bytes@);
            assert forall|k2: Seq<u8>| k2 != from.bytes@ implies map_get(self.accounts@, k2)
                == map_get(s0.accounts@, k2) by {
                lemma_get_update(s0.accounts@, ai as int, (ak, acct2), k2);
            }
            lemma_sum_update(s0.accounts@, ai as int, (ak, acct2), committed_of());
            assert forall|m: int| 0 <= m < self.accounts@.len() implies (
            #[trigger] self.accounts@[m].1).wf() by {
                if m != ai {
                    assert(self.accounts@[m].1 == s0.accounts@[m].1);
                }
            }
            if s0.inv_approvals() {
                lemma_approvals_ok_iff(a.approvals);
                lemma_approvals_ok_iff(acct2.approvals);
                assert forall|m: int| 0 <= m < self.accounts@.len() implies account_approvals_ok(
                    #[trigger] self.accounts@[m].1,
                ) by {
                    if m != ai {
                        assert(self.accounts@[m].1 == s0.accounts@[m].1);
                    } else {
                        assert(account_approvals_ok(a));
                        assert forall|r2: Seq<u8>, t2: Seq<u8>|
                            match #[trigger] appr_get(acct2.approvals, r2, t2) {
                                Some(x) => approval_ok(x),
                                None => true,
                            } by {
                            if !(r2 == receiver.bytes@ && t2 == tag@) {
                                assert(appr_get(acct2.approvals, r2, t2) == appr_get(
                                    a.approvals,
                                    r2,
                                    t2,
                                ));
                            }
                        }
                    }
                }
            }
        }
        Ok(apv)
    }

    /// Which failure, if any, the revocation produces.
    pub open spec fn spec_revoke_err(self, from: Seq<u8>, receiver: Seq<u8>, tag: Seq<u8>) -> Option<
        BlobError,
    > {
        match map_get(self.accounts@, from) {
            None => Some(BlobError::NotFound),
            Some(a) => if appr_get(a.approvals, receiver, tag) is None {
                Some(BlobError::NotFound)
            } else {
                None
            },
        }
    }

    /// Withdraws a delegation of `from`'s credit.
    pub fn revoke_credit(
        &mut self,
        from: &Address,
        receiver: &Address,
        required_caller: Option<&Address>,
    ) -> (r: Result<(), BlobError>)
        requires
            old(self).wf(),
        ensures
            final(self).wf(),
            ({
                let tag = match required_caller {
                    Some(c) => c.bytes@,
                    None => Seq::<u8>::empty(),
                };
                let err = old(self).spec_revoke_err(from.bytes@, receiver.bytes@, tag);
                match r {
                    Err(e) => err == Some(e) && *final(self) == *old(self),
                    Ok(u) => {
                        let a = map_get(old(self).accounts@, from.bytes@)->0;
                        &&& err == None::<BlobError>
                        &&& final(self).blobs == old(self).blobs
                        &&& final(self).expiries == old(self).expiries
                        &&& final(self).added == old(self).added
                        &&& final(self).pending == old(self).pending
                        &&& final(self).read_requests == old(self).read_requests
                        &&& final(self).credit_sold == old(self).credit_sold
                        &&& final(self).credit_committed == old(self).credit_committed
                        &&& final(self).credit_debited == old(self).credit_debited
                        &&& final(self).capacity_used == old(self).capacity_used
                        &&& final(self).capacity_free == old(self).capacity_free
                        &&& final(self).credit_debit_rate == old(self).credit_debit_rate
                        &&& final(self).accounts@.len() == old(self).accounts@.len()
                        &&& forall|k2: Seq<u8>|
                            k2 != from.bytes@ ==> map_get(final(self).accounts@, k2) == map_get(
                                old(self).accounts@,
                                k2,
                            )
                        &&& match map_get(final(self).accounts@, from.bytes@) {
                            Some(a2) => {
                                &&& a2.capacity_used == a.capacity_used
                                &&& a2.credit_free == a.credit_free
                                &&& a2.credit_committed == a.credit_committed
                                &&& a2.last_debit_epoch == a.last_debit_epoch
                                &&& appr_get(a2.approvals, receiver.bytes@, tag) == None::<
                                    CreditApproval,
                                >
                                &&& forall|r2: Seq<u8>, t2: Seq<u8>|
                                    !(r2 == receiver.bytes@ && t2 == tag) ==> appr_get(
                                        a2.approvals,
                                        r2,
                                        t2,
                                    ) == appr_get(a.approvals, r2, t2)
                            },
                            None => false,
                        }
                    },
                }
            }),
            old(self).inv_committed() ==> final(self).inv_committed(),
            old(self).inv_capacity() ==> final(self).inv_capacity(),
            old(self).inv_approvals() ==> final(self).inv_approvals(),
    {
        let ghost s0 = *self;
        let ai = match self.accounts.index_of(&from.bytes) {
            Some(i) => i,
            None => {
                return Err(BlobError::NotFound);
            },
        };
        proof {
            lemma_get_at(s0.accounts@, from.bytes@, ai as int);
        }
        let ghost a = s0.accounts@[ai as int].1;
        let tag: Vec<u8> = match required_caller {
            Some(c) => dup_bytes(&c.bytes),
            None => Vec::new(),
        };
        proof {
            if required_caller is None {
                assert(tag@ =~= Seq::<u8>::empty());
            }
        }
        let mut found_pre = false;
        match self.accounts.entries[ai].1.approvals.get(&receiver.bytes) {
            None => {},
            Some(inner) => {
                match inner.get(&tag) {
                    None => {},
                    Some(_prev) => {
                        found_pre = true;
                    },
                }
            },
        }
        if !found_pre {
            return Err(BlobError::NotFound);
        }
        let (ak, acct) = self.accounts.take_at(ai);
        let mut approvals = acct.approvals;
        let _found = approvals_unset(&mut approvals, &receiver.bytes, &tag);
        let acct2 = Account {
            capacity_used: acct.capacity_used,
            credit_free: acct.credit_free,
            credit_committed: acct.credit_committed,
            last_debit_epoch: acct.last_debit_epoch,
            approvals,
        };
        self.accounts.put_at(ai, ak, acct2);
        proof {
            lemma_remove_insert_is_update(s0.accounts@, ai as int, (ak, acct2));
            lemma_get_update(s0.accounts@, ai as int, (ak, acct2), from.bytes@);
            assert forall|k2: Seq<u8>| k2 != from.bytes@ implies map_get(self.accounts@, k2)
                == map_get(s0.accounts@, k2) by {
                lemma_get_update(s0.accounts@, ai as int, (ak, acct2), k2);
            }
            lemma_sum_update(s0.accounts@, ai as int, (ak, acct2), committed_of());
            assert forall|m: int| 0 <= m < self.accounts@.len() implies (
            #[trigger] self.accounts@[m].1).wf() by {
                if m != ai {
                    assert(self.accounts@[m].1 == s0.accounts@[m].1);
                }
            }
            if s0.inv_approvals() {
                lemma_approvals_ok_iff(a.approvals);
                lemma_approvals_ok_iff(acct2.approvals);
                assert forall|m: int| 0 <= m < self.accounts@.len() implies account_approvals_ok(
                    #[trigger] self.accounts@[m].1,
                ) by {
                    if m != ai {
                        assert(self.accounts@[m].1 == s0.accounts@[m].1);
                    } else {
                        assert(account_approvals_ok(a));
                        assert forall|r2: Seq<u8>, t2: Seq<u8>|
                            match #[trigger] appr_get(acct2.approvals, r2, t2) {
                                Some(x) => approval_ok(x),
                                None => true,
                            } by {
                            if !(r2 == receiver.bytes@ && t2 == tag@) {
                                assert(appr_get(acct2.approvals, r2, t2) == appr_get(
                                    a.approvals,
                                    r2,
                                    t2,
                                ));
                            }
                        }
                    }
                }
            }
        }
        Ok(())
    }

    /// The approval consulted when `origin`'s transaction, through
    /// `caller`, spends `from`'s credit, if a valid entry exists.
    pub fn get_credit_approval(&self, from: &Address, origin: &Address, caller: &Address) -> (r:
        Option<CreditApproval>)
        ensures
            r == (match map_get(self.accounts@, from.bytes@) {
                Some(a) => spec_find_approval(a, origin.bytes@, caller.bytes@),
                None => None::<CreditApproval>,
            }),
    {
        match self.accounts.get(&from.bytes) {
            None => None,
            Some(a) => match find_approval(a, origin, caller) {
                Some(p) => Some(p.0),
                None => None,
            },
        }
    }
}

/// The total size of the blobs named by a queue's entries from index `i`
/// on; absent blobs count zero bytes.
pub open spec fn queue_bytes_from(
    q: Seq<(Vec<u8>, ByteMap<ByteMap<()>>)>,
    blobs: ByteMap<Blob>,
    i: int,
) -> int
    decreases q.len() - i,
{
    if !(0 <= i < q.len()) {
        0
    } else {
        (match map_get(blobs@, q[i].0@) {
            Some(b) => b.size as int,
            None => 0,
        }) + queue_bytes_from(q, blobs, i + 1)
    }
}

proof fn lemma_queue_bytes_bound(q: Seq<(Vec<u8>, ByteMap<ByteMap<()>>)>, blobs: ByteMap<Blob>, i: int)
    requires
        0 <= i <= q.len(),
    ensures
        0 <= queue_bytes_from(q, blobs, i) <= (q.len() - i) * (u64::MAX as int),
    decreases q.len() - i,
{
    if i < q.len() {
        lemma_queue_bytes_bound(q, blobs, i + 1);
        assert((q.len() - i) * (u64::MAX as int) == (q.len() - i - 1) * (u64::MAX as int) + (
        u64::MAX as int)) by (nonlinear_arith);
    }
}

/// Sums the sizes of the blobs a queue names, saturating at the largest
/// reportable value.
fn queue_bytes(q: &ByteMap<ByteMap<ByteMap<()>>>, blobs: &ByteMap<Blob>) -> (r: u64)
    ensures
        r as int == (if queue_bytes_from(q@, *blobs, 0) <= u64::MAX as int {
            queue_bytes_from(q@, *blobs, 0)
        } else {
            u64::MAX as int
        }),
{
    let n = q.entries.len();
    let mut acc: u128 = 0;
    let mut i: usize = 0;
    proof {
        lemma_queue_bytes_bound(q@, *blobs, 0);
    }
    while i < n
        invariant
            0 <= i <= n,
            n == q@.len(),
            acc as int + queue_bytes_from(q@, *blobs, i as int) == queue_bytes_from(q@, *blobs, 0),
            acc as int <= (i as int) * (u64::MAX as int),
        decreases n - i,
    {
        proof {
            lemma_queue_bytes_bound(q@, *blobs, i as int);
            assert((i as int) * (u64::MAX as int) + (u64::MAX as int) == (i as int + 1) * (
            u64::MAX as int)) by (nonlinear_arith);
            assert((i as int + 1) * (u64::MAX as int) < 0x100000000000000000000000000000000) by (nonlinear_arith)
                requires
                    0 <= i as int + 1 <= 0x10000000000000000,
            ;
        }
        let sz: u64 = match blobs.get(&q.entries[i].0) {
            Some(b) => b.size,
            None => 0,
        };
        acc = acc + (sz as u128);
        i = i + 1;
    }
    if acc > (u64::MAX as u128) {
        u64::MAX
    } else {
        acc as u64
    }
}

/// The subnet-wide counters and totals reported to callers.
#[derive(Debug)]
pub struct GetStatsReturn {
    /// The subnet's token balance, in attos.
    pub balance: u128,
    /// The total free storage capacity of the subnet.
    pub capacity_free: i128,
    /// The total used storage capacity of the subnet.
    pub capacity_used: i128,
    /// The total credit sold in the subnet.
    pub credit_sold: i128,
    /// The total credit committed to active storage in the subnet.
    pub credit_committed: i128,
    /// The total credit debited in the subnet.
    pub credit_debited: i128,
    /// Byte-blocks per atto token, fixed at genesis.
    pub credit_debit_rate: u64,
    /// The number of accounts.
    pub num_accounts: u64,
    /// The number of stored blobs.
    pub num_blobs: u64,
    /// The number of blobs the resolver is fetching.
    pub num_resolving: u64,
    /// The total bytes of the blobs the resolver is fetching.
    pub bytes_resolving: u64,
    /// The number of blobs not yet handed to the resolver.
    pub num_added: u64,
    /// The total bytes of the blobs not yet handed to the resolver.
    pub bytes_added: u64,
}

impl State {
    /// Reports the subnet-wide counters and totals, with the given token
    /// balance; blob counts larger than the reportable range saturate.
    pub fn get_stats(&self, balance: u128) -> (r: GetStatsReturn)
        requires
            self.accounts@.len() <= u64::MAX,
            self.blobs@.len() <= u64::MAX,
            self.pending@.len() <= u64::MAX,
            self.added@.len() <= u64::MAX,
        ensures
            r.balance == balance,
            r.capacity_free == self.capacity_free,
            r.capacity_used == self.capacity_used,
            r.credit_sold == self.credit_sold,
            r.credit_committed == self.credit_committed,
            r.credit_debited == self.credit_debited,
            r.credit_debit_rate == self.credit_debit_rate,
            r.num_accounts == self.accounts@.len(),
            r.num_blobs == self.blobs@.len(),
            r.num_resolving == self.pending@.len(),
            r.num_added == self.added@.len(),
            r.bytes_resolving as int == (if queue_bytes_from(self.pending@, self.blobs, 0)
                <= u64::MAX as int {
                queue_bytes_from(self.pending@, self.blobs, 0)
            } else {
                u64::MAX as int
            }),
            r.bytes_added as int == (if queue_bytes_from(self.added@, self.blobs, 0) <= u64::MAX as int {
                queue_bytes_from(self.added@, self.blobs, 0)
            } else {
                u64::MAX as int
            }),
    {
        GetStatsReturn {
            balance,
            capacity_free: self.capacity_free,
            capacity_used: self.capacity_used,
            credit_sold: self.credit_sold,
            credit_committed: self.credit_committed,
            credit_debited: self.credit_debited,
            credit_debit_rate: self.credit_debit_rate,
            num_accounts: self.accounts.len() as u64,
            num_blobs: self.blobs.len() as u64,
            num_resolving: self.pending.len() as u64,
            bytes_resolving: queue_bytes(&self.pending, &self.blobs),
            num_added: self.added.len() as u64,
            bytes_added: queue_bytes(&self.added, &self.blobs),
        }
    }
}

impl State {
    /// Which failure, if any, opening the read request produces.
    pub open spec fn spec_open_read_err(
        self,
        hash: Seq<u8>,
        offset: u32,
        addr: Seq<u8>,
        method: u64,
        epoch: i64,
    ) -> Option<BlobError> {
        match map_get(self.blobs@, hash) {
            None => Some(BlobError::NotFound),
            Some(b) => if !(b.status is Resolved) {
                Some(BlobError::IllegalState)
            } else if map_has(
                self.read_requests@,
                crate::hashing::req_id_of(hash, offset, addr, method, epoch),
            ) {
                Some(BlobError::IllegalState)
            } else {
                None
            },
        }
    }

    /// Opens a request to read a resolved blob's bytes and call an actor
    /// back; the request is identified by the digest of its defining
    /// bytes, and a colliding identifier is refused.
    pub fn open_read_request(
        &mut self,
        hash: &BlobHash,
        offset: u32,
        callback_addr: &Address,
        callback_method: u64,
        current_epoch: i64,
    ) -> (r: Result<BlobHash, BlobError>)
        requires
            old(self).wf(),
        ensures
            final(self).wf(),
            ({
                let rid = crate::hashing::req_id_of(
                    hash.bytes@,
                    offset,
                    callback_addr.bytes@,
                    callback_method,
                    current_epoch,
                );
                let err = old(self).spec_open_read_err(
                    hash.bytes@,
                    offset,
                    callback_addr.bytes@,
                    callback_method,
                    current_epoch,
                );
                match r {
                    Err(e) => err == Some(e) && *final(self) == *old(self),
                    Ok(id) => {
                        &&& err == None::<BlobError>
                        &&& id.bytes@ == rid
                        &&& final(self).accounts == old(self).accounts
                        &&& final(self).blobs == old(self).blobs
                        &&& final(self).expiries == old(self).expiries
                        &&& final(self).added == old(self).added
                        &&& final(self).pending == old(self).pending
                        &&& final(self).credit_sold == old(self).credit_sold
                        &&& final(self).credit_committed == old(self).credit_committed
                        &&& final(self).credit_debited == old(self).credit_debited
                        &&& final(self).capacity_used == old(self).capacity_used
                        &&& final(self).capacity_free == old(self).capacity_free
                        &&& final(self).credit_debit_rate == old(self).credit_debit_rate
                        &&& final(self).read_requests@.len() == old(self).read_requests@.len() + 1
                        &&& (match map_get(final(self).read_requests@, rid) {
                            Some(rr) => rr.blob_hash.bytes@ == hash.bytes@ && rr.offset == offset
                                && rr.callback_addr.bytes@ == callback_addr.bytes@
                                && rr.callback_method == callback_method,
                            None => false,
                        })
                        &&& forall|k2: Seq<u8>|
                            k2 != rid ==> map_get(final(self).read_requests@, k2) == map_get(
                                old(self).read_requests@,
                                k2,
                            )
                    },
                }
            }),
            old(self).inv_committed() ==> final(self).inv_committed(),
            old(self).inv_capacity() ==> final(self).inv_capacity(),
            old(self).inv_approvals() ==> final(self).inv_approvals(),
    {
        let ghost s0 = *self;
        let resolved = match self.blobs.get(&hash.bytes) {
            None => {
                return Err(BlobError::NotFound);
            },
            Some(b) => match b.status {
                BlobStatus::Resolved => true,
                _ => false,
            },
        };
        if !resolved {
            return Err(BlobError::IllegalState);
        }
        let rid = crate::hashing::derive_request_id(
            hash,
            offset,
            callback_addr,
            callback_method,
            current_epoch,
        );
        if self.read_requests.contains(&rid.bytes) {
            return Err(BlobError::IllegalState);
        }
        let rr = ReadRequest {
            blob_hash: hash.dup(),
            offset,
            callback_addr: callback_addr.dup(),
            callback_method,
        };
        let key = dup_bytes(&rid.bytes);
        self.read_requests.insert(key, rr);
        proof {
            crate::bmap::lemma_lb_props(s0.read_requests@, rid.bytes@, 0);
            crate::bmap::lemma_idx_from_props(s0.read_requests@, rid.bytes@, 0);
        }
        Ok(rid)
    }

    /// Whether a read request with this identifier is open.
    pub fn read_request_exists(&self, request_id: &BlobHash) -> (r: bool)
        ensures
            r == map_has(self.read_requests@, request_id.bytes@),
    {
        self.read_requests.contains(&request_id.bytes)
    }

    /// Closes an open read request; refused when none with this identifier
    /// is open.
    pub fn close_read_request(&mut self, request_id: &BlobHash) -> (r: Result<(), BlobError>)
        requires
            old(self).wf(),
        ensures
            final(self).wf(),
            match r {
                Err(e) => e == BlobError::NotFound && !map_has(
                    old(self).read_requests@,
                    request_id.bytes@,
                ) && *final(self) == *old(self),
                Ok(u) => {
                    &&& map_has(old(self).read_requests@, request_id.bytes@)
                    &&& final(self).accounts == old(self).accounts
                    &&& final(self).blobs == old(self).blobs
                    &&& final(self).expiries == old(self).expiries
                    &&& final(self).added == old(self).added
                    &&& final(self).pending == old(self).pending
                    &&& final(self).credit_sold == old(self).credit_sold
                    &&& final(self).credit_committed == old(self).credit_committed
                    &&& final(self).credit_debited == old(self).credit_debited
                    &&& final(self).capacity_used == old(self).capacity_used
                    &&& final(self).capacity_free == old(self).capacity_free
                    &&& final(self).credit_debit_rate == old(self).credit_debit_rate
                    &&& map_get(final(self).read_requests@, request_id.bytes@) == None::<
                        ReadRequest,
                    >
                    &&& final(self).read_requests@.len() == old(self).read_requests@.len() - 1
                    &&& forall|k2: Seq<u8>|
                        k2 != request_id.bytes@ ==> map_get(final(self).read_requests@, k2)
                            == map_get(old(self).read_requests@, k2)
                },
            },
            old(self).inv_committed() ==> final(self).inv_committed(),
            old(self).inv_capacity() ==> final(self).inv_capacity(),
            old(self).inv_approvals() ==> final(self).inv_approvals(),
    {
        let ghost s0 = *self;
        match self.read_requests.remove(&request_id.bytes) {
            Some(_rr) => {
                proof {
                    crate::bmap::lemma_idx_from_props(s0.read_requests@, request_id.bytes@, 0);
                }
                Ok(())
            },
            None => {
                proof {
                    crate::bmap::lemma_idx_from_props(s0.read_requests@, request_id.bytes@, 0);
                }
                Err(BlobError::NotFound)
            },
        }
    }

    /// One page of open read requests, in ascending identifier order.
    pub fn get_open_read_requests(&self, limit: u32) -> (r: Vec<(BlobHash, ReadRequest)>)
        ensures
            r@.len() == (if limit as int <= self.read_requests@.len() {
                limit as int
            } else {
                self.read_requests@.len() as int
            }),
            forall|i: int|
                0 <= i < r@.len() ==> (#[trigger] r@[i]).0.bytes@ == self.read_requests@[i].0@
                    && crate::types::request_like(r@[i].1, self.read_requests@[i].1),
    {
        let mut r: Vec<(BlobHash, ReadRequest)> = Vec::new();
        let n = self.read_requests.entries.len();
        let lim: usize = if (limit as usize) <= n {
            limit as usize
        } else {
            n
        };
        let mut i: usize = 0;
        while i < lim
            invariant
                0 <= i <= lim,
                lim <= n,
                n == self.read_requests@.len(),
                lim == (if limit as int <= self.read_requests@.len() {
                    limit as int
                } else {
                    self.read_requests@.len() as int
                }),
                r@.len() == i,
                forall|m: int|
                    0 <= m < i ==> (#[trigger] r@[m]).0.bytes@ == self.read_requests@[m].0@
                        && crate::types::request_like(r@[m].1, self.read_requests@[m].1),
            decreases lim - i,
        {
            let e = &self.read_requests.entries[i];
            r.push((BlobHash { bytes: dup_bytes(&e.0) }, e.1.dup()));
            i = i + 1;
        }
        r
    }
}

/// Folds a candidate expiry into a running maximum that only records
/// positive values.
pub open spec fn opt_bump(prev: Option<i64>, v: i64) -> Option<i64> {
    if v > (match prev {
        None => 0,
        Some(p) => p,
    }) {
        Some(v)
    } else {
        prev
    }
}

/// The running maximum expiry over the first `i` non-failed subscriptions.
pub open spec fn group_max_upto(s: Seq<(Vec<u8>, Subscription)>, i: int) -> Option<i64>
    decreases i,
{
    if i <= 0 {
        None
    } else {
        let p = group_max_upto(s, i - 1);
        if !s[i - 1].1.failed {
            opt_bump(p, s[i - 1].1.expiry)
        } else {
            p
        }
    }
}

/// The running maximum expiry over the first `i` non-failed subscriptions,
/// with the target identifier's expiry replaced by the proposed value.
pub open spec fn group_newmax_upto(
    s: Seq<(Vec<u8>, Subscription)>,
    i: int,
    target: Seq<u8>,
    nv: Option<i64>,
) -> Option<i64>
    decreases i,
{
    if i <= 0 {
        None
    } else {
        let p = group_newmax_upto(s, i - 1, target, nv);
        if !s[i - 1].1.failed {
            opt_bump(
                p,
                if s[i - 1].0@ == target {
                    match nv {
                        None => 0,
                        Some(v) => v,
                    }
                } else {
                    s[i - 1].1.expiry
                },
            )
        } else {
            p
        }
    }
}

/// The running minimum added-epoch over the first `i` non-failed
/// subscriptions other than the trimmed one.
pub open spec fn min_added_upto(s: Seq<(Vec<u8>, Subscription)>, i: int, trim: Seq<u8>) -> Option<
    i64,
>
    decreases i,
{
    if i <= 0 {
        None
    } else {
        let p = min_added_upto(s, i - 1, trim);
        if !s[i - 1].1.failed && s[i - 1].0@ != trim && s[i - 1].1.added < (match p {
            None => i64::MAX,
            Some(v) => v,
        }) {
            Some(s[i - 1].1.added)
        } else {
            p
        }
    }
}

impl SubscriptionGroup {
    /// The group's maximum expiry over non-failed subscriptions, and the
    /// maximum after the target identifier's expiry is replaced by the
    /// proposed value; callers use the pair to see whether the change
    /// shortens the blob's effective storage term.  Expiries at or below
    /// zero are never recorded.
    pub fn max_expiries(&self, target_id: &SubscriptionId, new_value: Option<i64>) -> (r: (
        Option<i64>,
        Option<i64>,
    ))
        ensures
            r.0 == group_max_upto(self.subscriptions@, self.subscriptions@.len() as int),
            r.1 == (match new_value {
                Some(nv) => opt_bump(
                    group_newmax_upto(
                        self.subscriptions@,
                        self.subscriptions@.len() as int,
                        target_id.enc(),
                        new_value,
                    ),
                    nv,
                ),
                None => group_newmax_upto(
                    self.subscriptions@,
                    self.subscriptions@.len() as int,
                    target_id.enc(),
                    new_value,
                ),
            }),
    {
        let tb = target_id.to_bytes();
        let n = self.subscriptions.entries.len();
        let mut max: Option<i64> = None;
        let mut new_max: Option<i64> = None;
        let mut i: usize = 0;
        while i < n
            invariant
                0 <= i <= n,
                n == self.subscriptions@.len(),
                tb@ == target_id.enc(),
                max == group_max_upto(self.subscriptions@, i as int),
                new_max == group_newmax_upto(self.subscriptions@, i as int, target_id.enc(), new_value),
            decreases n - i,
        {
            let e = &self.subscriptions.entries[i];
            if !e.1.failed {
                let cur_max: i64 = match max {
                    None => 0,
                    Some(p) => p,
                };
                if e.1.expiry > cur_max {
                    max = Some(e.1.expiry);
                }
                let used: i64 = if crate::ord::bytes_eq(&e.0, &tb) {
                    match new_value {
                        None => 0,
                        Some(v) => v,
                    }
                } else {
                    e.1.expiry
                };
                let cur_new: i64 = match new_max {
                    None => 0,
                    Some(p) => p,
                };
                if used > cur_new {
                    new_max = Some(used);
                }
            }
            i = i + 1;
        }
        match new_value {
            Some(nv) => {
                let cur_new: i64 = match new_max {
                    None => 0,
                    Some(p) => p,
                };
                if nv > cur_new {
                    new_max = Some(nv);
                }
            },
            None => {},
        }
        (max, new_max)
    }

    /// Whether the trimmed identifier's subscription carries the earliest
    /// added-epoch among the group's non-failed subscriptions, and the next
    /// earliest among the others; refused when the identifier is absent.
    pub fn is_min_added(&self, trim_id: &SubscriptionId) -> (r: Result<(bool, Option<i64>), BlobError>)
        ensures
            match r {
                Err(e) => e == BlobError::NotFound && map_get(self.subscriptions@, trim_id.enc())
                    == None::<Subscription>,
                Ok(p) => match map_get(self.subscriptions@, trim_id.enc()) {
                    Some(trim) => {
                        &&& p.0 == (forall|m: int|
                            0 <= m < self.subscriptions@.len() && !(
                            #[trigger] self.subscriptions@[m]).1.failed
                                && self.subscriptions@[m].0@ != trim_id.enc()
                                ==> self.subscriptions@[m].1.added >= trim.added)
                        &&& p.1 == (if p.0 {
                            min_added_upto(
                                self.subscriptions@,
                                self.subscriptions@.len() as int,
                                trim_id.enc(),
                            )
                        } else {
                            None::<i64>
                        })
                    },
                    None => false,
                },
            },
    {
        let tb = trim_id.to_bytes();
        let trim_added: i64 = match self.subscriptions.get(&tb) {
            None => {
                return Err(BlobError::NotFound);
            },
            Some(t) => t.added,
        };
        let n = self.subscriptions.entries.len();
        let mut next_min: Option<i64> = None;
        let mut i: usize = 0;
        while i < n
            invariant
                0 <= i <= n,
                n == self.subscriptions@.len(),
                tb@ == trim_id.enc(),
                map_get(self.subscriptions@, trim_id.enc()) matches Some(t) && t.added
                    == trim_added,
                next_min == min_added_upto(self.subscriptions@, i as int, trim_id.enc()),
                forall|m: int|
                    0 <= m < i && !(#[trigger] self.subscriptions@[m]).1.failed
                        && self.subscriptions@[m].0@ != trim_id.enc()
                        ==> self.subscriptions@[m].1.added >= trim_added,
            decreases n - i,
        {
            let e = &self.subscriptions.entries[i];
            if !e.1.failed && !crate::ord::bytes_eq(&e.0, &tb) {
                if e.1.added < trim_added {
                    return Ok((false, None));
                }
                let cur: i64 = match next_min {
                    None => i64::MAX,
                    Some(v) => v,
                };
                if e.1.added < cur {
                    next_min = Some(e.1.added);
                }
            }
            i = i + 1;
        }
        Ok((true, next_min))
    }
}

} // verus!
