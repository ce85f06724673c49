//! The engine's data model: addresses, hashes, subscriptions, blobs,
//! accounts, credit approvals and read requests, all over plain values so
//! that every field is visible to the verifier.
//!
//! Credit and capacity amounts are signed 128-bit integers; every
//! arithmetic step in the engine is checked, so amounts never wrap.

use vstd::prelude::*;

use crate::bmap::{map_sorted, ByteMap};

verus! {

/// Copies a byte string.
pub fn dup_bytes(v: &Vec<u8>) -> (r: Vec<u8>)
    ensures
        r@ == v@,
{
    let mut r: Vec<u8> = Vec::new();
    let n = v.len();
    let mut i: usize = 0;
    while i < n
        invariant
            0 <= i <= n,
            n == v.len(),
            r@ == v@.subrange(0, i as int),
        decreases n - i,
    {
        r.push(v[i]);
        proof {
            assert(r@ =~= v@.subrange(0, i + 1 as int));
        }
        i = i + 1;
    }
    proof {
        assert(r@ =~= v@);
    }
    r
}

/// The failure kinds a transition can report.  Each carries a stable exit
/// code and a fixed description; transitions state exactly which inputs
/// produce which kind.
#[derive(Clone, Copy, Debug, PartialEq, Eq, Structural)]
pub enum BlobError {
    /// A malformed argument: a hash of the wrong length, a time-to-live
    /// below the minimum.
    IllegalArgument,
    /// The payer's free credit does not cover the required credit.
    InsufficientFunds,
    /// An account, blob or subscription was required and is absent.
    NotFound,
    /// The caller lacks a valid delegation, or an approval limit or expiry
    /// forbids the spend.
    Forbidden,
    /// A request that contradicts the state machine, e.g. finalizing with a
    /// non-terminal status.
    IllegalState,
    /// Credits cannot be sold because the subnet is at capacity.
    Capacity,
    /// A credit or capacity amount would leave the engine's numeric range.
    Overflow,
}

impl BlobError {
    /// The exit code surfaced to the host for this failure kind.
    pub fn code(&self) -> (r: u32)
        ensures
            r == (match self {
                BlobError::IllegalArgument => 16u32,
                BlobError::InsufficientFunds => 19u32,
                BlobError::NotFound => 17u32,
                BlobError::Forbidden => 18u32,
                BlobError::IllegalState => 20u32,
                BlobError::Capacity => 23u32,
                BlobError::Overflow => 21u32,
            }),
    {
        match self {
            BlobError::IllegalArgument => 16,
            BlobError::InsufficientFunds => 19,
            BlobError::NotFound => 17,
            BlobError::Forbidden => 18,
            BlobError::IllegalState => 20,
            BlobError::Capacity => 23,
            BlobError::Overflow => 21,
        }
    }

    /// A fixed human-readable description of this failure kind.
    pub fn message(&self) -> &'static str {
        match self {
            BlobError::IllegalArgument => "illegal argument",
            BlobError::InsufficientFunds => "insufficient credit",
            BlobError::NotFound => "not found",
            BlobError::Forbidden => "forbidden",
            BlobError::IllegalState => "illegal state",
            BlobError::Capacity => "subnet has reached capacity",
            BlobError::Overflow => "amount out of range",
        }
    }
}

/// An actor identity: an opaque byte string, compared and ordered
/// byte-wise.  Real identities are never empty, and the engine relies on
/// that to tell an address apart from the empty wildcard tag in approval
/// maps.
#[derive(Debug)]
pub struct Address {
    /// The identity bytes.
    pub bytes: Vec<u8>,
}

impl Address {
    /// A valid address holds at least one byte.
    pub open spec fn wf(self) -> bool {
        self.bytes@.len() >= 1
    }

    /// Wraps identity bytes as an address.
    pub fn new(bytes: Vec<u8>) -> (r: Self)
        ensures
            r.bytes@ == bytes@,
    {
        Address { bytes }
    }

    /// Copies the address.
    pub fn dup(&self) -> (r: Self)
        ensures
            r.bytes@ == self.bytes@,
    {
        Address { bytes: dup_bytes(&self.bytes) }
    }
}

/// A 32-byte blob content digest.
#[derive(Debug)]
pub struct BlobHash {
    /// The digest bytes.
    pub bytes: Vec<u8>,
}

impl BlobHash {
    /// A valid digest holds exactly 32 bytes.
    pub open spec fn wf(self) -> bool {
        self.bytes@.len() == 32
    }

    /// Wraps digest bytes as a hash.
    pub fn new(bytes: Vec<u8>) -> (r: Self)
        ensures
            r.bytes@ == bytes@,
    {
        BlobHash { bytes }
    }

    /// Copies the hash.
    pub fn dup(&self) -> (r: Self)
        ensures
            r.bytes@ == self.bytes@,
    {
        BlobHash { bytes: dup_bytes(&self.bytes) }
    }
}

/// A 32-byte identifier of an off-chain resolver node.
#[derive(Debug)]
pub struct PublicKey {
    /// The key bytes.
    pub bytes: Vec<u8>,
}

impl PublicKey {
    /// A valid key holds exactly 32 bytes.
    pub open spec fn wf(self) -> bool {
        self.bytes@.len() == 32
    }

    /// Wraps key bytes as a public key.
    pub fn new(bytes: Vec<u8>) -> (r: Self)
        ensures
            r.bytes@ == bytes@,
    {
        PublicKey { bytes }
    }

    /// Copies the key.
    pub fn dup(&self) -> (r: Self)
        ensures
            r.bytes@ == self.bytes@,
    {
        PublicKey { bytes: dup_bytes(&self.bytes) }
    }
}

/// A user-chosen identifier telling apart several subscriptions by the same
/// subscriber to the same blob: either the default identifier or a key.
#[derive(Debug)]
pub enum SubscriptionId {
    /// The default (empty) identifier.
    Default,
    /// A key-based identifier; the key is the digest of the user's bytes
    /// and is never empty.
    Key(Vec<u8>),
}

impl SubscriptionId {
    /// The byte encoding used to order and store identifiers: the default
    /// identifier is the empty string, a key is its own (nonempty) bytes.
    pub open spec fn enc(self) -> Seq<u8> {
        match self {
            SubscriptionId::Default => Seq::<u8>::empty(),
            SubscriptionId::Key(k) => k@,
        }
    }

    /// A valid identifier never stores an empty key, so the encoding is
    /// one-to-one.
    pub open spec fn wf(self) -> bool {
        match self {
            SubscriptionId::Default => true,
            SubscriptionId::Key(k) => k@.len() > 0,
        }
    }

    /// The byte encoding of this identifier.
    pub fn to_bytes(&self) -> (r: Vec<u8>)
        ensures
            r@ == self.enc(),
    {
        match self {
            SubscriptionId::Default => {
                let r: Vec<u8> = Vec::new();
                proof {
                    assert(r@ =~= Seq::<u8>::empty());
                }
                r
            },
            SubscriptionId::Key(k) => dup_bytes(k),
        }
    }

    /// Copies the identifier.
    pub fn dup(&self) -> (r: Self)
        ensures
            r.enc() == self.enc(),
            r is Default <==> self is Default,
    {
        match self {
            SubscriptionId::Default => SubscriptionId::Default,
            SubscriptionId::Key(k) => SubscriptionId::Key(dup_bytes(k)),
        }
    }
}

/// The status of a blob's resolution.
#[derive(Clone, Copy, Debug, PartialEq, Eq, Structural)]
pub enum BlobStatus {
    /// Committed on-chain, not yet handed to the resolver.
    Added,
    /// Handed to the resolver, not yet terminal.
    Pending,
    /// The resolver fetched the content.
    Resolved,
    /// The resolver failed to fetch the content.
    Failed,
}

impl BlobStatus {
    /// A fixed human-readable name of the status.
    pub fn name(&self) -> &'static str {
        match self {
            BlobStatus::Added => "added",
            BlobStatus::Pending => "pending",
            BlobStatus::Resolved => "resolved",
            BlobStatus::Failed => "failed",
        }
    }
}

/// One subscriber's commitment to keep one blob stored until an epoch.
#[derive(Debug)]
pub struct Subscription {
    /// The epoch at which the subscription was added.
    pub added: i64,
    /// The epoch at which the subscription expires.
    pub expiry: i64,
    /// Whether the subscription renews automatically.
    pub auto_renew: bool,
    /// The resolver node asked to ingest the content.
    pub source: PublicKey,
    /// The transaction origin and caller, when the subscription was created
    /// through a credit approval on the subscriber's account.
    pub delegate: Option<(Address, Address)>,
    /// Whether resolution of the target blob failed for this subscription.
    pub failed: bool,
}

/// Two subscriptions carry the same values.
pub open spec fn sub_like(a: Subscription, b: Subscription) -> bool {
    &&& a.added == b.added
    &&& a.expiry == b.expiry
    &&& a.auto_renew == b.auto_renew
    &&& a.source.bytes@ == b.source.bytes@
    &&& match (a.delegate, b.delegate) {
        (None, None) => true,
        (Some(x), Some(y)) => x.0.bytes@ == y.0.bytes@ && x.1.bytes@ == y.1.bytes@,
        _ => false,
    }
    &&& a.failed == b.failed
}

impl Subscription {
    /// Copies the subscription.
    pub fn dup(&self) -> (r: Self)
        ensures
            sub_like(r, *self),
    {
        Subscription {
            added: self.added,
            expiry: self.expiry,
            auto_renew: self.auto_renew,
            source: self.source.dup(),
            delegate: match &self.delegate {
                None => None,
                Some(d) => Some((d.0.dup(), d.1.dup())),
            },
            failed: self.failed,
        }
    }
}

/// The subscriptions one subscriber holds on one blob, keyed by the
/// identifier encoding, in ascending byte order.
#[derive(Debug)]
pub struct SubscriptionGroup {
    /// The subscriptions, keyed by identifier encoding.
    pub subscriptions: ByteMap<Subscription>,
}

/// Two groups carry the same subscriptions under the same identifiers.
pub open spec fn group_like(a: SubscriptionGroup, b: SubscriptionGroup) -> bool {
    &&& a.subscriptions@.len() == b.subscriptions@.len()
    &&& forall|i: int|
        0 <= i < a.subscriptions@.len() ==> a.subscriptions@[i].0@ == b.subscriptions@[i].0@
            && sub_like(a.subscriptions@[i].1, b.subscriptions@[i].1)
}

impl SubscriptionGroup {
    /// Well-formed: identifiers sorted and never empty-keyed twice.
    pub open spec fn wf(self) -> bool {
        map_sorted(self.subscriptions@)
    }

    /// Copies the group.
    pub fn dup(&self) -> (r: Self)
        ensures
            group_like(r, *self),
            self.wf() ==> r.wf(),
    {
        let n = self.subscriptions.entries.len();
        let mut entries: Vec<(Vec<u8>, Subscription)> = Vec::new();
        let mut i: usize = 0;
        while i < n
            invariant
                0 <= i <= n,
                n == self.subscriptions@.len(),
                entries@.len() == i,
                forall|j: int|
                    0 <= j < i ==> entries@[j].0@ == self.subscriptions@[j].0@ && sub_like(
                        entries@[j].1,
                        self.subscriptions@[j].1,
                    ),
            decreases n - i,
        {
            let e = &self.subscriptions.entries[i];
            entries.push((dup_bytes(&e.0), e.1.dup()));
            i = i + 1;
        }
        let r = SubscriptionGroup { subscriptions: ByteMap { entries } };
        proof {
            if self.wf() {
                assert forall|x: int, y: int|
                    0 <= x < y < r.subscriptions@.len() implies crate::ord::lex_lt(
                    r.subscriptions@[x].0@,
                    r.subscriptions@[y].0@,
                ) by {
                    assert(r.subscriptions@[x].0@ == self.subscriptions@[x].0@);
                    assert(r.subscriptions@[y].0@ == self.subscriptions@[y].0@);
                }
            }
        }
        r
    }
}

/// A stored blob: its size, recovery metadata digest, subscribers and
/// resolution status.
#[derive(Debug)]
pub struct Blob {
    /// The content size in bytes.
    pub size: u64,
    /// The digest of the metadata used for recovery.
    pub metadata_hash: BlobHash,
    /// The subscribers, keyed by address bytes, each with a group of
    /// subscriptions.
    pub subscribers: ByteMap<SubscriptionGroup>,
    /// The resolution status.
    pub status: BlobStatus,
}

/// Two blobs carry the same values.
pub open spec fn blob_like(a: Blob, b: Blob) -> bool {
    &&& a.size == b.size
    &&& a.metadata_hash.bytes@ == b.metadata_hash.bytes@
    &&& a.status == b.status
    &&& a.subscribers@.len() == b.subscribers@.len()
    &&& forall|i: int|
        0 <= i < a.subscribers@.len() ==> a.subscribers@[i].0@ == b.subscribers@[i].0@
            && group_like(a.subscribers@[i].1, b.subscribers@[i].1)
}

impl Blob {
    /// Well-formed: subscriber map and every group sorted, and no
    /// subscriber entry without a subscription (an emptied group is
    /// removed with its subscriber).
    pub open spec fn wf(self) -> bool {
        &&& map_sorted(self.subscribers@)
        &&& forall|i: int| 0 <= i < self.subscribers@.len() ==> (#[trigger] self.subscribers@[i].1).wf()
        &&& forall|i: int|
            0 <= i < self.subscribers@.len() ==> (
            #[trigger] self.subscribers@[i].1).subscriptions@.len() > 0
    }

    /// Copies the blob.
    pub fn dup(&self) -> (r: Self)
        ensures
            blob_like(r, *self),
            self.wf() ==> r.wf(),
    {
        let n = self.subscribers.entries.len();
        let mut entries: Vec<(Vec<u8>, SubscriptionGroup)> = Vec::new();
        let mut i: usize = 0;
        while i < n
            invariant
                0 <= i <= n,
                n == self.subscribers@.len(),
                entries@.len() == i,
                forall|j: int| 0 <= j < i ==> (#[trigger] entries@[j]).0@ == self.subscribers@[j].0@,
                forall|j: int|
                    0 <= j < i ==> group_like((#[trigger] entries@[j]).1, self.subscribers@[j].1),
                forall|j: int|
                    0 <= j < i ==> (self.subscribers@[j].1.wf() ==> (#[trigger] entries@[j]).1.wf()),
            decreases n - i,
        {
            let e = &self.subscribers.entries[i];
            let kb = dup_bytes(&e.0);
            let gd = e.1.dup();
            proof {
                assert(kb@ == self.subscribers@[i as int].0@);
                assert(group_like(gd, self.subscribers@[i as int].1));
            }
            proof {
                if self.subscribers@[i as int].1.wf() {
                    assert(gd.wf());
                }
            }
            entries.push((kb, gd));
            proof {
                assert(entries@[i as int].0@ == self.subscribers@[i as int].0@);
                assert(group_like(entries@[i as int].1, self.subscribers@[i as int].1));
                assert(entries@[i as int].1 == gd);
            }
            i = i + 1;
        }
        let r = Blob {
            size: self.size,
            metadata_hash: self.metadata_hash.dup(),
            subscribers: ByteMap { entries },
            status: self.status,
        };
        proof {
            if self.wf() {
                assert forall|x: int, y: int|
                    0 <= x < y < r.subscribers@.len() implies crate::ord::lex_lt(
                    r.subscribers@[x].0@,
                    r.subscribers@[y].0@,
                ) by {
                    assert(r.subscribers@[x].0@ == self.subscribers@[x].0@);
                    assert(r.subscribers@[y].0@ == self.subscribers@[y].0@);
                }
            }
        }
        r
    }
}

/// A delegation of credit from one account to another: an optional spend
/// limit, an optional expiry epoch, and the amount spent through it so far.
#[derive(Clone, Copy, Debug, PartialEq, Eq, Structural)]
pub struct CreditApproval {
    /// The spend limit, if any.
    pub limit: Option<i128>,
    /// The expiry epoch, if any; at and after it the approval is unusable.
    pub expiry: Option<i64>,
    /// The credit spent through this approval so far.
    pub used: i128,
}

impl CreditApproval {
    /// Whether the approval may be consulted at `epoch`: not yet expired.
    pub open spec fn valid_at(self, epoch: i64) -> bool {
        match self.expiry {
            None => true,
            Some(e) => epoch < e,
        }
    }

    /// Whether spending `amount` more through the approval stays within its
    /// limit.
    pub open spec fn allows(self, amount: int) -> bool {
        match self.limit {
            None => true,
            Some(l) => self.used + amount <= l,
        }
    }
}

/// A credit account: capacity and credit balances, the epoch through which
/// debits are applied, and the approvals delegated to other accounts.
#[derive(Debug)]
pub struct Account {
    /// The total size of the blobs this account subscribes to.
    pub capacity_used: i128,
    /// Spendable credit, in byte-blocks.
    pub credit_free: i128,
    /// Credit reserved for active storage, in byte-blocks.
    pub credit_committed: i128,
    /// The epoch through which debits have been applied.
    pub last_debit_epoch: i64,
    /// Approvals, keyed by receiver address bytes, then by the required
    /// caller's address bytes; the empty string stands for any caller.
    pub approvals: ByteMap<ByteMap<CreditApproval>>,
}

/// Two approval tables carry the same entries.
pub open spec fn approvals_like(
    a: ByteMap<ByteMap<CreditApproval>>,
    b: ByteMap<ByteMap<CreditApproval>>,
) -> bool {
    &&& a@.len() == b@.len()
    &&& forall|i: int|
        0 <= i < a@.len() ==> (#[trigger] a@[i]).0@ == b@[i].0@ && a@[i].1@.len() == b@[i].1@.len()
            && forall|j: int|
            0 <= j < a@[i].1@.len() ==> (#[trigger] a@[i].1@[j]).0@ == b@[i].1@[j].0@
                && a@[i].1@[j].1 == b@[i].1@[j].1
}

/// Two accounts carry the same values.
pub open spec fn account_like(a: Account, b: Account) -> bool {
    &&& a.capacity_used == b.capacity_used
    &&& a.credit_free == b.credit_free
    &&& a.credit_committed == b.credit_committed
    &&& a.last_debit_epoch == b.last_debit_epoch
    &&& approvals_like(a.approvals, b.approvals)
}

impl Account {
    /// Well-formed: approval maps sorted at both levels.
    pub open spec fn wf(self) -> bool {
        &&& map_sorted(self.approvals@)
        &&& forall|i: int|
            0 <= i < self.approvals@.len() ==> map_sorted((#[trigger] self.approvals@[i].1)@)
    }

    /// A fresh account holding `credit_free` credits, with debits applied
    /// through `current_epoch`.
    pub fn new(credit_free: i128, current_epoch: i64) -> (r: Self)
        ensures
            r.capacity_used == 0,
            r.credit_free == credit_free,
            r.credit_committed == 0,
            r.last_debit_epoch == current_epoch,
            r.approvals@ == Seq::<(Vec<u8>, ByteMap<CreditApproval>)>::empty(),
            r.wf(),
    {
        Account {
            capacity_used: 0,
            credit_free,
            credit_committed: 0,
            last_debit_epoch: current_epoch,
            approvals: ByteMap::new(),
        }
    }

    /// Copies the account.
    pub fn dup(&self) -> (r: Self)
        ensures
            account_like(r, *self),
            self.wf() ==> r.wf(),
    {
        let n = self.approvals.entries.len();
        let mut entries: Vec<(Vec<u8>, ByteMap<CreditApproval>)> = Vec::new();
        let mut i: usize = 0;
        while i < n
            invariant
                0 <= i <= n,
                n == self.approvals@.len(),
                entries@.len() == i,
                forall|j: int|
                    0 <= j < i ==> (#[trigger] entries@[j]).0@ == self.approvals@[j].0@
                        && entries@[j].1@.len() == self.approvals@[j].1@.len() && (forall|x: int|
                        0 <= x < entries@[j].1@.len()
                            ==> (#[trigger] entries@[j].1@[x]).0@ == self.approvals@[j].1@[x].0@
                            && entries@[j].1@[x].1 == self.approvals@[j].1@[x].1),
            decreases n - i,
        {
            let e = &self.approvals.entries[i];
            let m = e.1.entries.len();
            let mut inner: Vec<(Vec<u8>, CreditApproval)> = Vec::new();
            let mut j: usize = 0;
            while j < m
                invariant
                    0 <= j <= m,
                    m == e.1@.len(),
                    inner@.len() == j,
                    forall|x: int|
                        0 <= x < j ==> inner@[x].0@ == e.1@[x].0@ && inner@[x].1 == e.1@[x].1,
                decreases m - j,
            {
                let p = &e.1.entries[j];
                let ca = CreditApproval { limit: p.1.limit, expiry: p.1.expiry, used: p.1.used };
                inner.push((dup_bytes(&p.0), ca));
                j = j + 1;
            }
            let kb = dup_bytes(&e.0);
            let im = ByteMap { entries: inner };
            proof {
                assert(kb@ == self.approvals@[i as int].0@);
                assert(im@.len() == self.approvals@[i as int].1@.len());
            }
            entries.push((kb, im));
            proof {
                assert(entries@[i as int].0@ == self.approvals@[i as int].0@);
                assert forall|x: int| 0 <= x < entries@[i as int].1@.len() implies (
                #[trigger] entries@[i as int].1@[x]).0@ == self.approvals@[i as int].1@[x].0@
                    && entries@[i as int].1@[x].1 == self.approvals@[i as int].1@[x].1 by {
                    assert(entries@[i as int].1@[x].0@ == self.approvals@[i as int].1@[x].0@);
                }
            }
            i = i + 1;
        }
        let r = Account {
            capacity_used: self.capacity_used,
            credit_free: self.credit_free,
            credit_committed: self.credit_committed,
            last_debit_epoch: self.last_debit_epoch,
            approvals: ByteMap { entries },
        };
        proof {
            if self.wf() {
                assert forall|x: int, y: int|
                    0 <= x < y < r.approvals@.len() implies crate::ord::lex_lt(
                    r.approvals@[x].0@,
                    r.approvals@[y].0@,
                ) by {
                    assert(r.approvals@[x].0@ == self.approvals@[x].0@);
                    assert(r.approvals@[y].0@ == self.approvals@[y].0@);
                }
                assert forall|i2: int| 0 <= i2 < r.approvals@.len() implies map_sorted(
                    (#[trigger] r.approvals@[i2].1)@,
                ) by {
                    assert(map_sorted(self.approvals@[i2].1@));
                    assert forall|x: int, y: int|
                        0 <= x < y < r.approvals@[i2].1@.len() implies crate::ord::lex_lt(
                        r.approvals@[i2].1@[x].0@,
                        r.approvals@[i2].1@[y].0@,
                    ) by {
                        assert(r.approvals@[i2].1@[x].0@ == self.approvals@[i2].1@[x].0@);
                        assert(r.approvals@[i2].1@[y].0@ == self.approvals@[i2].1@[y].0@);
                    }
                }
            }
        }
        r
    }
}

/// A request to read a stored blob's bytes and call an actor back.
#[derive(Debug)]
pub struct ReadRequest {
    /// The blob to read.
    pub blob_hash: BlobHash,
    /// The offset to start reading at.
    pub offset: u32,
    /// The actor to call back when the read completes.
    pub callback_addr: Address,
    /// The method number to call back.
    pub callback_method: u64,
}

/// Two read requests carry the same values.
pub open spec fn request_like(a: ReadRequest, b: ReadRequest) -> bool {
    &&& a.blob_hash.bytes@ == b.blob_hash.bytes@
    &&& a.offset == b.offset
    &&& a.callback_addr.bytes@ == b.callback_addr.bytes@
    &&& a.callback_method == b.callback_method
}

impl ReadRequest {
    /// Copies the request.
    pub fn dup(&self) -> (r: Self)
        ensures
            request_like(r, *self),
    {
        ReadRequest {
            blob_hash: self.blob_hash.dup(),
            offset: self.offset,
            callback_addr: self.callback_addr.dup(),
            callback_method: self.callback_method,
        }
    }
}

} // verus!
