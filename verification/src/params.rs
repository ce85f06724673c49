//! The parameter tuples of the engine's method surface, over the
//! library's own plain types; the host decodes call payloads into these
//! and hands them to the transitions.

use vstd::prelude::*;

use crate::types::BlobStatus;
use crate::types::{Address, BlobHash, PublicKey, SubscriptionId};

verus! {

/// Parameters for buying credit: the account to credit.
pub struct BuyCreditParams(pub Address);

/// Parameters for approving credit.
pub struct ApproveCreditParams {
    /// The account whose credit is delegated.
    pub from: Address,
    /// The account receiving the delegation.
    pub receiver: Address,
    /// An optional restriction to one caller contract.
    pub required_caller: Option<Address>,
    /// An optional spend limit.
    pub limit: Option<i128>,
    /// An optional time-to-live for the delegation, in epochs.
    pub ttl: Option<i64>,
}

/// Parameters for looking up a credit approval.
pub struct GetCreditApprovalParams {
    /// The account whose credit was delegated.
    pub from: Address,
    /// The account that received the delegation.
    pub receiver: Address,
    /// The caller contract the lookup is for.
    pub caller: Address,
}

/// Parameters for revoking credit.
pub struct RevokeCreditParams {
    /// The account whose credit was delegated.
    pub from: Address,
    /// The account that received the delegation.
    pub receiver: Address,
    /// The caller restriction of the entry to remove, if any.
    pub required_caller: Option<Address>,
}

/// Parameters for getting an account: its address.
pub struct GetAccountParams(pub Address);

/// Parameters for adding a blob.
pub struct AddBlobParams {
    /// An optional sponsor whose credit pays for the subscription.
    pub sponsor: Option<Address>,
    /// The resolver node asked to ingest the content.
    pub source: PublicKey,
    /// The blob's content digest.
    pub hash: BlobHash,
    /// The digest of the recovery metadata.
    pub metadata_hash: BlobHash,
    /// The identifier telling this subscription apart from the same
    /// subscriber's others on the same blob.
    pub id: SubscriptionId,
    /// The content size in bytes.
    pub size: u64,
    /// The time-to-live in epochs; absent means the minimum commitment.
    pub ttl: Option<i64>,
}

/// Parameters for getting a blob: its content digest.
pub struct GetBlobParams(pub BlobHash);

/// Parameters for getting a blob's status for one subscription.
pub struct GetBlobStatusParams {
    /// The subscriber whose subscription is consulted.
    pub subscriber: Address,
    /// The blob's content digest.
    pub hash: BlobHash,
    /// The subscription identifier.
    pub id: SubscriptionId,
}

/// Parameters for paging the added queue: the page size.
pub struct GetAddedBlobsParams(pub u32);

/// Parameters for paging the pending queue: the page size.
pub struct GetPendingBlobsParams(pub u32);

/// Parameters for handing one tuple to the resolver.
pub struct SetBlobPendingParams {
    /// The resolver node asked to ingest the content.
    pub source: PublicKey,
    /// The subscriber whose tuple moves.
    pub subscriber: Address,
    /// The blob's content digest.
    pub hash: BlobHash,
    /// The subscription identifier.
    pub id: SubscriptionId,
}

/// Parameters for recording the resolver's terminal verdict.
pub struct FinalizeBlobParams {
    /// The subscriber whose subscription the verdict is for.
    pub subscriber: Address,
    /// The blob's content digest.
    pub hash: BlobHash,
    /// The subscription identifier.
    pub id: SubscriptionId,
    /// The terminal status to record.
    pub status: BlobStatus,
}

/// Parameters for deleting a subscription.
pub struct DeleteBlobParams {
    /// An optional sponsor whose subscription is deleted.
    pub sponsor: Option<Address>,
    /// The blob's content digest.
    pub hash: BlobHash,
    /// The subscription identifier.
    pub id: SubscriptionId,
}

/// Parameters for reading a blob's bytes.
pub struct GetBlobBytesParams {
    /// The blob's content digest.
    pub hash: BlobHash,
    /// The offset to start reading at.
    pub offset: u32,
}

/// Parameters for opening a read request.
pub struct OpenReadRequestParams {
    /// The blob to read.
    pub hash: BlobHash,
    /// The offset to start reading at.
    pub offset: u32,
    /// The actor to call back when the read completes.
    pub callback_addr: Address,
    /// The method number to call back.
    pub callback_method: u64,
}

/// Parameters for checking whether a read request is open.
pub struct ReadRequestExistParams {
    /// The request identifier.
    pub request_id: BlobHash,
}

/// Parameters for closing a read request.
pub struct CloseReadRequestParams {
    /// The request identifier.
    pub request_id: BlobHash,
}

/// Parameters for paging the open read requests: the page size.
pub struct GetOpenReadRequestsParams(pub u32);

} // verus!
