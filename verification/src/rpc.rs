//! Plain data for the transaction-submission client that drives the
//! engine from outside: the broadcast-mode markers and the arguments of
//! the subnet RPC lookup command.  The asynchronous client itself lives
//! with the host plumbing; only its data shapes are kept here.

use vstd::prelude::*;

verus! {

/// Marker: return as soon as the transaction is broadcast, without
/// waiting for check results.
pub struct TxAsync;

/// Marker: wait for the check results before returning from broadcast.
pub struct TxSync;

/// Marker: wait for the delivery results before returning from broadcast.
pub struct TxCommit;

/// The command that looks up the RPC endpoint of a subnet.
pub struct RPCSubnet;

/// The arguments of the subnet RPC lookup command.
pub struct RPCSubnetArgs {
    /// The JSON-RPC server address of the agent, if not the default.
    pub ipc_agent_url: Option<String>,
    /// The subnet to look up.
    pub subnet: String,
}

} // verus!
