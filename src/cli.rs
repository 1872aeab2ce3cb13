//! The arguments of the demo client, as plain values.

use vstd::prelude::*;

verus! {

/// What the demo client is asked to do.
pub enum Command {
    /// Create the multi-token resources of the account.
    InitMultiToken,
    /// Register the account as a user.
    RegisterUser,
    /// Mint a BARS token.
    MintBarsNft,
    /// Create a parent VASP account.
    CreateAccount { new_account_address: String, new_auth_key_prefix: String },
    /// Transfer a BARS token.
    TransferBarsNft { address_from: String, address_to: String },
}

/// The arguments of the demo client.
pub struct TroveHackathonDemo {
    pub account_key_path: String,
    pub account_address: String,
    pub jsonrpc_endpoint: String,
    pub cmd: Command,
}

} // verus!
