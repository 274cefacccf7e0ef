//! Rows of the small relational store the application loads accounts and
//! quorum participants from.

use vstd::prelude::*;

verus! {

/// Represents a row in table 'account'.
#[derive(Clone, Debug)]
pub struct Account {
    /// Row id.
    pub id: u32,
    /// Network name.
    pub network: String,
    /// Account nickname.
    pub nick: String,
    /// Descriptor string.
    pub descriptor: String,
}

/// Represents a row in table 'friend'.
#[derive(Clone, Debug)]
pub struct Friend {
    /// The owning account.
    pub account_id: u32,
    /// The participant's quorum id.
    pub quorum_id: u32,
    /// The participant's public key, encoded.
    pub npub: String,
    /// The participant's alias.
    pub alias: Option<String>,
}

} // verus!
