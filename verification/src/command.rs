//! The command model: the plain shapes of the operations a front end can
//! ask for. The embedding application parses its arguments into these.

use vstd::prelude::*;

verus! {

/// A recipient of a call, by id or by alias.
#[derive(Clone, Debug)]
pub struct Recipient {
    /// Participant id.
    pub id: Option<u32>,
    /// Recipient alias.
    pub alias: Option<String>,
}

/// Call operations.
#[derive(Clone, Debug)]
pub enum CallSubCmd {
    /// Construct a new private note.
    New(CallOpt),
    /// Push a plain text note.
    Push {
        /// Text.
        note: String,
    },
}

/// Options of a new call.
#[derive(Clone, Debug)]
pub struct CallOpt {
    /// Who receives the call.
    pub recipient: Recipient,
    /// Text.
    pub note: Option<String>,
    /// Affirmative.
    pub ack: bool,
    /// Negative.
    pub nack: bool,
    /// Preview a call without sending.
    pub dryrun: bool,
}

/// Descriptor operations.
#[derive(Clone, Debug)]
pub enum DescSubCmd {
    /// Import a descriptor into the chain source.
    Import {
        /// Descriptor string.
        desc: String,
        /// Time when the descriptor became active.
        timestamp: Option<u64>,
        /// Whether the descriptor is only for change.
        internal: bool,
    },
    /// Get descriptor info.
    Info {
        /// Descriptor string.
        desc: String,
    },
}

/// Database operations.
#[derive(Clone, Debug)]
pub enum DbSubCmd {
    /// Add a new quorum account.
    Account {
        /// Network name.
        network: String,
        /// Account nickname.
        nick: String,
        /// Descriptor string.
        descriptor: String,
    },
    /// Add a new participant to an existing quorum.
    Friend {
        /// Account id.
        account_id: u32,
        /// Quorum id.
        quorum_id: u32,
        /// The participant's public key, encoded.
        npub: String,
        /// Participant alias.
        alias: String,
    },
}

/// Key generation operations.
#[derive(Clone, Debug)]
pub enum GenerateSubCmd {
    /// Generate messaging keys.
    Nsec,
    /// Generate a random private key in wallet-import format.
    Wif {
        /// Whether the key is for test networks.
        test: bool,
    },
}

/// Address operations.
#[derive(Clone, Debug)]
pub enum AddressSubCmd {
    /// List addresses.
    List {
        /// Keychain to list addresses from.
        keychain: u8,
    },
    /// New address.
    New,
    /// Next unused address.
    Next,
    /// Peek at a given keychain index.
    Peek {
        /// Address index.
        index: u32,
        /// Keychain.
        keychain: u8,
    },
}

} // verus!
