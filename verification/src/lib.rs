//! A quorum Bitcoin wallet core: a reorg-safe local view of the chain, a
//! keychain script index, a transaction graph with canonicalization and
//! balance accounting, a mergeable change set as the unit of persistence,
//! and coin selection / transaction construction on top of them.

use vstd::prelude::*;

pub mod call;
pub mod chain;
pub mod command;
pub mod db;
pub mod changeset;
pub mod graph;
pub mod keychain;
pub mod select;
pub mod trusted;
pub mod types;
pub mod wallet;

verus! {

/// Top-level error for coordinator-level operations.
#[derive(Clone, Debug)]
pub enum Error {
    /// A coordinator-level failure, described by a message.
    Coordinator(String),
}

impl Error {
    /// The failure rendered as text.
    pub fn message(&self) -> (r: &String)
        ensures
            self matches Error::Coordinator(m) ==> *r == m,
    {
        match self {
            Error::Coordinator(m) => m,
        }
    }
}

} // verus!
