//! The command-line surface of the store's client.
//!
//! Three subcommands — write a key, read a key, delete a key — parsed
//! by the caller from the process arguments and turned here into the
//! request the wire protocol carries.

use crate::protocol::Request;
use vstd::prelude::*;

verus! {

/// The parsed command line.
#[derive(Debug, Clone, PartialEq, Eq)]
pub struct KvStoreOpt {
    /// The subcommand given.
    pub sub_command: KvStoreSubCommand,
}

/// One of the client's three subcommands.
#[derive(Debug, Clone, PartialEq, Eq)]
pub enum KvStoreSubCommand {
    /// Set the value at the given key; an existing value is updated.
    Put {
        /// The key.
        key: String,
        /// The value to be set.
        value: String,
    },
    /// Get the value at the given key.
    Get {
        /// The key.
        key: String,
    },
    /// Remove the value at the given key.
    Rm {
        /// The key.
        key: String,
    },
}

impl KvStoreSubCommand {
    /// The key the subcommand works on.
    pub fn key(&self) -> (r: &String)
        ensures
            r@ == self.spec_key(),
    {
        match self {
            Self::Put { key, value: _ } => key,
            Self::Get { key } => key,
            Self::Rm { key } => key,
        }
    }

    /// The key, for use in contracts.
    pub open spec fn spec_key(&self) -> Seq<char> {
        match self {
            Self::Put { key, value } => key@,
            Self::Get { key } => key@,
            Self::Rm { key } => key@,
        }
    }

    /// The request this subcommand sends over the wire.
    pub fn to_request(self) -> (r: Request)
        ensures
            match self {
                Self::Put { key, value } => r == (Request::Put { key, value }),
                Self::Get { key } => r == (Request::Get { key }),
                Self::Rm { key } => r == (Request::Remove { key }),
            },
    {
        match self {
            Self::Put { key, value } => Request::Put { key, value },
            Self::Get { key } => Request::Get { key },
            Self::Rm { key } => Request::Remove { key },
        }
    }
}

} // verus!
