//! The command surface: a store path and one of four subcommands, as plain
//! data. Parsing the process arguments into these types and dispatching on
//! them belong to the surrounding program.

use vstd::prelude::*;

verus! {

/// One invocation: the path of the store file and the command to run on it.
#[derive(Debug)]
pub struct Cli {
    pub file: String,
    pub command: Commands,
}

/// The four operations the command line offers.
#[derive(Debug)]
pub enum Commands {
    /// Retrieves the value at `key` from the store
    Get(KArgs),
    /// Adds a key-value pair to the store
    Insert(KVArgs),
    /// Removes a key-value pair from store
    Delete(KArgs),
    /// Replaces an old value with a new one
    Update(KVArgs),
}

/// The argument of a command that names only a key.
#[derive(Debug)]
pub struct KArgs {
    pub key: String,
}

/// The arguments of a command that names a key and a value.
#[derive(Debug)]
pub struct KVArgs {
    pub key: String,
    pub value: String,
}

} // verus!
