//! The data carried by the command surface: the vault path and the chosen
//! operation. Parsing the process arguments into these values is left to the
//! surrounding binary.
use vstd::prelude::*;

verus! {

/// The parsed invocation: where the vault file lives and what to do with it.
pub struct Args {
    /// Path of the vault file.
    pub store_path: String,
    /// The operation to perform.
    pub command: Commands,
}

/// The four operations of the command surface.
pub enum Commands {
    /// Open a store and list its entries, or print one entry by name.
    Open { entry_name: Option<String> },
    /// Create a new, empty store.
    Create { store_name: Option<String> },
    /// Add an entry to an existing store.
    Add { entry_name: Option<String> },
    /// Remove an entry from an existing store.
    Remove { entry_name: Option<String> },
}

} // verus!
