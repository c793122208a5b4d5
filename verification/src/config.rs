//! Plain configuration and interchange records used by the embedding
//! program.

use vstd::prelude::*;

verus! {

/// Where the ledger is reached.
pub struct Config {
    pub chain_endpoint: String,
}

/// A plain listing of reference bindings, as exchanged with the
/// version-control client.
pub struct RefsFile {
    pub refs: Vec<(String, String)>,
}

} // verus!
