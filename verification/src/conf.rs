//! Runtime configuration: the two watched directories, which role this
//! peer plays, and the peer identifier for the RPC channel. Loading it
//! from disk is the surrounding program's concern; the core only
//! carries the plain values.
use vstd::prelude::*;

verus! {

/// The configuration both peers run under.
pub struct Conf {
    /// Directory holding the reader's state files.
    pub state_dir: String,
    /// Directory holding the documents.
    pub book_dir: String,
    /// Which role this process plays on the channel.
    pub model: String,
    /// The peer the client connects to.
    pub target_vm: String,
}

impl Conf {
    /// Bundles the four configuration values.
    pub fn new(state_dir: String, book_dir: String, model: String, target_vm: String) -> (r: Conf)
        ensures
            r.state_dir@ == state_dir@,
            r.book_dir@ == book_dir@,
            r.model@ == model@,
            r.target_vm@ == target_vm@,
    {
        Conf { state_dir, book_dir, model, target_vm }
    }
}

} // verus!
