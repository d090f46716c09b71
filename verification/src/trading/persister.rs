use std::path::PathBuf;
use vstd::prelude::*;

verus! {

/// The standard library's owned file path, carried through unchanged.
#[verifier::external_type_specification]
#[verifier::external_body]
pub struct ExPathBuf(PathBuf);

/// Where the event log and the snapshot of an engine are kept.
#[derive(Debug)]
pub struct Persister {
    pub events_path: PathBuf,
    pub snapshot_path: PathBuf,
}

impl Persister {
    /// A persister for the two paths.
    pub fn new(events_path: PathBuf, snapshot_path: PathBuf) -> (p: Self)
        ensures
            p.events_path == events_path,
            p.snapshot_path == snapshot_path,
    {
        Persister { events_path, snapshot_path }
    }
}

} // verus!
