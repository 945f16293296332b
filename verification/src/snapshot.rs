use vstd::prelude::*;

verus! {

/// Bounds on a snapshot projection: how deep it descends and the smallest
/// entry it keeps.
#[derive(Clone, Debug)]
pub struct SnapshotConfig {
    /// How many levels below the snapshot root are materialized; zero keeps
    /// the root alone.
    pub max_depth: usize,
    /// Entries smaller than this many bytes are left out.
    pub min_size: u64,
}

impl Default for SnapshotConfig {
    /// Three levels deep, no size filter.
    fn default() -> (r: Self)
        ensures
            r.max_depth == 3,
            r.min_size == 0,
    {
        SnapshotConfig { max_depth: 3, min_size: 0 }
    }
}

} // verus!
