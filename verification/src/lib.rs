use vstd::prelude::*;

mod arena;
mod entry;
mod path;
mod scanq;
mod snapshot;
mod tree;
mod watcher;

pub use arena::{Arena, Id};
pub use entry::DirEntry;
pub use path::{EntryPath, PathCrc};
pub use scanq::ScanTask;
pub use snapshot::SnapshotConfig;
pub use tree::{FileTree, Stats};
pub use watcher::{FileEvent, Watcher, WatcherError};

verus! {

} // verus!
