use vstd::prelude::*;

verus! {

/// Why a directory could not be put under watch.
#[derive(Debug)]
pub enum WatcherError {
    /// The platform refused another watched directory.
    DirLimitReached,
    /// Any other failure of the platform watcher.
    Unknown,
}

/// One filesystem change, reported as the path that needs a rescan.
#[derive(Debug)]
pub struct FileEvent {
    /// Native path text of the directory whose contents changed.
    pub updated_path: String,
}

/// A source of filesystem-change events.
///
/// An implementation registers directories as the scanner visits them and
/// hands back coalesced events; a scanner without a watcher still works, it
/// just relies on explicit rescans.
pub trait Watcher {
    /// Puts a directory under watch; registering one twice is harmless.
    fn add_dir(&mut self, path: String) -> Result<(), WatcherError>;

    /// Drains the events gathered since the last call.
    fn read_events(&mut self) -> Vec<FileEvent>;
}

} // verus!
