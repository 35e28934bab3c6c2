//! Watching the notes directory: what the watcher checks before it starts,
//! and what it does when the directory changes. The watching itself is the
//! caller's.

use std::path::PathBuf;
use vstd::prelude::*;

verus! {

/// How long the watcher waits for a burst of changes to end, in
/// milliseconds, before it reports one change.
pub const DEBOUNCE_MILLIS: u64 = 400;

/// Why the watcher could not start.
#[derive(Debug)]
pub enum WatchError {
    /// The root to watch is not a directory.
    NotADirectory(PathBuf),
    /// The root could not be resolved.
    Canonicalize(std::io::Error),
    /// The watcher could not be set up; the message says why.
    Notify(String),
    /// The directory could not be watched; the message says why.
    Watch(String),
}

/// What to do when the watcher reports.
#[derive(Debug)]
pub enum WatchAction {
    /// Scan the directory again and hand the outcome to the caller.
    Rescan,
    /// Report the watcher's own failure; the message says what it was.
    Report(String),
}

/// Decides whether `root` can be watched: it has to be a directory.
pub fn watch_root(root: PathBuf, is_dir: bool) -> (watched: Result<PathBuf, WatchError>)
    ensures
        watched == if is_dir {
            Ok::<PathBuf, WatchError>(root)
        } else {
            Err::<PathBuf, WatchError>(WatchError::NotADirectory(root))
        },
{
    if is_dir {
        Ok(root)
    } else {
        Err(WatchError::NotADirectory(root))
    }
}

/// Decides which directory is watched, from what resolving the root gave:
/// the resolved path, or the failure to resolve it.
pub fn resolved_root(resolved: Result<PathBuf, std::io::Error>) -> (watched: Result<
    PathBuf,
    WatchError,
>)
    ensures
        watched == match resolved {
            Ok(path) => Ok::<PathBuf, WatchError>(path),
            Err(error) => Err::<PathBuf, WatchError>(WatchError::Canonicalize(error)),
        },
{
    match resolved {
        Ok(path) => Ok(path),
        Err(error) => Err(WatchError::Canonicalize(error)),
    }
}

/// Decides what follows a report of the watcher: a change in the directory
/// asks for a new scan; a failure of the watcher is reported and nothing
/// else happens.
pub fn on_watch_event(event: Result<(), String>) -> (action: WatchAction)
    ensures
        action == match event {
            Ok(_) => WatchAction::Rescan,
            Err(message) => WatchAction::Report(message),
        },
{
    match event {
        Ok(_) => WatchAction::Rescan,
        Err(message) => WatchAction::Report(message),
    }
}

} // verus!
