use vstd::prelude::*;

use crate::error::ArklibError;
use crate::index::IndexUpdate;
use crate::paths::{
    ARK_FOLDER, below, indexable_path, is_indexable, is_within, relative_path, same_text,
    strictly_under, within,
};

verus! {

/// The arguments of the watch command: the directory to watch.
pub struct Watch {
    pub path: String,
}

/// The kinds of file-system notification that the watcher tells apart.
pub enum EventKind {
    /// The data of a file changed.
    DataModified,
    /// A file was renamed, and this is its old name.
    RenamedFrom,
    /// A file was renamed, and this is its new name.
    RenamedTo,
    /// A file was renamed, with both names or neither known.
    Renamed,
    /// A file was created.
    FileCreated,
    /// A file was removed.
    FileRemoved,
    /// Anything else: access, metadata, directories.
    Other,
}

/// What the watcher does about one notification.
pub enum WatchAction {
    /// Nothing.
    Ignore,
    /// Rescan the whole root.
    UpdateAll,
    /// Track the file that appeared at this relative path.
    TrackAddition(String),
    /// Track the file that disappeared from this relative path.
    TrackRemoval(String),
    /// Track the file that changed at this relative path.
    TrackModification(String),
}

/// What the watcher reports after a mutation, in the order applied.
pub enum WatchEvent {
    /// One path was brought up to date.
    UpdatedOne(String),
    /// The whole root was rescanned.
    UpdatedAll(IndexUpdate),
}

/// The phases of the watcher.
#[derive(Debug, Clone, Copy, PartialEq, Eq)]
pub enum WatchState {
    /// Building and storing the first index.
    Starting,
    /// Taking notifications.
    Running,
    /// The channel closed or a fatal error came; nothing more is taken.
    Terminating,
}

/// What moves the watcher from one phase to the next.
#[derive(Debug, Clone, Copy, PartialEq, Eq)]
pub enum WatchSignal {
    /// The first index was stored.
    InitialStored,
    /// A notification was handled.
    Handled,
    /// The caller closed the channel.
    ChannelClosed,
    /// An error that ends the watch.
    Fatal,
}

/// Whether `p` lies in the metadata directory under `root`.
pub open spec fn in_ark(root: Seq<char>, p: Seq<char>) -> bool {
    strictly_under(root, p) && within(ARK_FOLDER@, below(root, p))
}

/// Whether there are paths and every one lies in the metadata directory.
pub open spec fn all_in_ark(root: Seq<char>, paths: Seq<String>) -> bool {
    paths.len() > 0 && forall|i: int| 0 <= i < paths.len() ==> in_ark(root, #[trigger] paths[i]@)
}

/// Whether `p` lies in the metadata directory under `root`.
pub fn is_in_ark(root: &str, p: &str) -> (r: bool)
    ensures
        r == in_ark(root@, p@),
{
    match relative_path(root, p) {
        Some(rel) => is_within(ARK_FOLDER, rel.as_str()),
        None => false,
    }
}

/// Decides what to do about a notification of `kind` on `paths` (absolute)
/// under the watched `root`. Notifications that only touch the metadata
/// directory, and kinds other than data changes, renames, creations and
/// removals, are ignored. A rescan request or a rename without a side
/// rescans the root; otherwise the first path, made relative, is tracked
/// according to the kind, and a path the index may not hold is ignored.
pub fn plan_event(root: &str, kind: EventKind, paths: &Vec<String>, need_rescan: bool) -> (r:
    WatchAction)
    ensures
        all_in_ark(root@, paths@) ==> r is Ignore,
        !all_in_ark(root@, paths@) && kind is Other ==> r is Ignore,
        !all_in_ark(root@, paths@) && !(kind is Other) && (need_rescan || paths@.len() == 0 || kind is Renamed)
            ==> r is UpdateAll,
        !all_in_ark(root@, paths@) && !(kind is Other) && !need_rescan && paths@.len() > 0 && !(kind is Renamed) ==> {
            let p = paths@[0]@;
            if !strictly_under(root@, p) || !indexable_path(below(root@, p)) {
                r is Ignore
            } else {
                match kind {
                    EventKind::FileCreated => r matches WatchAction::TrackAddition(s) && s@ == below(root@, p),
                    EventKind::RenamedTo => r matches WatchAction::TrackAddition(s) && s@ == below(root@, p),
                    EventKind::FileRemoved => r matches WatchAction::TrackRemoval(s) && s@ == below(root@, p),
                    EventKind::RenamedFrom => r matches WatchAction::TrackRemoval(s) && s@ == below(root@, p),
                    _ => r matches WatchAction::TrackModification(s) && s@ == below(root@, p),
                }
            }
        },
{
    let mut all = paths.len() > 0;
    let mut i: usize = 0;
    while i < paths.len()
        invariant
            0 <= i <= paths@.len(),
            all == (paths@.len() > 0 && forall|j: int| 0 <= j < i ==> in_ark(root@, #[trigger] paths@[j]@)),
        decreases paths@.len() - i,
    {
        if !is_in_ark(root, paths[i].as_str()) {
            all = false;
        }
        i = i + 1;
    }
    if all {
        return WatchAction::Ignore;
    }
    match kind {
        EventKind::Other => {
            return WatchAction::Ignore;
        },
        _ => {},
    }
    if need_rescan || paths.len() == 0 {
        return WatchAction::UpdateAll;
    }
    match kind {
        EventKind::Renamed => {
            return WatchAction::UpdateAll;
        },
        _ => {},
    }
    let rel = match relative_path(root, paths[0].as_str()) {
        Some(rel) => rel,
        None => {
            return WatchAction::Ignore;
        },
    };
    if !is_indexable(rel.as_str()) {
        return WatchAction::Ignore;
    }
    match kind {
        EventKind::FileCreated => WatchAction::TrackAddition(rel),
        EventKind::RenamedTo => WatchAction::TrackAddition(rel),
        EventKind::FileRemoved => WatchAction::TrackRemoval(rel),
        EventKind::RenamedFrom => WatchAction::TrackRemoval(rel),
        _ => WatchAction::TrackModification(rel),
    }
}

/// Whether an error ends the watch: only a file-system error on the root
/// itself does; any other is reported and the watch goes on.
pub fn is_fatal(root: &str, err: &ArklibError) -> (r: bool)
    ensures
        r == (err matches ArklibError::Io(p) && p@ == root@),
{
    match err {
        ArklibError::Io(p) => same_text(p.as_str(), root),
        _ => false,
    }
}

impl WatchState {
    /// The phase after a signal: the first store starts the watch, a close
    /// or a fatal error ends it from any phase, and nothing leaves the end.
    pub fn next(self, signal: WatchSignal) -> (r: WatchState)
        ensures
            self is Terminating ==> r is Terminating,
            !(self is Terminating) && (signal is ChannelClosed || signal is Fatal) ==> r is Terminating,
            self is Starting && signal is InitialStored ==> r is Running,
            self is Starting && signal is Handled ==> r is Starting,
            self is Running && (signal is InitialStored || signal is Handled) ==> r is Running,
    {
        match self {
            WatchState::Terminating => WatchState::Terminating,
            _ => match signal {
                WatchSignal::ChannelClosed => WatchState::Terminating,
                WatchSignal::Fatal => WatchState::Terminating,
                WatchSignal::InitialStored => WatchState::Running,
                WatchSignal::Handled => self,
            },
        }
    }
}

} // verus!
