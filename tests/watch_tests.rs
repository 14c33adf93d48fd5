use fs_index::paths::{is_indexable, is_within, relative_path, should_index};
use fs_index::watch::{is_fatal, plan_event, EventKind, WatchAction, WatchSignal, WatchState};
use fs_index::ArklibError;

const ROOT: &str = "/data/root";

fn paths(v: &[&str]) -> Vec<String> {
    v.iter().map(|s| s.to_string()).collect()
}

#[test]
fn should_index_skips_hidden_names() {
    assert!(!should_index(".secret"));
    assert!(!should_index(".hidden"));
    assert!(should_index("file.txt"));
    assert!(should_index("a.b"));
}

#[test]
fn indexable_paths() {
    assert!(is_indexable("file.txt"));
    assert!(is_indexable("dir/sub/file.txt"));
    assert!(!is_indexable(""));
    assert!(!is_indexable("/abs"));
    assert!(!is_indexable("dir/"));
    assert!(!is_indexable("a//b"));
    assert!(!is_indexable(".hidden/file.txt"));
    assert!(!is_indexable("dir/.hidden/file.txt"));
    assert!(!is_indexable("../x"));
}

#[test]
fn relative_paths_strip_the_root() {
    assert_eq!(
        relative_path(ROOT, "/data/root/a/b.txt").as_deref(),
        Some("a/b.txt")
    );
    assert_eq!(relative_path("/", "/a.txt").as_deref(), Some("a.txt"));
    assert_eq!(relative_path(ROOT, "/data/root"), None);
    assert_eq!(relative_path(ROOT, "/data/root/"), None);
    assert_eq!(relative_path(ROOT, "/data/rootx/a"), None);
    assert_eq!(relative_path(ROOT, "/other/a"), None);
    assert!(is_within(".ark", ".ark"));
    assert!(is_within(".ark", ".ark/index"));
    assert!(!is_within(".ark", ".arkive"));
}

#[test]
fn events_in_metadata_directory_are_ignored() {
    let a = plan_event(
        ROOT,
        EventKind::DataModified,
        &paths(&["/data/root/.ark/index"]),
        false,
    );
    assert!(matches!(a, WatchAction::Ignore));
    let b = plan_event(
        ROOT,
        EventKind::DataModified,
        &paths(&["/data/root/.ark/index", "/data/root/a.txt"]),
        false,
    );
    assert!(matches!(b, WatchAction::Ignore));
}

#[test]
fn events_map_to_track_operations() {
    let created = plan_event(ROOT, EventKind::FileCreated, &paths(&["/data/root/a.txt"]), false);
    assert!(matches!(created, WatchAction::TrackAddition(ref p) if p.as_str() == "a.txt"));
    let removed = plan_event(ROOT, EventKind::FileRemoved, &paths(&["/data/root/d/a.txt"]), false);
    assert!(matches!(removed, WatchAction::TrackRemoval(ref p) if p.as_str() == "d/a.txt"));
    let modified = plan_event(ROOT, EventKind::DataModified, &paths(&["/data/root/a.txt"]), false);
    assert!(matches!(modified, WatchAction::TrackModification(ref p) if p.as_str() == "a.txt"));
    let from = plan_event(ROOT, EventKind::RenamedFrom, &paths(&["/data/root/a.txt"]), false);
    assert!(matches!(from, WatchAction::TrackRemoval(ref p) if p.as_str() == "a.txt"));
    let to = plan_event(ROOT, EventKind::RenamedTo, &paths(&["/data/root/b.txt"]), false);
    assert!(matches!(to, WatchAction::TrackAddition(ref p) if p.as_str() == "b.txt"));
    let both = plan_event(
        ROOT,
        EventKind::Renamed,
        &paths(&["/data/root/a.txt", "/data/root/b.txt"]),
        false,
    );
    assert!(matches!(both, WatchAction::UpdateAll));
}

#[test]
fn irrelevant_and_rescan_events() {
    let other = plan_event(ROOT, EventKind::Other, &paths(&["/data/root/a.txt"]), false);
    assert!(matches!(other, WatchAction::Ignore));
    let rescan = plan_event(ROOT, EventKind::DataModified, &paths(&["/data/root/a.txt"]), true);
    assert!(matches!(rescan, WatchAction::UpdateAll));
    let no_paths = plan_event(ROOT, EventKind::FileCreated, &Vec::new(), false);
    assert!(matches!(no_paths, WatchAction::UpdateAll));
    let hidden = plan_event(ROOT, EventKind::FileCreated, &paths(&["/data/root/.secret"]), false);
    assert!(matches!(hidden, WatchAction::Ignore));
    let outside = plan_event(ROOT, EventKind::FileCreated, &paths(&["/tmp/a.txt"]), false);
    assert!(matches!(outside, WatchAction::Ignore));
}

#[test]
fn only_root_io_errors_are_fatal() {
    assert!(is_fatal(ROOT, &ArklibError::Io(ROOT.to_string())));
    assert!(!is_fatal(ROOT, &ArklibError::Io("/data/root/a.txt".to_string())));
    assert!(!is_fatal(ROOT, &ArklibError::NotIndexed));
    assert!(!is_fatal(ROOT, &ArklibError::Path(ROOT.to_string())));
}

#[test]
fn watcher_phases() {
    let s = WatchState::Starting;
    assert_eq!(s.next(WatchSignal::Handled), WatchState::Starting);
    let r = s.next(WatchSignal::InitialStored);
    assert_eq!(r, WatchState::Running);
    assert_eq!(r.next(WatchSignal::Handled), WatchState::Running);
    assert_eq!(r.next(WatchSignal::ChannelClosed), WatchState::Terminating);
    assert_eq!(s.next(WatchSignal::Fatal), WatchState::Terminating);
    assert_eq!(
        WatchState::Terminating.next(WatchSignal::InitialStored),
        WatchState::Terminating
    );
}
