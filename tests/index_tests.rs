use fs_index::index::{FileState, IndexedResource, ResourceIndex, ScannedFile};
use fs_index::{ArklibError, ResourceId};

const ROOT: &str = "/data/root";
const MS: u128 = 1_000_000;

fn id_of(content: &str) -> fs_index::resource_id::Hash {
    ResourceId::from_bytes(content.as_bytes()).expect("hashing never fails")
}

fn file(rel: &str, content: &str, mtime: u128) -> ScannedFile {
    ScannedFile {
        path: format!("{}/{}", ROOT, rel),
        size: content.len() as u64,
        last_modified: mtime,
        id: id_of(content),
    }
}

fn build(files: Vec<ScannedFile>) -> ResourceIndex {
    ResourceIndex::build(ROOT.to_string(), files)
}

fn present(content: &str, mtime: u128) -> FileState {
    if content.is_empty() {
        FileState::Empty
    } else {
        FileState::File {
            last_modified: mtime,
            id: id_of(content),
        }
    }
}

fn sorted_paths(resources: &[IndexedResource]) -> Vec<String> {
    let mut v: Vec<String> = resources.iter().map(|r| r.path().to_string()).collect();
    v.sort();
    v
}

#[test]
fn hash_to_string() {
    let hash = fs_index::resource_id::Hash::new(vec![0, 1, 2, 3, 4, 5, 6, 7, 8, 9]);
    let hash_str = hash.to_hex_string();
    assert_eq!(hash_str, "00010203040506070809");

    let hash = <fs_index::resource_id::Hash as std::str::FromStr>::from_str(&hash_str)
        .expect("Failed to parse hash");
    assert_eq!(hash, fs_index::resource_id::Hash::new(vec![0, 1, 2, 3, 4, 5, 6, 7, 8, 9]));
}

#[test]
fn hex_parse_rejects_odd_length_and_bad_digits() {
    assert!(matches!(
        fs_index::resource_id::Hash::from_hex("abc"),
        Err(ArklibError::Parse)
    ));
    assert!(matches!(
        fs_index::resource_id::Hash::from_hex("zz"),
        Err(ArklibError::Parse)
    ));
    assert!(matches!(
        fs_index::resource_id::Hash::from_hex("+f"),
        Err(ArklibError::Parse)
    ));
    let h = fs_index::resource_id::Hash::from_hex("FFa0").expect("upper and lower case digits");
    assert_eq!(h.as_bytes(), &vec![255u8, 160]);
    assert_eq!(h.to_hex_string(), "ffa0");
    let empty = fs_index::resource_id::Hash::from_hex("").expect("empty text");
    assert_eq!(empty.as_bytes().len(), 0);
}

#[test]
fn blake3_of_known_inputs() {
    let empty = ResourceId::from_bytes(b"").unwrap();
    assert_eq!(
        empty.to_hex_string(),
        "af1349b9f5f9a1a6a0404dea36dcc9499bcb25c9adc112b7cc9a93cae41f3262"
    );
    let h = ResourceId::from_bytes(b"file content").unwrap();
    assert_eq!(h.as_bytes().len(), 32);
    assert_ne!(h, id_of("image content"));
    assert_eq!(h, id_of("file content"));
}

#[test]
fn build_index_with_file() {
    let index = build(vec![file("file.txt", "file content", 10 * MS)]);
    assert_eq!(index.len(), 1);
    assert!(!index.is_empty());
    assert_eq!(index.root(), ROOT);
    let r = index.get_resource_by_path("file.txt").expect("indexed");
    assert_eq!(r.id(), &id_of("file content"));
    assert_eq!(r.path(), "file.txt");
    assert_eq!(r.last_modified(), 10 * MS);
    assert!(index.get_resource_by_path("missing.txt").is_none());
}

#[test]
fn build_index_with_collisions() {
    let index = build(vec![
        file("file.txt", "file content", MS),
        file("file2.txt", "file content", MS),
        file("file3.txt", "file content", MS),
        file("file4.txt", "file content", MS),
    ]);
    assert_eq!(index.len(), 4);
    let collisions = index.collisions();
    assert_eq!(collisions.len(), 1);
    assert_eq!(collisions[0].0, id_of("file content"));
    assert_eq!(collisions[0].1.len(), 4);
    assert_eq!(index.num_collisions(), 4);
    let by_id = index
        .get_resources_by_id(&id_of("file content"))
        .expect("id is known");
    assert_eq!(
        sorted_paths(&by_id),
        vec!["file.txt", "file2.txt", "file3.txt", "file4.txt"]
    );
    assert!(index.get_resources_by_id(&id_of("other")).is_none());
}

#[test]
fn resource_index_update() {
    let mut index = build(vec![
        file("file.txt", "file content", 10 * MS),
        file("image.png", "image content", 10 * MS),
    ]);
    assert_eq!(index.len(), 2);
    let update = index.update_all(vec![
        file("file.txt", "updated file content", 20 * MS),
        file("new_file.txt", "new file content", 20 * MS),
    ]);
    assert_eq!(index.len(), 2);
    assert!(index.get_resource_by_path("image.png").is_none());
    let r = index.get_resource_by_path("file.txt").expect("still indexed");
    assert_eq!(r.id(), &id_of("updated file content"));
    assert_eq!(r.last_modified(), 20 * MS);
    let n = index.get_resource_by_path("new_file.txt").expect("added");
    assert_eq!(n.id(), &id_of("new file content"));
    assert_eq!(sorted_paths(update.added()), vec!["file.txt", "new_file.txt"]);
    assert_eq!(sorted_paths(update.removed()), vec!["image.png"]);
    assert_eq!(update.removed()[0].id(), &id_of("image content"));
    assert!(index.get_resources_by_id(&id_of("image content")).is_none());
    assert!(index.get_resources_by_id(&id_of("file content")).is_none());
}

#[test]
fn hidden_files() {
    let index = build(vec![file(".hidden_file.txt", "file content", MS)]);
    assert_eq!(index.len(), 0);
    assert!(index.is_empty());
}

#[test]
fn hidden_names_and_directories_are_excluded() {
    let index = build(vec![
        file(".secret", "s", MS),
        file(".hidden/inner.txt", "x", MS),
        file("dir/.hidden/deep.txt", "y", MS),
        file("dir/visible.txt", "z", MS),
        file(".ark/index", "{}", MS),
    ]);
    assert_eq!(index.len(), 1);
    assert!(index.get_resource_by_path("dir/visible.txt").is_some());
}

#[test]
fn build_skips_empty_files_and_outside_paths() {
    let mut outside = file("a.txt", "abc", MS);
    outside.path = "/elsewhere/a.txt".to_string();
    let mut sibling = file("b.txt", "abc", MS);
    sibling.path = "/data/rootx/b.txt".to_string();
    let index = build(vec![file("empty.txt", "", MS), outside, sibling]);
    assert_eq!(index.len(), 0);
}

#[test]
fn num_collisions_after_update() {
    let mut index = build(vec![file("file.txt", "file content", MS)]);
    assert_eq!(index.len(), 1);
    index.update_all(vec![
        file("file.txt", "file content", MS),
        file("file2.txt", "file content", 2 * MS),
        file("file3.txt", "file content", 2 * MS),
    ]);
    assert_eq!(index.len(), 3);
    assert_eq!(index.num_collisions(), 3);
}

#[test]
fn update_on_unchanged_files_is_idempotent() {
    let files = || {
        vec![
            file("a.txt", "a", MS),
            file("b/c.txt", "c", 2 * MS),
        ]
    };
    let mut index = build(files());
    let before = index.resources();
    let update = index.update_all(files());
    assert!(update.added().is_empty());
    assert!(update.removed().is_empty());
    let after = index.resources();
    assert_eq!(sorted_paths(&before), sorted_paths(&after));
    for r in &before {
        let now = index.get_resource_by_path(r.path()).unwrap();
        assert_eq!(&now, r);
    }
}

#[test]
fn update_ignores_small_time_changes() {
    let mut index = build(vec![file("a.txt", "a", 10 * MS)]);
    let update = index.update_all(vec![file("a.txt", "changed", 10 * MS + MS - 1)]);
    assert!(update.added().is_empty());
    assert_eq!(index.get_resource_by_path("a.txt").unwrap().id(), &id_of("a"));
    let update = index.update_all(vec![file("a.txt", "changed", 10 * MS + MS)]);
    assert_eq!(update.added().len(), 1);
    assert_eq!(
        index.get_resource_by_path("a.txt").unwrap().id(),
        &id_of("changed")
    );
    let update = index.update_all(vec![file("a.txt", "older", MS)]);
    assert!(update.added().is_empty());
    assert_eq!(
        index.get_resource_by_path("a.txt").unwrap().id(),
        &id_of("changed")
    );
}

#[test]
fn track_addition_then_removal_is_identity() {
    let mut index = build(vec![file("a.txt", "a", MS), file("b.txt", "a", MS)]);
    let before = index.resources();
    let added = index
        .track_addition("c.txt", present("a", 5 * MS))
        .expect("added");
    assert_eq!(added.path(), "c.txt");
    assert_eq!(added.id(), &id_of("a"));
    assert_eq!(index.len(), 3);
    assert_eq!(index.num_collisions(), 3);
    assert!(matches!(
        index.track_removal("c.txt", FileState::Missing),
        Ok(())
    ));
    assert_eq!(sorted_paths(&index.resources()), sorted_paths(&before));
    assert_eq!(index.num_collisions(), 2);
    assert_eq!(index.get_resources_by_id(&id_of("a")).unwrap().len(), 2);
}

#[test]
fn track_addition_errors() {
    let mut index = build(vec![file("a.txt", "a", MS)]);
    assert!(matches!(
        index.track_addition("empty.txt", present("", MS)),
        Err(ArklibError::Empty)
    ));
    assert!(matches!(
        index.track_addition("gone.txt", FileState::Missing),
        Err(ArklibError::NotFound)
    ));
    assert!(matches!(
        index.track_addition("dir", FileState::NotAFile),
        Err(ArklibError::NotFound)
    ));
    assert!(matches!(
        index.track_addition("a.txt", present("a", MS)),
        Err(ArklibError::AlreadyIndexed)
    ));
    assert!(matches!(
        index.track_addition(".secret", present("s", MS)),
        Err(ArklibError::Path(_))
    ));
    assert!(matches!(
        index.track_addition("/abs.txt", present("s", MS)),
        Err(ArklibError::Path(_))
    ));
    assert!(matches!(
        index.track_addition("../up.txt", present("s", MS)),
        Err(ArklibError::Path(_))
    ));
    assert_eq!(index.len(), 1);
}

#[test]
fn track_removal_errors() {
    let mut index = build(vec![file("a.txt", "a", MS)]);
    assert!(matches!(
        index.track_removal("a.txt", present("a", MS)),
        Err(ArklibError::StillExists)
    ));
    assert!(matches!(
        index.track_removal("never.txt", FileState::Missing),
        Err(ArklibError::NotIndexed)
    ));
    assert_eq!(index.len(), 1);
}

#[test]
fn track_modification_is_authoritative() {
    let mut index = build(vec![file("file.txt", "file content", 10 * MS)]);
    let r = index
        .track_modification("file.txt", present("new content", 10 * MS + 1))
        .expect("modified");
    assert_eq!(r.last_modified(), 10 * MS + 1);
    let now = index.get_resource_by_path("file.txt").unwrap();
    assert_eq!(now.last_modified(), 10 * MS + 1);
    assert_eq!(now.id(), &id_of("new content"));
    assert!(index.get_resources_by_id(&id_of("file content")).is_none());
    assert!(matches!(
        index.track_modification("other.txt", present("x", MS)),
        Err(ArklibError::NotIndexed)
    ));
    assert!(matches!(
        index.track_modification("file.txt", FileState::Missing),
        Err(ArklibError::NotFound)
    ));
    assert!(matches!(
        index.track_modification("file.txt", present("", MS)),
        Err(ArklibError::Empty)
    ));
}

#[test]
fn store_and_load_round_trip() {
    let index = build(vec![
        file("a.txt", "same", MS),
        file("b/c.txt", "same", 2 * MS),
        file("d.txt", "other", 3 * MS),
    ]);
    let stored = index.resources();
    let loaded =
        ResourceIndex::from_resources(index.root().to_string(), stored.clone()).expect("valid");
    assert_eq!(loaded.len(), index.len());
    assert_eq!(loaded.root(), index.root());
    for r in &stored {
        assert_eq!(loaded.get_resource_by_path(r.path()).as_ref(), Some(r));
    }
    assert_eq!(loaded.num_collisions(), 2);
}

#[test]
fn load_rejects_inconsistent_listing() {
    let dup = vec![
        IndexedResource::new(id_of("a"), "a.txt".to_string(), MS),
        IndexedResource::new(id_of("b"), "a.txt".to_string(), MS),
    ];
    assert!(matches!(
        ResourceIndex::from_resources(ROOT.to_string(), dup),
        Err(ArklibError::Parse)
    ));
    let hidden = vec![IndexedResource::new(id_of("a"), ".a".to_string(), MS)];
    assert!(matches!(
        ResourceIndex::from_resources(ROOT.to_string(), hidden),
        Err(ArklibError::Parse)
    ));
}

#[test]
fn resources_count_matches_ids() {
    let index = build(vec![
        file("a.txt", "x", MS),
        file("b.txt", "x", MS),
        file("c.txt", "y", MS),
    ]);
    let resources = index.resources();
    assert_eq!(resources.len(), index.len());
    for (id, paths) in index.paths_by_id() {
        let n = resources.iter().filter(|r| r.id() == &id).count();
        assert_eq!(paths.len(), n);
    }
    assert_eq!(index.paths_by_id().len(), 2);
}
