use vstd::prelude::*;

use crate::error::ArklibError;
use crate::paths::{below, indexable_path, is_indexable, relative_path, same_text, strictly_under};

verus! {

/// What the index records for one path: the content id and the last
/// modification time.
pub type EntryModel = (Seq<u8>, u128);

/// The paths that carry each content id in a path-to-entry map. An id is
/// present exactly when some path carries it, so no id maps to an empty set.
pub open spec fn ids_of(bp: Map<Seq<char>, EntryModel>) -> Map<Seq<u8>, Set<Seq<char>>> {
    Map::new(
        |k: Seq<u8>| exists|p: Seq<char>| #[trigger] bp.contains_key(p) && bp[p].0 == k,
        |k: Seq<u8>| bp.dom().filter(|p: Seq<char>| bp[p].0 == k),
    )
}

/// Whether `rs` lists the resources of the map `m`: each once, with the
/// entry that `m` holds for its path, and nothing else.
pub open spec fn lists(rs: Seq<ResourceModel>, m: Map<Seq<char>, EntryModel>) -> bool {
    &&& forall|i: int, j: int| 0 <= i < j < rs.len() ==> rs[i].path != rs[j].path
    &&& forall|i: int|
        0 <= i < rs.len() ==> m.contains_key(#[trigger] rs[i].path) && m[rs[i].path] == (
        rs[i].id,
        rs[i].last_modified,
    )
    &&& forall|p: Seq<char>| #[trigger]
        m.contains_key(p) ==> exists|i: int| 0 <= i < rs.len() && rs[i].path == p
}

/// Whether a list of resources can make an index: paths distinct and all
/// of them indexable.
pub open spec fn listing_ok(ms: Seq<ResourceModel>) -> bool {
    &&& forall|i: int, j: int| 0 <= i < j < ms.len() ==> ms[i].path != ms[j].path
    &&& forall|i: int| 0 <= i < ms.len() ==> indexable_path(#[trigger] ms[i].path)
}

/// The path-to-entry map of a list of resources.
pub open spec fn resource_map(ms: Seq<ResourceModel>) -> Map<Seq<char>, EntryModel>
    decreases ms.len(),
{
    if ms.len() == 0 {
        Map::empty()
    } else {
        resource_map(ms.drop_last()).insert(ms.last().path, (ms.last().id, ms.last().last_modified))
    }
}

/// In a list with distinct paths, the map of the list holds exactly its
/// resources.
pub proof fn lemma_resource_map(ms: Seq<ResourceModel>)
    requires
        forall|i: int, j: int| 0 <= i < j < ms.len() ==> ms[i].path != ms[j].path,
    ensures
        forall|p: Seq<char>|
            #[trigger] resource_map(ms).contains_key(p) <==> exists|i: int|
                0 <= i < ms.len() && ms[i].path == p,
        forall|i: int|
            0 <= i < ms.len() ==> #[trigger] resource_map(ms)[ms[i].path] == (
                ms[i].id,
                ms[i].last_modified,
            ),
    decreases ms.len(),
{
    if ms.len() > 0 {
        let t = ms.drop_last();
        lemma_resource_map(t);
        let last = ms.last();
        assert forall|p: Seq<char>| #[trigger]
            resource_map(ms).contains_key(p) <==> exists|i: int| 0 <= i < ms.len() && ms[i].path == p by {
            if resource_map(t).contains_key(p) {
                let i = choose|i: int| 0 <= i < t.len() && t[i].path == p;
                assert(ms[i].path == p);
            }
            if exists|i: int| 0 <= i < ms.len() && ms[i].path == p {
                let i = choose|i: int| 0 <= i < ms.len() && ms[i].path == p;
                if i < ms.len() - 1 {
                    assert(t[i].path == p);
                }
            }
        }
        assert forall|i: int| 0 <= i < ms.len() implies #[trigger] resource_map(ms)[ms[i].path] == (
            ms[i].id,
            ms[i].last_modified,
        ) by {
            if i < ms.len() - 1 {
                assert(t[i] == ms[i]);
                assert(ms[i].path != last.path);
                assert(resource_map(t)[t[i].path] == (t[i].id, t[i].last_modified));
            } else {
                assert(ms[i] == last);
            }
        }
    }
}

/// The models of a sequence of resources.
pub open spec fn models(v: Seq<IndexedResource>) -> Seq<ResourceModel> {
    v.map_values(|r: IndexedResource| r@)
}

/// A file as the scanner saw it: its absolute path, size in bytes, last
/// modification time in nanoseconds since the Unix epoch, and content id.
pub struct ScannedFile {
    pub path: String,
    pub size: u64,
    pub last_modified: u128,
    pub id: crate::resource_id::Hash,
}

/// Whether a scanned file belongs in an index over `root`: it lies below the
/// root on an indexable path and is not empty.
pub open spec fn admits(root: Seq<char>, f: ScannedFile) -> bool {
    &&& strictly_under(root, f.path@)
    &&& indexable_path(below(root, f.path@))
    &&& f.size > 0
}

/// The path-to-entry map that a scan describes; a later sighting of a path
/// takes the place of an earlier one.
pub open spec fn snapshot(root: Seq<char>, files: Seq<ScannedFile>) -> Map<Seq<char>, EntryModel>
    decreases files.len(),
{
    if files.len() == 0 {
        Map::empty()
    } else {
        let f = files.last();
        let m = snapshot(root, files.drop_last());
        if admits(root, f) {
            m.insert(below(root, f.path@), (f.id@, f.last_modified))
        } else {
            m
        }
    }
}

/// The smallest advance of a modification time, in nanoseconds, that a
/// rescan counts as a modification (one millisecond).
pub const RESOURCE_UPDATED_THRESHOLD: u128 = 1_000_000;

/// Whether a modification time moved from `prev` to `cur` far enough to count
/// as a modification; a time that went back does not count.
pub open spec fn modified(prev: u128, cur: u128) -> bool {
    cur as int - prev as int >= RESOURCE_UPDATED_THRESHOLD as int
}

/// The index after a rescan: the scanned paths, each keeping its previous
/// entry unless it is new or was modified.
pub open spec fn refreshed(prev: Map<Seq<char>, EntryModel>, cur: Map<Seq<char>, EntryModel>) -> Map<
    Seq<char>,
    EntryModel,
> {
    Map::new(
        |p: Seq<char>| cur.contains_key(p),
        |p: Seq<char>|
            if prev.contains_key(p) && !modified(prev[p].1, cur[p].1) {
                prev[p]
            } else {
                cur[p]
            },
    )
}

/// The scanned resources that a rescan adds: new paths and modified ones.
pub open spec fn added_part(prev: Map<Seq<char>, EntryModel>, cur: Map<Seq<char>, EntryModel>) -> Map<
    Seq<char>,
    EntryModel,
> {
    Map::new(
        |p: Seq<char>| cur.contains_key(p) && (!prev.contains_key(p) || modified(prev[p].1, cur[p].1)),
        |p: Seq<char>| cur[p],
    )
}

/// The previous resources that a rescan removes: paths no longer seen.
pub open spec fn removed_part(prev: Map<Seq<char>, EntryModel>, cur: Map<Seq<char>, EntryModel>) -> Map<
    Seq<char>,
    EntryModel,
> {
    Map::new(|p: Seq<char>| prev.contains_key(p) && !cur.contains_key(p), |p: Seq<char>| prev[p])
}

/// Whether one of the first `n` resources of `ms` has path `p`.
pub open spec fn seen(ms: Seq<ResourceModel>, n: int, p: Seq<char>) -> bool {
    exists|j: int| 0 <= j < n && ms[j].path == p
}

/// What the file system shows at a path when a track operation runs.
pub enum FileState {
    /// Nothing is there.
    Missing,
    /// Something other than a regular file is there.
    NotAFile,
    /// A regular file of zero bytes is there.
    Empty,
    /// A non-empty regular file is there, with this modification time
    /// (nanoseconds since the Unix epoch) and content id.
    File { last_modified: u128, id: crate::resource_id::Hash },
}

/// What a rescan changed.
pub struct IndexUpdate {
    added: Vec<IndexedResource>,
    removed: Vec<IndexedResource>,
}

impl IndexUpdate {
    /// The models of the added resources.
    pub closed spec fn added_view(&self) -> Seq<ResourceModel> {
        models(self.added@)
    }

    /// The models of the removed resources.
    pub closed spec fn removed_view(&self) -> Seq<ResourceModel> {
        models(self.removed@)
    }

    /// The resources that were added, new or modified, as now observed.
    pub fn added(&self) -> (r: &Vec<IndexedResource>)
        ensures
            models(r@) == self.added_view(),
    {
        &self.added
    }

    /// The resources that were removed, as they were indexed.
    pub fn removed(&self) -> (r: &Vec<IndexedResource>)
        ensures
            models(r@) == self.removed_view(),
    {
        &self.removed
    }
}

/// A resource as the index reports it: its content id, its path relative to
/// the root, and its last modification time in nanoseconds since the Unix
/// epoch.
#[derive(Debug, Clone, PartialEq, Eq)]
pub struct IndexedResource {
    id: crate::resource_id::Hash,
    path: String,
    last_modified: u128,
}

/// The model of a resource: path, id and modification time.
pub struct ResourceModel {
    pub path: Seq<char>,
    pub id: Seq<u8>,
    pub last_modified: u128,
}

impl View for IndexedResource {
    type V = ResourceModel;

    closed spec fn view(&self) -> ResourceModel {
        ResourceModel { path: self.path@, id: self.id@, last_modified: self.last_modified }
    }
}

impl IndexedResource {
    /// A resource with the given id, relative path and modification time.
    pub fn new(id: crate::resource_id::Hash, path: String, last_modified: u128) -> (r: Self)
        ensures
            r@ == (ResourceModel { path: path@, id: id@, last_modified }),
    {
        IndexedResource { id, path, last_modified }
    }

    /// A copy of the resource.
    pub fn duplicate(&self) -> (r: Self)
        ensures
            r@ == self@,
    {
        IndexedResource {
            id: self.id.duplicate(),
            path: self.path.clone(),
            last_modified: self.last_modified,
        }
    }

    /// The content id.
    pub fn id(&self) -> (r: &crate::resource_id::Hash)
        ensures
            r@ == self@.id,
    {
        &self.id
    }

    /// The path relative to the root.
    pub fn path(&self) -> (r: &str)
        ensures
            r@ == self@.path,
    {
        self.path.as_str()
    }

    /// The last modification time, in nanoseconds since the Unix epoch.
    pub fn last_modified(&self) -> (r: u128)
        ensures
            r == self@.last_modified,
    {
        self.last_modified
    }
}

/// What the index stores under a path.
#[derive(Debug, Clone, PartialEq, Eq)]
pub struct IndexEntry {
    id: crate::resource_id::Hash,
    last_modified: u128,
}

impl View for IndexEntry {
    type V = EntryModel;

    closed spec fn view(&self) -> EntryModel {
        (self.id@, self.last_modified)
    }
}

impl IndexEntry {
    /// An entry with the given id and modification time.
    pub fn new(id: crate::resource_id::Hash, last_modified: u128) -> (r: Self)
        ensures
            r@ == (id@, last_modified),
    {
        IndexEntry { id, last_modified }
    }

    /// The content id.
    pub fn id(&self) -> (r: &crate::resource_id::Hash)
        ensures
            r@ == self@.0,
    {
        &self.id
    }

    /// The last modification time, in nanoseconds since the Unix epoch.
    pub fn last_modified(&self) -> (r: u128)
        ensures
            r == self@.1,
    {
        self.last_modified
    }
}

/// One row of the path-to-entry table.
struct PathEntry {
    path: String,
    entry: IndexEntry,
}

/// All paths that carry one content id.
struct IdGroup {
    id: crate::resource_id::Hash,
    paths: Vec<String>,
}

spec fn keys_unique(s: Seq<PathEntry>) -> bool {
    forall|i: int, j: int| 0 <= i < j < s.len() ==> s[i].path@ != s[j].path@
}

spec fn entries_map(s: Seq<PathEntry>) -> Map<Seq<char>, EntryModel>
    decreases s.len(),
{
    if s.len() == 0 {
        Map::empty()
    } else {
        entries_map(s.drop_last()).insert(s.last().path@, s.last().entry@)
    }
}

proof fn lemma_entries_map(s: Seq<PathEntry>)
    requires
        keys_unique(s),
    ensures
        forall|p: Seq<char>|
            #[trigger] entries_map(s).contains_key(p) <==> exists|i: int|
                0 <= i < s.len() && s[i].path@ == p,
        forall|i: int| 0 <= i < s.len() ==> #[trigger] entries_map(s)[s[i].path@] == s[i].entry@,
        entries_map(s).dom().finite(),
        entries_map(s).len() == s.len(),
    decreases s.len(),
{
    if s.len() > 0 {
        let t = s.drop_last();
        assert(keys_unique(t));
        lemma_entries_map(t);
        let last = s.last();
        assert forall|p: Seq<char>| #[trigger]
            entries_map(s).contains_key(p) <==> exists|i: int| 0 <= i < s.len() && s[i].path@ == p by {
            if entries_map(t).contains_key(p) {
                let i = choose|i: int| 0 <= i < t.len() && t[i].path@ == p;
                assert(s[i].path@ == p);
            }
            if exists|i: int| 0 <= i < s.len() && s[i].path@ == p {
                let i = choose|i: int| 0 <= i < s.len() && s[i].path@ == p;
                if i < s.len() - 1 {
                    assert(t[i].path@ == p);
                }
            }
        }
        assert forall|i: int| 0 <= i < s.len() implies #[trigger] entries_map(s)[s[i].path@]
            == s[i].entry@ by {
            if i < s.len() - 1 {
                assert(t[i] == s[i]);
                assert(s[i].path@ != last.path@);
            }
        }
        assert(!entries_map(t).contains_key(last.path@)) by {
            if entries_map(t).contains_key(last.path@) {
                let i = choose|i: int| 0 <= i < t.len() && t[i].path@ == last.path@;
                assert(s[i].path@ == s[s.len() - 1].path@);
            }
        }
    }
}

/// Whether one of the first `n` rows has path `p`.
spec fn seen_entry(s: Seq<PathEntry>, n: int, p: Seq<char>) -> bool {
    exists|j: int| 0 <= j < n && s[j].path@ == p
}

/// The set of the texts of a sequence of strings.
pub open spec fn path_set(v: Seq<String>) -> Set<Seq<char>> {
    Set::new(|q: Seq<char>| exists|j: int| 0 <= j < v.len() && v[j]@ == q)
}

/// The position of `p` in `v`, if it is there.
fn find_text(v: &Vec<String>, p: &str) -> (r: Option<usize>)
    ensures
        match r {
            Some(i) => i < v@.len() && v@[i as int]@ == p@,
            None => forall|j: int| 0 <= j < v@.len() ==> v@[j]@ != p@,
        },
{
    let mut i: usize = 0;
    while i < v.len()
        invariant
            0 <= i <= v@.len(),
            forall|j: int| 0 <= j < i ==> v@[j]@ != p@,
        decreases v@.len() - i,
    {
        if same_text(v[i].as_str(), p) {
            return Some(i);
        }
        i = i + 1;
    }
    None
}

proof fn lemma_path_set_len(v: Seq<String>)
    requires
        strings_unique(v),
    ensures
        path_set(v).finite(),
        path_set(v).len() == v.len(),
    decreases v.len(),
{
    if v.len() == 0 {
        assert(path_set(v) =~= Set::<Seq<char>>::empty());
    } else {
        let t = v.drop_last();
        assert(strings_unique(t));
        lemma_path_set_len(t);
        assert(path_set(v) =~= path_set(t).insert(v.last()@)) by {
            assert forall|q: Seq<char>| path_set(v).contains(q) implies path_set(t).insert(v.last()@).contains(q) by {
                let j = choose|j: int| 0 <= j < v.len() && v[j]@ == q;
                if j < v.len() - 1 {
                    assert(t[j]@ == q);
                }
            }
            assert forall|q: Seq<char>| path_set(t).contains(q) implies path_set(v).contains(q) by {
                let j = choose|j: int| 0 <= j < t.len() && t[j]@ == q;
                assert(v[j]@ == q);
            }
            assert(v[v.len() - 1]@ == v.last()@);
        }
        assert(!path_set(t).contains(v.last()@)) by {
            if path_set(t).contains(v.last()@) {
                let j = choose|j: int| 0 <= j < t.len() && t[j]@ == v.last()@;
                assert(v[j]@ == v[v.len() - 1]@);
            }
        }
    }
}

/// A copy of a sequence of strings.
fn copy_texts(v: &Vec<String>) -> (r: Vec<String>)
    ensures
        r@ == v@,
{
    let mut r: Vec<String> = Vec::new();
    let mut i: usize = 0;
    while i < v.len()
        invariant
            0 <= i <= v@.len(),
            r@ == v@.subrange(0, i as int),
        decreases v@.len() - i,
    {
        r.push(v[i].clone());
        proof {
            assert(r@ =~= v@.subrange(0, i + 1));
        }
        i = i + 1;
    }
    proof {
        assert(v@.subrange(0, v@.len() as int) =~= v@);
    }
    r
}

/// Whether `r` lists the ids of `ids` that at least `min` paths carry, each
/// once, each with its paths listed once.
pub open spec fn groups_listed(
    r: Seq<(crate::resource_id::Hash, Vec<String>)>,
    ids: Map<Seq<u8>, Set<Seq<char>>>,
    min: int,
) -> bool {
    &&& forall|i: int|
        0 <= i < r.len() ==> {
            &&& ids.contains_key(#[trigger] r[i].0@)
            &&& ids[r[i].0@].len() >= min
            &&& path_set(r[i].1@) == ids[r[i].0@]
            &&& r[i].1@.len() == ids[r[i].0@].len()
        }
    &&& forall|i: int, j: int| 0 <= i < j < r.len() ==> r[i].0@ != r[j].0@
    &&& forall|k: Seq<u8>|
        #![trigger ids[k]]
        ids.contains_key(k) && ids[k].len() >= min ==> exists|i: int| 0 <= i < r.len() && r[i].0@ == k
}

/// The paths that take part in a collision: those whose id more than one
/// path carries.
pub open spec fn colliding(bp: Map<Seq<char>, EntryModel>) -> Set<Seq<char>> {
    bp.dom().filter(|p: Seq<char>| ids_of(bp)[bp[p].0].len() > 1)
}

spec fn strings_unique(v: Seq<String>) -> bool {
    forall|i: int, j: int| 0 <= i < j < v.len() ==> v[i]@ != v[j]@
}

spec fn group_ok(g: IdGroup, ids: Map<Seq<u8>, Set<Seq<char>>>) -> bool {
    &&& ids.contains_key(g.id@)
    &&& path_set(g.paths@) == ids[g.id@]
    &&& strings_unique(g.paths@)
}

proof fn lemma_ids_insert(bp: Map<Seq<char>, EntryModel>, p: Seq<char>, v: EntryModel)
    requires
        !bp.contains_key(p),
    ensures
        ids_of(bp.insert(p, v)) == ids_of(bp).insert(
            v.0,
            if ids_of(bp).contains_key(v.0) {
                ids_of(bp)[v.0].insert(p)
            } else {
                set![p]
            },
        ),
{
    let nb = bp.insert(p, v);
    let lhs = ids_of(nb);
    let rhs = ids_of(bp).insert(
        v.0,
        if ids_of(bp).contains_key(v.0) {
            ids_of(bp)[v.0].insert(p)
        } else {
            set![p]
        },
    );
    assert forall|k: Seq<u8>| lhs.contains_key(k) <==> rhs.contains_key(k) by {
        if lhs.contains_key(k) {
            let q = choose|q: Seq<char>| #[trigger] nb.contains_key(q) && nb[q].0 == k;
            if q != p {
                assert(bp.contains_key(q) && bp[q].0 == k);
            }
        }
        if rhs.contains_key(k) && k != v.0 {
            let q = choose|q: Seq<char>| #[trigger] bp.contains_key(q) && bp[q].0 == k;
            assert(nb.contains_key(q) && nb[q].0 == k);
        }
        if k == v.0 {
            assert(nb.contains_key(p) && nb[p].0 == k);
        }
    }
    assert forall|k: Seq<u8>| lhs.contains_key(k) implies lhs[k] =~= rhs[k] by {
        if k == v.0 && !ids_of(bp).contains_key(v.0) {
            assert forall|q: Seq<char>| lhs[k].contains(q) implies q == p by {
                if q != p {
                    assert(bp.contains_key(q) && bp[q].0 == k);
                }
            }
        }
    }
    assert(lhs =~= rhs);
}

proof fn lemma_ids_remove(bp: Map<Seq<char>, EntryModel>, p: Seq<char>)
    requires
        bp.contains_key(p),
    ensures
        ids_of(bp).contains_key(bp[p].0),
        ids_of(bp)[bp[p].0].contains(p),
        ids_of(bp.remove(p)) == (if ids_of(bp)[bp[p].0] == set![p] {
            ids_of(bp).remove(bp[p].0)
        } else {
            ids_of(bp).insert(bp[p].0, ids_of(bp)[bp[p].0].remove(p))
        }),
{
    let k0 = bp[p].0;
    let nb = bp.remove(p);
    let ids = ids_of(bp);
    assert(ids.contains_key(k0));
    let lhs = ids_of(nb);
    let rhs = if ids[k0] == set![p] {
        ids.remove(k0)
    } else {
        ids.insert(k0, ids[k0].remove(p))
    };
    assert forall|k: Seq<u8>| lhs.contains_key(k) <==> rhs.contains_key(k) by {
        if lhs.contains_key(k) {
            let q = choose|q: Seq<char>| #[trigger] nb.contains_key(q) && nb[q].0 == k;
            assert(bp.contains_key(q) && bp[q].0 == k);
            if k == k0 {
                assert(ids[k0].contains(q));
                assert(ids[k0] != set![p]) by {
                    assert(!set![p].contains(q));
                }
            }
        }
        if rhs.contains_key(k) {
            if k != k0 {
                let q = choose|q: Seq<char>| #[trigger] bp.contains_key(q) && bp[q].0 == k;
                assert(nb.contains_key(q) && nb[q].0 == k);
            } else {
                assert(ids[k0] != set![p]);
                assert(exists|q: Seq<char>| ids[k0].contains(q) && q != p) by {
                    if forall|q: Seq<char>| ids[k0].contains(q) ==> q == p {
                        assert(ids[k0] =~= set![p]);
                    }
                }
                let q = choose|q: Seq<char>| ids[k0].contains(q) && q != p;
                assert(nb.contains_key(q) && nb[q].0 == k);
            }
        }
    }
    assert forall|k: Seq<u8>| lhs.contains_key(k) implies lhs[k] =~= rhs[k] by {}
    assert(lhs =~= rhs);
}

/// The index of the resources under a root directory.
///
/// It holds two tables kept consistent with each other: one from relative
/// path to entry, which is authoritative, and one from content id to the
/// paths that carry it.
pub struct ResourceIndex {
    root: String,
    entries: Vec<PathEntry>,
    groups: Vec<IdGroup>,
}

impl ResourceIndex {
    /// The canonical root directory.
    pub closed spec fn root_path(&self) -> Seq<char> {
        self.root@
    }

    /// The resources of the index, keyed by relative path.
    pub closed spec fn by_path(&self) -> Map<Seq<char>, EntryModel> {
        entries_map(self.entries@)
    }

    /// The paths of the index, keyed by content id.
    pub open spec fn by_id(&self) -> Map<Seq<u8>, Set<Seq<char>>> {
        ids_of(self.by_path())
    }

    /// The invariant of the index: both tables agree, each path and each id
    /// is recorded once, and every path is one that the index may hold.
    pub closed spec fn wf(&self) -> bool {
        &&& keys_unique(self.entries@)
        &&& forall|i: int|
            0 <= i < self.entries@.len() ==> indexable_path(#[trigger] self.entries@[i].path@)
        &&& forall|i: int, j: int|
            0 <= i < j < self.groups@.len() ==> self.groups@[i].id@ != self.groups@[j].id@
        &&& forall|i: int|
            0 <= i < self.groups@.len() ==> group_ok(#[trigger] self.groups@[i], self.by_id())
        &&& forall|k: Seq<u8>| #[trigger]
            self.by_id().contains_key(k) ==> exists|i: int|
                0 <= i < self.groups@.len() && self.groups@[i].id@ == k
    }

    /// The consequences of the invariant that callers rely on.
    pub proof fn lemma_wf(&self)
        requires
            self.wf(),
        ensures
            self.by_path().dom().finite(),
            forall|p: Seq<char>| #[trigger] self.by_path().contains_key(p) ==> indexable_path(p),
    {
        lemma_entries_map(self.entries@);
        assert forall|p: Seq<char>| #[trigger] self.by_path().contains_key(p) implies indexable_path(p) by {
            let i = choose|i: int| 0 <= i < self.entries@.len() && self.entries@[i].path@ == p;
            assert(indexable_path(self.entries@[i].path@));
        }
    }

    /// An empty index over the given root.
    pub fn empty(root: String) -> (r: Self)
        ensures
            r.wf(),
            r.root_path() == root@,
            r.by_path() == Map::<Seq<char>, EntryModel>::empty(),
    {
        let r = ResourceIndex { root, entries: Vec::new(), groups: Vec::new() };
        assert(r.by_id() =~= Map::<Seq<u8>, Set<Seq<char>>>::empty());
        r
    }

    /// The position of the row for `path`, if there is one.
    fn find_entry(&self, path: &str) -> (r: Option<usize>)
        requires
            self.wf(),
        ensures
            match r {
                Some(i) => i < self.entries@.len() && self.entries@[i as int].path@ == path@,
                None => !self.by_path().contains_key(path@),
            },
    {
        proof {
            lemma_entries_map(self.entries@);
        }
        let mut i: usize = 0;
        while i < self.entries.len()
            invariant
                0 <= i <= self.entries@.len(),
                forall|j: int| 0 <= j < i ==> self.entries@[j].path@ != path@,
            decreases self.entries@.len() - i,
        {
            if same_text(self.entries[i].path.as_str(), path) {
                return Some(i);
            }
            i = i + 1;
        }
        None
    }

    /// The number of resources.
    pub fn len(&self) -> (r: usize)
        requires
            self.wf(),
        ensures
            r == self.by_path().len(),
    {
        proof {
            lemma_entries_map(self.entries@);
        }
        self.entries.len()
    }

    /// Whether the index holds no resource.
    pub fn is_empty(&self) -> (r: bool)
        requires
            self.wf(),
        ensures
            r == (self.by_path().len() == 0),
    {
        proof {
            lemma_entries_map(self.entries@);
        }
        self.entries.len() == 0
    }

    /// The canonical root directory.
    pub fn root(&self) -> (r: &str)
        ensures
            r@ == self.root_path(),
    {
        self.root.as_str()
    }

    /// The resource at position `i` of the path table.
    fn resource_at(&self, i: usize) -> (r: IndexedResource)
        requires
            i < self.entries@.len(),
        ensures
            r@ == (ResourceModel {
                path: self.entries@[i as int].path@,
                id: self.entries@[i as int].entry@.0,
                last_modified: self.entries@[i as int].entry@.1,
            }),
    {
        let e = &self.entries[i];
        IndexedResource {
            id: e.entry.id.duplicate(),
            path: e.path.clone(),
            last_modified: e.entry.last_modified,
        }
    }

    /// All resources of the index, each once.
    pub fn resources(&self) -> (r: Vec<IndexedResource>)
        requires
            self.wf(),
        ensures
            lists(models(r@), self.by_path()),
            r@.len() == self.by_path().len(),
    {
        proof {
            lemma_entries_map(self.entries@);
        }
        let mut r: Vec<IndexedResource> = Vec::new();
        let mut i: usize = 0;
        while i < self.entries.len()
            invariant
                self.wf(),
                0 <= i <= self.entries@.len(),
                r@.len() == i,
                forall|j: int|
                    0 <= j < i ==> (#[trigger] r@[j])@ == (ResourceModel {
                        path: self.entries@[j].path@,
                        id: self.entries@[j].entry@.0,
                        last_modified: self.entries@[j].entry@.1,
                    }),
            decreases self.entries@.len() - i,
        {
            r.push(self.resource_at(i));
            i = i + 1;
        }
        proof {
            let ms = models(r@);
            let bp = self.by_path();
            assert forall|p: Seq<char>| #[trigger] bp.contains_key(p) implies exists|j: int|
                0 <= j < ms.len() && ms[j].path == p by {
                let j = choose|j: int| 0 <= j < self.entries@.len() && self.entries@[j].path@ == p;
                assert(ms[j] == r@[j]@);
            }
            assert forall|j: int| 0 <= j < ms.len() implies bp.contains_key(#[trigger] ms[j].path)
                && bp[ms[j].path] == (ms[j].id, ms[j].last_modified) by {
                assert(ms[j] == r@[j]@);
            }
            assert forall|a: int, b: int| 0 <= a < b < ms.len() implies ms[a].path != ms[b].path by {
                assert(ms[a] == r@[a]@ && ms[b] == r@[b]@);
            }
        }
        r
    }

    /// The resource at a relative path, or `None` where the index holds no
    /// resource there.
    pub fn get_resource_by_path(&self, path: &str) -> (r: Option<IndexedResource>)
        requires
            self.wf(),
        ensures
            self.by_path().contains_key(path@) ==> (r matches Some(x) && x@ == (ResourceModel {
                path: path@,
                id: self.by_path()[path@].0,
                last_modified: self.by_path()[path@].1,
            })),
            !self.by_path().contains_key(path@) ==> r is None,
    {
        proof {
            lemma_entries_map(self.entries@);
        }
        match self.find_entry(path) {
            Some(i) => Some(self.resource_at(i)),
            None => None,
        }
    }

    /// The resources that carry a content id (more than one where files
    /// collide), or `None` where no resource carries it.
    pub fn get_resources_by_id(&self, id: &crate::resource_id::Hash) -> (r: Option<
        Vec<IndexedResource>,
    >)
        requires
            self.wf(),
        ensures
            self.by_id().contains_key(id@) ==> (r matches Some(v) && lists(
                models(v@),
                self.by_path().restrict(self.by_id()[id@]),
            )),
            !self.by_id().contains_key(id@) ==> r is None,
    {
        proof {
            lemma_entries_map(self.entries@);
        }
        let gi = match self.find_group(id) {
            Some(gi) => gi,
            None => {
                proof {
                    if self.by_id().contains_key(id@) {
                        let j = choose|j: int| 0 <= j < self.groups@.len() && self.groups@[j].id@ == id@;
                    }
                }
                return None;
            },
        };
        let g = &self.groups[gi];
        let ghost m = self.by_path().restrict(self.by_id()[id@]);
        proof {
            assert(group_ok(self.groups@[gi as int], self.by_id()));
        }
        let mut v: Vec<IndexedResource> = Vec::new();
        let mut j: usize = 0;
        while j < g.paths.len()
            invariant
                self.wf(),
                g == self.groups@[gi as int],
                group_ok(*g, self.by_id()),
                g.id@ == id@,
                m == self.by_path().restrict(self.by_id()[id@]),
                0 <= j <= g.paths@.len(),
                v@.len() == j,
                forall|a: int|
                    0 <= a < j ==> (#[trigger] v@[a])@ == (ResourceModel {
                        path: g.paths@[a]@,
                        id: self.by_path()[g.paths@[a]@].0,
                        last_modified: self.by_path()[g.paths@[a]@].1,
                    }),
            decreases g.paths@.len() - j,
        {
            proof {
                lemma_entries_map(self.entries@);
                assert(path_set(g.paths@).contains(g.paths@[j as int]@));
            }
            match self.find_entry(g.paths[j].as_str()) {
                Some(i) => {
                    proof {
                        assert(self.by_path()[self.entries@[i as int].path@] == self.entries@[i as int].entry@);
                    }
                    v.push(self.resource_at(i));
                },
                None => {
                    proof {
                        assert(false);
                    }
                },
            }
            j = j + 1;
        }
        proof {
            let ms = models(v@);
            assert forall|p: Seq<char>| #[trigger] m.contains_key(p) implies exists|a: int|
                0 <= a < ms.len() && ms[a].path == p by {
                assert(path_set(g.paths@).contains(p));
                let a = choose|a: int| 0 <= a < g.paths@.len() && g.paths@[a]@ == p;
                assert(ms[a] == v@[a]@);
            }
            assert forall|a: int| 0 <= a < ms.len() implies m.contains_key(#[trigger] ms[a].path)
                && m[ms[a].path] == (ms[a].id, ms[a].last_modified) by {
                assert(ms[a] == v@[a]@);
                assert(path_set(g.paths@).contains(g.paths@[a]@));
            }
            assert forall|a: int, b: int| 0 <= a < b < ms.len() implies ms[a].path != ms[b].path by {
                assert(ms[a] == v@[a]@ && ms[b] == v@[b]@);
            }
        }
        Some(v)
    }

    /// Builds the index of a scan of `root`. Only non-empty files strictly
    /// below the root on indexable paths are taken; their paths are made
    /// relative to the root.
    pub fn build(root: String, files: Vec<ScannedFile>) -> (r: Self)
        ensures
            r.wf(),
            r.root_path() == root@,
            r.by_path() == snapshot(root@, files@),
    {
        let mut index = Self::empty(root);
        let mut i: usize = 0;
        while i < files.len()
            invariant
                index.wf(),
                0 <= i <= files@.len(),
                index.by_path() == snapshot(index.root_path(), files@.subrange(0, i as int)),
                index.root_path() == root@,
            decreases files@.len() - i,
        {
            let f = &files[i];
            proof {
                assert(files@.subrange(0, i + 1).drop_last() =~= files@.subrange(0, i as int));
            }
            if f.size > 0 {
                match relative_path(index.root.as_str(), f.path.as_str()) {
                    Some(rel) => {
                        if is_indexable(rel.as_str()) {
                            let ghost before = index.by_path();
                            proof {
                                lemma_entries_map(index.entries@);
                            }
                            if index.find_entry(rel.as_str()).is_some() {
                                index.remove_path(rel.as_str());
                            }
                            index.insert_new(rel, f.id.duplicate(), f.last_modified);
                            proof {
                                assert(index.by_path() =~= before.insert(
                                    below(root@, f.path@),
                                    (f.id@, f.last_modified),
                                ));
                            }
                        }
                    },
                    None => {},
                }
            }
            i = i + 1;
        }
        proof {
            assert(files@.subrange(0, files@.len() as int) =~= files@);
        }
        index
    }

    /// Brings the index up to date with a fresh scan of its root: paths no
    /// longer seen are removed, new paths are added, and a path seen before
    /// takes its scanned entry only where its modification time advanced by
    /// at least the threshold. Other entries are kept as they were.
    pub fn update_all(&mut self, files: Vec<ScannedFile>) -> (u: IndexUpdate)
        requires
            old(self).wf(),
        ensures
            final(self).wf(),
            final(self).root_path() == old(self).root_path(),
            final(self).by_path() == refreshed(
                old(self).by_path(),
                snapshot(old(self).root_path(), files@),
            ),
            lists(
                u.added_view(),
                added_part(old(self).by_path(), snapshot(old(self).root_path(), files@)),
            ),
            lists(
                u.removed_view(),
                removed_part(old(self).by_path(), snapshot(old(self).root_path(), files@)),
            ),
    {
        let ghost prev = self.by_path();
        let ghost root = self.root_path();
        let current = Self::build(self.root.clone(), files);
        let ghost cur = current.by_path();
        let old_list = self.resources();
        let ghost olds = models(old_list@);
        let mut removed: Vec<IndexedResource> = Vec::new();
        let mut i: usize = 0;
        while i < old_list.len()
            invariant
                self.wf(),
                current.wf(),
                self.root_path() == root,
                current.by_path() == cur,
                olds == models(old_list@),
                lists(olds, prev),
                0 <= i <= olds.len(),
                self.by_path() == Map::new(
                    |p: Seq<char>| prev.contains_key(p) && (cur.contains_key(p) || !seen(olds, i as int, p)),
                    |p: Seq<char>| prev[p],
                ),
                lists(
                    models(removed@),
                    Map::new(
                        |p: Seq<char>|
                            prev.contains_key(p) && !cur.contains_key(p) && seen(olds, i as int, p),
                        |p: Seq<char>| prev[p],
                    ),
                ),
            decreases olds.len() - i,
        {
            let r = &old_list[i];
            let ghost p = olds[i as int].path;
            let ghost before = self.by_path();
            let ghost rem_before = models(removed@);
            proof {
                assert(olds[i as int] == r@);
                assert(!seen(olds, i as int, p));
                assert forall|q: Seq<char>| seen(olds, i + 1, q) <==> (seen(olds, i as int, q) || q == p) by {
                    if seen(olds, i + 1, q) {
                        let j = choose|j: int| 0 <= j < i + 1 && olds[j].path == q;
                        if j < i {
                            assert(seen(olds, i as int, q));
                        }
                    }
                    if q == p {
                        assert(olds[i as int].path == q);
                    }
                    if seen(olds, i as int, q) {
                        let j = choose|j: int| 0 <= j < i && olds[j].path == q;
                        assert(0 <= j < i + 1 && olds[j].path == q);
                    }
                }
            }
            if current.get_resource_by_path(r.path()).is_none() {
                self.remove_path(r.path());
                removed.push(r.duplicate());
                proof {
                    assert(self.by_path() =~= Map::new(
                        |q: Seq<char>| prev.contains_key(q) && (cur.contains_key(q) || !seen(olds, i + 1, q)),
                        |q: Seq<char>| prev[q],
                    ));
                    let ms = models(removed@);
                    let m = Map::new(
                        |q: Seq<char>|
                            prev.contains_key(q) && !cur.contains_key(q) && seen(olds, i + 1, q),
                        |q: Seq<char>| prev[q],
                    );
                    assert(ms =~= rem_before.push(olds[i as int]));
                    assert forall|a: int, b: int| 0 <= a < b < ms.len() implies ms[a].path != ms[b].path by {
                        if b == ms.len() - 1 {
                            let q = ms[a].path;
                            assert(seen(olds, i as int, q));
                        }
                    }
                    assert forall|a: int| 0 <= a < ms.len() implies m.contains_key(#[trigger] ms[a].path)
                        && m[ms[a].path] == (ms[a].id, ms[a].last_modified) by {
                        if a < ms.len() - 1 {
                            assert(ms[a] == rem_before[a]);
                        }
                    }
                    assert forall|q: Seq<char>| #[trigger] m.contains_key(q) implies exists|a: int|
                        0 <= a < ms.len() && ms[a].path == q by {
                        if q == p {
                            assert(ms[ms.len() - 1].path == q);
                        } else {
                            assert(Map::new(
                                |q: Seq<char>|
                                    prev.contains_key(q) && !cur.contains_key(q) && seen(olds, i as int, q),
                                |q: Seq<char>| prev[q],
                            ).contains_key(q));
                            let a = choose|a: int| 0 <= a < rem_before.len() && rem_before[a].path == q;
                            assert(ms[a] == rem_before[a]);
                        }
                    }
                }
            } else {
                proof {
                    assert(self.by_path() =~= Map::new(
                        |q: Seq<char>| prev.contains_key(q) && (cur.contains_key(q) || !seen(olds, i + 1, q)),
                        |q: Seq<char>| prev[q],
                    ));
                    assert(Map::new(
                        |q: Seq<char>|
                            prev.contains_key(q) && !cur.contains_key(q) && seen(olds, i + 1, q),
                        |q: Seq<char>| prev[q],
                    ) =~= Map::new(
                        |q: Seq<char>|
                            prev.contains_key(q) && !cur.contains_key(q) && seen(olds, i as int, q),
                        |q: Seq<char>| prev[q],
                    ));
                }
            }
            i = i + 1;
        }
        proof {
            assert forall|q: Seq<char>| prev.contains_key(q) implies #[trigger] seen(olds, olds.len() as int, q) by {
                let j = choose|j: int| 0 <= j < olds.len() && olds[j].path == q;
            }
            assert(self.by_path() =~= Map::new(
                |q: Seq<char>| prev.contains_key(q) && cur.contains_key(q),
                |q: Seq<char>| prev[q],
            ));
            assert(Map::new(
                |q: Seq<char>|
                    prev.contains_key(q) && !cur.contains_key(q) && seen(olds, olds.len() as int, q),
                |q: Seq<char>| prev[q],
            ) =~= removed_part(prev, cur));
        }
        let added = self.apply_current(&current, Ghost(prev));
        IndexUpdate { added, removed }
    }

    /// The second half of a rescan: takes each scanned resource that is new
    /// or modified.
    fn apply_current(&mut self, current: &ResourceIndex, Ghost(prev): Ghost<Map<Seq<char>, EntryModel>>) -> (added: Vec<IndexedResource>)
        requires
            old(self).wf(),
            current.wf(),
            old(self).by_path() == Map::new(
                |q: Seq<char>| prev.contains_key(q) && current.by_path().contains_key(q),
                |q: Seq<char>| prev[q],
            ),
        ensures
            final(self).wf(),
            final(self).root_path() == old(self).root_path(),
            final(self).by_path() == refreshed(prev, current.by_path()),
            lists(models(added@), added_part(prev, current.by_path())),
    {
        proof {
            current.lemma_wf();
        }
        let ghost cur = current.by_path();
        let ghost root = self.root_path();
        let cur_list = current.resources();
        let ghost curs = models(cur_list@);
        let mut added: Vec<IndexedResource> = Vec::new();
        let mut i: usize = 0;
        while i < cur_list.len()
            invariant
                self.wf(),
                self.root_path() == root,
                current.wf(),
                current.by_path() == cur,
                curs == models(cur_list@),
                lists(curs, cur),
                0 <= i <= curs.len(),
                self.by_path() == Map::new(
                    |p: Seq<char>| (prev.contains_key(p) && cur.contains_key(p)) || seen(curs, i as int, p),
                    |p: Seq<char>|
                        if seen(curs, i as int, p) {
                            refreshed(prev, cur)[p]
                        } else {
                            prev[p]
                        },
                ),
                lists(
                    models(added@),
                    Map::new(
                        |p: Seq<char>| added_part(prev, cur).contains_key(p) && seen(curs, i as int, p),
                        |p: Seq<char>| cur[p],
                    ),
                ),
            decreases curs.len() - i,
        {
            let c = &cur_list[i];
            let ghost p = curs[i as int].path;
            let ghost before = self.by_path();
            let ghost add_before = models(added@);
            let ghost next = Map::new(
                |q: Seq<char>| (prev.contains_key(q) && cur.contains_key(q)) || seen(curs, i + 1, q),
                |q: Seq<char>|
                    if seen(curs, i + 1, q) {
                        refreshed(prev, cur)[q]
                    } else {
                        prev[q]
                    },
            );
            let ghost add_next = Map::new(
                |q: Seq<char>| added_part(prev, cur).contains_key(q) && seen(curs, i + 1, q),
                |q: Seq<char>| cur[q],
            );
            proof {
                assert(curs[i as int] == c@);
                assert(cur.contains_key(p));
                current.lemma_wf();
                assert(indexable_path(p));
                assert(cur[p] == (c@.id, c@.last_modified));
                assert(!seen(curs, i as int, p));
                assert forall|q: Seq<char>| seen(curs, i + 1, q) <==> (seen(curs, i as int, q) || q == p) by {
                    if seen(curs, i + 1, q) {
                        let j = choose|j: int| 0 <= j < i + 1 && curs[j].path == q;
                        if j < i {
                            assert(seen(curs, i as int, q));
                        }
                    }
                    if q == p {
                        assert(curs[i as int].path == q);
                    }
                    if seen(curs, i as int, q) {
                        let j = choose|j: int| 0 <= j < i && curs[j].path == q;
                        assert(0 <= j < i + 1 && curs[j].path == q);
                    }
                }
                lemma_entries_map(self.entries@);
            }
            let mut take = true;
            match self.find_entry(c.path()) {
                Some(k) => {
                    let lm = self.entries[k].entry.last_modified;
                    proof {
                        assert(before.contains_key(p));
                        assert(prev.contains_key(p));
                        assert(before[p] == prev[p]);
                        assert(self.entries@[k as int].entry@ == before[p]);
                    }
                    if c.last_modified >= lm && c.last_modified - lm >= RESOURCE_UPDATED_THRESHOLD {
                        self.remove_path(c.path());
                    } else {
                        take = false;
                    }
                },
                None => {},
            }
            if take {
                self.insert_new(c.path.clone(), c.id.duplicate(), c.last_modified);
                added.push(c.duplicate());
                proof {
                    assert(self.by_path() =~= next);
                    let ms = models(added@);
                    assert(ms =~= add_before.push(curs[i as int]));
                    assert(add_next.contains_key(p));
                    assert forall|a: int, b: int| 0 <= a < b < ms.len() implies ms[a].path != ms[b].path by {
                        if b == ms.len() - 1 {
                            let q = ms[a].path;
                            assert(seen(curs, i as int, q));
                        }
                    }
                    assert forall|a: int| 0 <= a < ms.len() implies add_next.contains_key(#[trigger] ms[a].path)
                        && add_next[ms[a].path] == (ms[a].id, ms[a].last_modified) by {
                        if a < ms.len() - 1 {
                            assert(ms[a] == add_before[a]);
                        }
                    }
                    assert forall|q: Seq<char>| #[trigger] add_next.contains_key(q) implies exists|a: int|
                        0 <= a < ms.len() && ms[a].path == q by {
                        if q == p {
                            assert(ms[ms.len() - 1].path == q);
                        } else {
                            assert(Map::new(
                                |q: Seq<char>| added_part(prev, cur).contains_key(q) && seen(curs, i as int, q),
                                |q: Seq<char>| cur[q],
                            ).contains_key(q));
                            let a = choose|a: int| 0 <= a < add_before.len() && add_before[a].path == q;
                            assert(ms[a] == add_before[a]);
                        }
                    }
                }
            } else {
                proof {
                    assert(self.by_path() =~= next);
                    assert(add_next =~= Map::new(
                        |q: Seq<char>| added_part(prev, cur).contains_key(q) && seen(curs, i as int, q),
                        |q: Seq<char>| cur[q],
                    ));
                }
            }
            i = i + 1;
        }
        proof {
            assert forall|q: Seq<char>| cur.contains_key(q) implies #[trigger] seen(curs, curs.len() as int, q) by {
                let j = choose|j: int| 0 <= j < curs.len() && curs[j].path == q;
            }
            assert(self.by_path() =~= refreshed(prev, cur));
            assert(Map::new(
                |q: Seq<char>| added_part(prev, cur).contains_key(q) && seen(curs, curs.len() as int, q),
                |q: Seq<char>| cur[q],
            ) =~= added_part(prev, cur));
        }
        added
    }

    /// Starts tracking a file that appeared at a relative path. Fails with
    /// `Path` on a path that the index may not hold, `NotFound` where no
    /// regular file is there, `Empty` on a zero-byte file and
    /// `AlreadyIndexed` where the path is tracked already; on failure the
    /// index is unchanged.
    pub fn track_addition(&mut self, path: &str, state: FileState) -> (r: Result<IndexedResource, ArklibError>)
        requires
            old(self).wf(),
        ensures
            final(self).wf(),
            final(self).root_path() == old(self).root_path(),
            !indexable_path(path@) ==> r matches Err(ArklibError::Path(_)),
            indexable_path(path@) && (state is Missing || state is NotAFile) ==> r matches Err(ArklibError::NotFound),
            indexable_path(path@) && state is Empty ==> r matches Err(ArklibError::Empty),
            indexable_path(path@) && state is File && old(self).by_path().contains_key(path@)
                ==> r matches Err(ArklibError::AlreadyIndexed),
            indexable_path(path@) && !old(self).by_path().contains_key(path@) ==> (state matches FileState::File { last_modified, id } ==> (
                r matches Ok(x) && x@ == (ResourceModel { path: path@, id: id@, last_modified })
                && final(self).by_path() == old(self).by_path().insert(path@, (id@, last_modified)))),
            r is Err ==> final(self).by_path() == old(self).by_path(),
    {
        if !is_indexable(path) {
            return Err(ArklibError::Path(path.to_owned()));
        }
        match state {
            FileState::Missing => Err(ArklibError::NotFound),
            FileState::NotAFile => Err(ArklibError::NotFound),
            FileState::Empty => Err(ArklibError::Empty),
            FileState::File { last_modified, id } => {
                if self.find_entry(path).is_some() {
                    proof {
                        lemma_entries_map(self.entries@);
                    }
                    return Err(ArklibError::AlreadyIndexed);
                }
                let res = IndexedResource { id: id.duplicate(), path: path.to_owned(), last_modified };
                self.insert_new(path.to_owned(), id, last_modified);
                Ok(res)
            },
        }
    }

    /// Stops tracking a file that was deleted. Fails with `StillExists`
    /// where something is still at the path, and with `NotIndexed` where the
    /// index does not hold the path; on failure the index is unchanged.
    pub fn track_removal(&mut self, path: &str, state: FileState) -> (r: Result<(), ArklibError>)
        requires
            old(self).wf(),
        ensures
            final(self).wf(),
            final(self).root_path() == old(self).root_path(),
            !(state is Missing) ==> r matches Err(ArklibError::StillExists),
            state is Missing && !old(self).by_path().contains_key(path@) ==> r matches Err(ArklibError::NotIndexed),
            state is Missing && old(self).by_path().contains_key(path@) ==> r is Ok,
            r is Ok ==> final(self).by_path() == old(self).by_path().remove(path@),
            r is Err ==> final(self).by_path() == old(self).by_path(),
    {
        match state {
            FileState::Missing => {},
            _ => {
                return Err(ArklibError::StillExists);
            },
        }
        if self.find_entry(path).is_none() {
            return Err(ArklibError::NotIndexed);
        }
        proof {
            lemma_entries_map(self.entries@);
        }
        self.remove_path(path);
        Ok(())
    }

    /// Re-reads a tracked file that changed: its entry is replaced by the
    /// one observed now, whatever its modification time. Fails with
    /// `NotIndexed` where the index does not hold the path, `NotFound` where
    /// no regular file is there and `Empty` on a zero-byte file; on failure
    /// the index is unchanged.
    pub fn track_modification(&mut self, path: &str, state: FileState) -> (r: Result<IndexedResource, ArklibError>)
        requires
            old(self).wf(),
        ensures
            final(self).wf(),
            final(self).root_path() == old(self).root_path(),
            !old(self).by_path().contains_key(path@) ==> r matches Err(ArklibError::NotIndexed),
            old(self).by_path().contains_key(path@) && (state is Missing || state is NotAFile) ==> r matches Err(ArklibError::NotFound),
            old(self).by_path().contains_key(path@) && state is Empty ==> r matches Err(ArklibError::Empty),
            old(self).by_path().contains_key(path@) ==> (state matches FileState::File { last_modified, id } ==> (
                r matches Ok(x) && x@ == (ResourceModel { path: path@, id: id@, last_modified })
                && final(self).by_path() == old(self).by_path().insert(path@, (id@, last_modified)))),
            r is Err ==> final(self).by_path() == old(self).by_path(),
    {
        if self.find_entry(path).is_none() {
            return Err(ArklibError::NotIndexed);
        }
        proof {
            lemma_entries_map(self.entries@);
            self.lemma_wf();
        }
        match state {
            FileState::Missing => Err(ArklibError::NotFound),
            FileState::NotAFile => Err(ArklibError::NotFound),
            FileState::Empty => Err(ArklibError::Empty),
            FileState::File { last_modified, id } => {
                let ghost before = self.by_path();
                self.remove_path(path);
                let res = IndexedResource { id: id.duplicate(), path: path.to_owned(), last_modified };
                self.insert_new(path.to_owned(), id, last_modified);
                proof {
                    assert(self.by_path() =~= before.insert(path@, (id@, last_modified)));
                }
                Ok(res)
            },
        }
    }

    /// The ids that more than one path carries, each with all its paths.
    ///
    /// With a cryptographic hash these are files of equal content; with a
    /// checksum they may also be files whose contents merely hash alike.
    pub fn collisions(&self) -> (r: Vec<(crate::resource_id::Hash, Vec<String>)>)
        requires
            self.wf(),
        ensures
            groups_listed(r@, self.by_id(), 2),
    {
        self.groups_of_size(2)
    }

    /// Every id of the index with all the paths that carry it.
    pub fn paths_by_id(&self) -> (r: Vec<(crate::resource_id::Hash, Vec<String>)>)
        requires
            self.wf(),
        ensures
            groups_listed(r@, self.by_id(), 1),
    {
        self.groups_of_size(1)
    }

    /// The ids that at least `min` paths carry, each with its paths.
    fn groups_of_size(&self, min: usize) -> (r: Vec<(crate::resource_id::Hash, Vec<String>)>)
        requires
            self.wf(),
        ensures
            groups_listed(r@, self.by_id(), min as int),
    {
        let mut r: Vec<(crate::resource_id::Hash, Vec<String>)> = Vec::new();
        let mut i: usize = 0;
        while i < self.groups.len()
            invariant
                self.wf(),
                0 <= i <= self.groups@.len(),
                forall|a: int|
                    0 <= a < r@.len() ==> {
                        &&& self.by_id().contains_key(#[trigger] r@[a].0@)
                        &&& self.by_id()[r@[a].0@].len() >= min
                        &&& path_set(r@[a].1@) == self.by_id()[r@[a].0@]
                        &&& r@[a].1@.len() == self.by_id()[r@[a].0@].len()
                    },
                forall|a: int| 0 <= a < r@.len() ==> exists|b: int| 0 <= b < i && self.groups@[b].id@ == #[trigger] r@[a].0@,
                forall|a: int, b: int| 0 <= a < b < r@.len() ==> r@[a].0@ != r@[b].0@,
                forall|b: int|
                    0 <= b < i && #[trigger] self.groups@[b].paths@.len() >= min ==> exists|a: int|
                        0 <= a < r@.len() && r@[a].0@ == self.groups@[b].id@,
            decreases self.groups@.len() - i,
        {
            let g = &self.groups[i];
            proof {
                assert(group_ok(self.groups@[i as int], self.by_id()));
                lemma_path_set_len(g.paths@);
            }
            if g.paths.len() >= min {
                let ghost r0 = r@;
                r.push((g.id.duplicate(), copy_texts(&g.paths)));
                proof {
                    assert forall|a: int| 0 <= a < r@.len() implies exists|b: int|
                        0 <= b < i + 1 && self.groups@[b].id@ == #[trigger] r@[a].0@ by {
                        if a < r0.len() {
                            assert(r@[a] == r0[a]);
                            let b = choose|b: int| 0 <= b < i && self.groups@[b].id@ == r0[a].0@;
                        } else {
                            assert(self.groups@[i as int].id@ == r@[a].0@);
                        }
                    }
                    assert forall|a: int, b: int| 0 <= a < b < r@.len() implies r@[a].0@ != r@[b].0@ by {
                        if b == r@.len() - 1 {
                            assert(r@[a] == r0[a]);
                            let c = choose|c: int| 0 <= c < i && self.groups@[c].id@ == r0[a].0@;
                        } else {
                            assert(r@[a] == r0[a] && r@[b] == r0[b]);
                        }
                    }
                    assert forall|b: int|
                        0 <= b < i + 1 && #[trigger] self.groups@[b].paths@.len() >= min implies exists|a: int|
                            0 <= a < r@.len() && r@[a].0@ == self.groups@[b].id@ by {
                        if b < i {
                            let a = choose|a: int| 0 <= a < r0.len() && r0[a].0@ == self.groups@[b].id@;
                            assert(r@[a] == r0[a]);
                        } else {
                            assert(r@[r@.len() - 1].0@ == self.groups@[b].id@);
                        }
                    }
                    assert forall|a: int| 0 <= a < r@.len() implies {
                        &&& self.by_id().contains_key(#[trigger] r@[a].0@)
                        &&& self.by_id()[r@[a].0@].len() >= min
                        &&& path_set(r@[a].1@) == self.by_id()[r@[a].0@]
                        &&& r@[a].1@.len() == self.by_id()[r@[a].0@].len()
                    } by {
                        if a < r0.len() {
                            assert(r@[a] == r0[a]);
                        }
                    }
                }
            }
            i = i + 1;
        }
        proof {
            assert forall|k: Seq<u8>|
                #![trigger self.by_id()[k]]
                self.by_id().contains_key(k) && self.by_id()[k].len() >= min implies exists|i: int|
                    0 <= i < r@.len() && r@[i].0@ == k by {
                let b = choose|b: int| 0 <= b < self.groups@.len() && self.groups@[b].id@ == k;
                assert(group_ok(self.groups@[b], self.by_id()));
                lemma_path_set_len(self.groups@[b].paths@);
                assert(self.groups@[b].paths@.len() >= min);
            }
        }
        r
    }

    /// The number of paths that take part in a collision.
    pub fn num_collisions(&self) -> (r: usize)
        requires
            self.wf(),
        ensures
            r == colliding(self.by_path()).len(),
    {
        let ghost bp = self.by_path();
        let ghost ids = self.by_id();
        proof {
            lemma_entries_map(self.entries@);
        }
        let mut count: usize = 0;
        let mut i: usize = 0;
        proof {
            assert(Set::new(|p: Seq<char>| seen_entry(self.entries@, 0, p) && colliding(bp).contains(p))
                =~= Set::<Seq<char>>::empty());
        }
        while i < self.entries.len()
            invariant
                self.wf(),
                bp == self.by_path(),
                ids == self.by_id(),
                0 <= i <= self.entries@.len(),
                count <= i,
                Set::new(|p: Seq<char>| seen_entry(self.entries@, i as int, p) && colliding(bp).contains(p)).finite(),
                count == Set::new(|p: Seq<char>| seen_entry(self.entries@, i as int, p) && colliding(bp).contains(p)).len(),
            decreases self.entries@.len() - i,
        {
            let e = &self.entries[i];
            let ghost p = e.path@;
            let ghost k = e.entry@.0;
            let ghost s0 = Set::new(|q: Seq<char>| seen_entry(self.entries@, i as int, q) && colliding(bp).contains(q));
            let ghost s1 = Set::new(|q: Seq<char>| seen_entry(self.entries@, i + 1, q) && colliding(bp).contains(q));
            proof {
                lemma_entries_map(self.entries@);
                assert(bp.contains_key(p) && bp[p].0 == k);
                assert(ids.contains_key(k));
                assert(!seen_entry(self.entries@, i as int, p));
                assert forall|q: Seq<char>| seen_entry(self.entries@, i + 1, q) <==> (seen_entry(self.entries@, i as int, q) || q == p) by {
                    if seen_entry(self.entries@, i + 1, q) {
                        let j = choose|j: int| 0 <= j < i + 1 && self.entries@[j].path@ == q;
                        if j < i {
                            assert(seen_entry(self.entries@, i as int, q));
                        }
                    }
                    if q == p {
                        assert(self.entries@[i as int].path@ == q);
                    }
                    if seen_entry(self.entries@, i as int, q) {
                        let j = choose|j: int| 0 <= j < i && self.entries@[j].path@ == q;
                        assert(0 <= j < i + 1 && self.entries@[j].path@ == q);
                    }
                }
            }
            let many = match self.find_group(&e.entry.id) {
                Some(gi) => {
                    proof {
                        assert(group_ok(self.groups@[gi as int], ids));
                        lemma_path_set_len(self.groups@[gi as int].paths@);
                    }
                    self.groups[gi].paths.len() > 1
                },
                None => {
                    proof {
                        let b = choose|b: int| 0 <= b < self.groups@.len() && self.groups@[b].id@ == k;
                        assert(false);
                    }
                    false
                },
            };
            if many {
                proof {
                    assert(colliding(bp).contains(p));
                    assert(s1 =~= s0.insert(p));
                }
                count = count + 1;
            } else {
                proof {
                    assert(!colliding(bp).contains(p));
                    assert(s1 =~= s0);
                }
            }
            i = i + 1;
        }
        proof {
            assert(Set::new(|p: Seq<char>| seen_entry(self.entries@, self.entries@.len() as int, p) && colliding(bp).contains(p)) =~= colliding(bp)) by {
                assert forall|q: Seq<char>| colliding(bp).contains(q) implies seen_entry(self.entries@, self.entries@.len() as int, q) by {
                    assert(bp.contains_key(q));
                    let j = choose|j: int| 0 <= j < self.entries@.len() && self.entries@[j].path@ == q;
                }
            }
        }
        count
    }

    /// Rebuilds an index from its stored resources. Fails with `Parse` where
    /// two resources share a path or a path is not one the index may hold.
    pub fn from_resources(root: String, resources: Vec<IndexedResource>) -> (r: Result<Self, ArklibError>)
        ensures
            listing_ok(models(resources@)) ==> (r matches Ok(idx) && idx.wf() && idx.root_path() == root@
                && idx.by_path() == resource_map(models(resources@))),
            !listing_ok(models(resources@)) ==> r matches Err(ArklibError::Parse),
    {
        let ghost ms = models(resources@);
        let mut index = Self::empty(root);
        let mut i: usize = 0;
        while i < resources.len()
            invariant
                index.wf(),
                index.root_path() == root@,
                ms == models(resources@),
                0 <= i <= ms.len(),
                listing_ok(ms.subrange(0, i as int)),
                index.by_path() == resource_map(ms.subrange(0, i as int)),
                forall|p: Seq<char>|
                    #[trigger] index.by_path().contains_key(p) <==> exists|j: int|
                        0 <= j < i && ms[j].path == p,
            decreases ms.len() - i,
        {
            let x = &resources[i];
            let ghost before = index.by_path();
            proof {
                assert(ms[i as int] == x@);
                assert(ms.subrange(0, i + 1).drop_last() =~= ms.subrange(0, i as int));
                lemma_entries_map(index.entries@);
            }
            if !is_indexable(x.path()) {
                proof {
                    assert(!indexable_path(ms[i as int].path));
                }
                return Err(ArklibError::Parse);
            }
            if index.find_entry(x.path()).is_some() {
                proof {
                    assert(before.contains_key(x@.path));
                    let j = choose|j: int| 0 <= j < i && ms[j].path == x@.path;
                    assert(ms[j].path == ms[i as int].path);
                }
                return Err(ArklibError::Parse);
            }
            index.insert_new(x.path.clone(), x.id.duplicate(), x.last_modified);
            proof {
                let t = ms.subrange(0, i + 1);
                assert forall|a: int, b: int| 0 <= a < b < t.len() implies t[a].path != t[b].path by {
                    if b == i {
                        assert(t[a] == ms[a]);
                        assert(before.contains_key(ms[a].path));
                    } else {
                        assert(t[a] == ms.subrange(0, i as int)[a] && t[b] == ms.subrange(0, i as int)[b]);
                    }
                }
                assert forall|a: int| 0 <= a < t.len() implies indexable_path(#[trigger] t[a].path) by {
                    if a < i {
                        assert(t[a] == ms.subrange(0, i as int)[a]);
                    }
                }
                assert forall|p: Seq<char>|
                    #[trigger] index.by_path().contains_key(p) <==> exists|j: int| 0 <= j < i + 1 && ms[j].path == p by {
                    if p != x@.path && before.contains_key(p) {
                        let j = choose|j: int| 0 <= j < i && ms[j].path == p;
                        assert(0 <= j < i + 1 && ms[j].path == p);
                    }
                    if p == x@.path {
                        assert(ms[i as int].path == p);
                    }
                    if exists|j: int| 0 <= j < i + 1 && ms[j].path == p {
                        let j = choose|j: int| 0 <= j < i + 1 && ms[j].path == p;
                        if j < i {
                            assert(before.contains_key(p));
                        }
                    }
                }
            }
            i = i + 1;
        }
        proof {
            assert(ms.subrange(0, ms.len() as int) =~= ms);
        }
        Ok(index)
    }

    /// Records a path that the index does not hold yet.
    fn insert_new(&mut self, path: String, id: crate::resource_id::Hash, last_modified: u128)
        requires
            old(self).wf(),
            !old(self).by_path().contains_key(path@),
            indexable_path(path@),
        ensures
            final(self).wf(),
            final(self).root_path() == old(self).root_path(),
            final(self).by_path() == old(self).by_path().insert(path@, (id@, last_modified)),
    {
        let ghost old_bp = self.by_path();
        let ghost old_ids = self.by_id();
        let ghost new_bp = old_bp.insert(path@, (id@, last_modified));
        let ghost new_set = if old_ids.contains_key(id@) {
            old_ids[id@].insert(path@)
        } else {
            set![path@]
        };
        proof {
            lemma_entries_map(self.entries@);
            lemma_ids_insert(old_bp, path@, (id@, last_modified));
        }
        let gi = self.find_group(&id);
        let ghost old_entries = self.entries@;
        let ghost old_groups = self.groups@;
        self.entries.push(
            PathEntry { path: path.clone(), entry: IndexEntry { id: id.duplicate(), last_modified } },
        );
        proof {
            assert(self.entries@.drop_last() =~= old_entries);
            assert(self.by_path() == new_bp);
            assert forall|i: int, j: int| 0 <= i < j < self.entries@.len() implies self.entries@[i].path@
                != self.entries@[j].path@ by {
                if j == self.entries@.len() - 1 {
                    assert(old_entries[i].path@ == self.entries@[i].path@);
                    assert(old_bp.contains_key(old_entries[i].path@));
                }
            }
            assert(self.by_id() == old_ids.insert(id@, new_set));
        }
        match gi {
            Some(i) => {
                let mut g = self.groups.remove(i);
                proof {
                    assert(group_ok(old_groups[i as int], old_ids));
                    assert(!old_ids[id@].contains(path@));
                    assert forall|a: int| 0 <= a < g.paths@.len() implies g.paths@[a]@ != path@ by {
                        assert(path_set(g.paths@).contains(g.paths@[a]@));
                    }
                }
                let ghost old_paths = g.paths@;
                g.paths.push(path);
                proof {
                    assert(path_set(g.paths@) =~= new_set) by {
                        assert forall|q: Seq<char>| path_set(g.paths@).contains(q) implies new_set.contains(q) by {
                            let j = choose|j: int| 0 <= j < g.paths@.len() && g.paths@[j]@ == q;
                            if j < old_paths.len() {
                                assert(path_set(old_paths).contains(q));
                            }
                        }
                        assert forall|q: Seq<char>| new_set.contains(q) implies path_set(g.paths@).contains(q) by {
                            if q != path@ {
                                assert(path_set(old_paths).contains(q));
                                let j = choose|j: int| 0 <= j < old_paths.len() && old_paths[j]@ == q;
                                assert(g.paths@[j]@ == q);
                            } else {
                                assert(g.paths@[old_paths.len() as int]@ == q);
                            }
                        }
                    }
                    assert(strings_unique(g.paths@));
                }
                self.groups.insert(i, g);
                proof {
                    assert(self.groups@ =~= old_groups.update(i as int, g));
                }
            },
            None => {
                let mut paths: Vec<String> = Vec::new();
                paths.push(path);
                let g = IdGroup { id, paths };
                proof {
                    assert(!old_ids.contains_key(id@)) by {
                        if old_ids.contains_key(id@) {
                            let j = choose|j: int| 0 <= j < old_groups.len() && old_groups[j].id@ == id@;
                        }
                    }
                    assert(path_set(g.paths@) =~= new_set) by {
                        assert(g.paths@[0]@ == path@);
                    }
                }
                self.groups.push(g);
            },
        }
        proof {
            let ids = self.by_id();
            assert(ids == old_ids.insert(id@, new_set));
            assert forall|i: int| 0 <= i < self.groups@.len() implies group_ok(#[trigger] self.groups@[i], ids) by {
                if self.groups@[i].id@ != id@ {
                    assert(old_groups.contains(self.groups@[i])) by {
                        if i < old_groups.len() {
                            assert(self.groups@[i] == old_groups[i]);
                        }
                    }
                    let j = choose|j: int| 0 <= j < old_groups.len() && old_groups[j] == self.groups@[i];
                    assert(group_ok(old_groups[j], old_ids));
                }
            }
            assert forall|k: Seq<u8>| #[trigger] ids.contains_key(k) implies exists|i: int|
                0 <= i < self.groups@.len() && self.groups@[i].id@ == k by {
                if k == id@ {
                    match gi {
                        Some(i) => { assert(self.groups@[i as int].id@ == k); },
                        None => { assert(self.groups@[old_groups.len() as int].id@ == k); },
                    }
                } else {
                    assert(old_ids.contains_key(k));
                    let j = choose|j: int| 0 <= j < old_groups.len() && old_groups[j].id@ == k;
                    assert(self.groups@[j].id@ == k);
                }
            }
            assert forall|i: int| 0 <= i < self.entries@.len() implies indexable_path(#[trigger] self.entries@[i].path@) by {
                if i < old_entries.len() {
                    assert(self.entries@[i] == old_entries[i]);
                }
            }
        }
    }

    /// Forgets a path that the index holds.
    fn remove_path(&mut self, path: &str)
        requires
            old(self).wf(),
            old(self).by_path().contains_key(path@),
        ensures
            final(self).wf(),
            final(self).root_path() == old(self).root_path(),
            final(self).by_path() == old(self).by_path().remove(path@),
    {
        let ghost old_bp = self.by_path();
        let ghost old_ids = self.by_id();
        let ghost old_entries = self.entries@;
        let ghost old_groups = self.groups@;
        proof {
            lemma_entries_map(self.entries@);
            lemma_ids_remove(old_bp, path@);
            assert(self.by_id().contains_key(old_bp[path@].0));
            assert(exists|j: int| 0 <= j < old_groups.len() && old_groups[j].id@ == old_bp[path@].0);
        }
        let i = match self.find_entry(path) {
            Some(i) => i,
            None => {
                proof {
                    assert(false);
                }
                return;
            },
        };
        let e = self.entries.remove(i);
        let ghost k = e.entry@.0;
        let ghost new_bp = old_bp.remove(path@);
        proof {
            assert(old_bp[path@] == e.entry@);
            let s = self.entries@;
            assert(keys_unique(s)) by {
                assert forall|a: int, b: int| 0 <= a < b < s.len() implies s[a].path@ != s[b].path@ by {
                    let a2 = if a < i { a } else { a + 1 };
                    let b2 = if b < i { b } else { b + 1 };
                    assert(s[a] == old_entries[a2] && s[b] == old_entries[b2]);
                }
            }
            lemma_entries_map(s);
            assert forall|q: Seq<char>| new_bp.contains_key(q) <==> #[trigger] entries_map(s).contains_key(q) by {
                if new_bp.contains_key(q) {
                    let a = choose|a: int| 0 <= a < old_entries.len() && old_entries[a].path@ == q;
                    assert(a != i);
                    let a2 = if a < i { a } else { a - 1 };
                    assert(s[a2].path@ == q);
                }
                if entries_map(s).contains_key(q) {
                    let a = choose|a: int| 0 <= a < s.len() && s[a].path@ == q;
                    let a2 = if a < i { a } else { a + 1 };
                    assert(old_entries[a2].path@ == q);
                    assert(a2 != i);
                }
            }
            assert forall|q: Seq<char>| #[trigger] new_bp.contains_key(q) implies new_bp[q] == entries_map(s)[q] by {
                assert(entries_map(s).contains_key(q));
                let a = choose|a: int| 0 <= a < s.len() && s[a].path@ == q;
                let a2 = if a < i { a } else { a + 1 };
                assert(old_entries[a2] == s[a]);
            }
            assert(self.by_path() =~= new_bp);
            assert forall|a: int| 0 <= a < s.len() implies indexable_path(#[trigger] s[a].path@) by {
                let a2 = if a < i { a } else { a + 1 };
                assert(old_entries[a2] == s[a]);
            }
        }
        let gi = match self.find_group(&e.entry.id) {
            Some(gi) => gi,
            None => {
                proof {
                    assert(self.groups@ == old_groups);
                    assert(e.entry.id@ == k);
                    assert(k == old_bp[path@].0);
                    let j = choose|j: int| 0 <= j < old_groups.len() && old_groups[j].id@ == k;
                    assert(false);
                }
                return;
            },
        };
        let mut g = self.groups.remove(gi);
        proof {
            assert(g == old_groups[gi as int]);
            assert(group_ok(g, old_ids));
            assert(path_set(g.paths@).contains(path@));
        }
        let j = match find_text(&g.paths, path) {
            Some(j) => j,
            None => {
                proof {
                    let j = choose|j: int| 0 <= j < g.paths@.len() && g.paths@[j]@ == path@;
                    assert(false);
                }
                return;
            },
        };
        let ghost old_paths = g.paths@;
        g.paths.remove(j);
        proof {
            let ps = g.paths@;
            assert forall|a: int, b: int| 0 <= a < b < ps.len() implies ps[a]@ != ps[b]@ by {
                let a2 = if a < j { a } else { a + 1 };
                let b2 = if b < j { b } else { b + 1 };
                assert(ps[a] == old_paths[a2] && ps[b] == old_paths[b2]);
            }
            assert(path_set(ps) =~= path_set(old_paths).remove(path@)) by {
                assert forall|q: Seq<char>| path_set(ps).contains(q) implies path_set(old_paths).remove(path@).contains(q) by {
                    let a = choose|a: int| 0 <= a < ps.len() && ps[a]@ == q;
                    let a2 = if a < j { a } else { a + 1 };
                    assert(old_paths[a2]@ == q);
                    assert(a2 != j);
                }
                assert forall|q: Seq<char>| path_set(old_paths).remove(path@).contains(q) implies path_set(ps).contains(q) by {
                    let a = choose|a: int| 0 <= a < old_paths.len() && old_paths[a]@ == q;
                    assert(a != j);
                    let a2 = if a < j { a } else { a - 1 };
                    assert(ps[a2]@ == q);
                }
            }
        }
        let ghost groups_mid = self.groups@;
        if g.paths.len() > 0 {
            proof {
                assert(path_set(g.paths@).contains(g.paths@[0]@));
                assert(old_ids[k] != set![path@]) by {
                    assert(path_set(old_paths).contains(g.paths@[0]@));
                    assert(g.paths@[0]@ != path@);
                }
            }
            self.groups.insert(gi, g);
            proof {
                assert(self.groups@ =~= old_groups.update(gi as int, g));
            }
        } else {
            proof {
                assert(old_ids[k] =~= set![path@]) by {
                    assert forall|q: Seq<char>| old_ids[k].contains(q) implies q == path@ by {
                        assert(path_set(old_paths).contains(q));
                        if q != path@ {
                            assert(path_set(g.paths@).contains(q));
                        }
                    }
                }
                assert(self.groups@ =~= old_groups.remove(gi as int));
            }
        }
        proof {
            let ids = self.by_id();
            let gs = self.groups@;
            assert forall|a: int, b: int| 0 <= a < b < gs.len() implies gs[a].id@ != gs[b].id@ by {
                if g.paths@.len() == 0 {
                    let a2 = if a < gi { a } else { a + 1 };
                    let b2 = if b < gi { b } else { b + 1 };
                    assert(gs[a] == old_groups[a2] && gs[b] == old_groups[b2]);
                } else {
                    if a != gi && b != gi {
                        assert(gs[a] == old_groups[a] && gs[b] == old_groups[b]);
                    } else if a == gi {
                        assert(gs[b] == old_groups[b]);
                    } else {
                        assert(gs[a] == old_groups[a]);
                    }
                }
            }
            assert forall|a: int| 0 <= a < gs.len() implies group_ok(#[trigger] gs[a], ids) by {
                if gs[a].id@ != k {
                    let a2 = if g.paths@.len() == 0 && a >= gi { a + 1 } else { a };
                    assert(gs[a] == old_groups[a2]);
                    assert(group_ok(old_groups[a2], old_ids));
                } else {
                    if g.paths@.len() == 0 {
                        let a2 = if a >= gi { a + 1 } else { a };
                        assert(gs[a] == old_groups[a2]);
                        assert(old_groups[a2].id@ == old_groups[gi as int].id@);
                        assert(false);
                    } else {
                        if a != gi {
                            assert(gs[a] == old_groups[a]);
                            assert(false);
                        }
                    }
                }
            }
            assert forall|kk: Seq<u8>| #[trigger] ids.contains_key(kk) implies exists|a: int|
                0 <= a < gs.len() && gs[a].id@ == kk by {
                assert(old_ids.contains_key(kk));
                let a = choose|a: int| 0 <= a < old_groups.len() && old_groups[a].id@ == kk;
                if g.paths@.len() == 0 {
                    assert(a != gi);
                    let a2 = if a < gi { a } else { a - 1 };
                    assert(gs[a2].id@ == kk);
                } else {
                    if a == gi {
                        assert(gs[a].id@ == kk);
                    } else {
                        assert(gs[a] == old_groups[a]);
                    }
                }
            }
        }
    }

    /// The position of the group for `id`, if there is one.
    fn find_group(&self, id: &crate::resource_id::Hash) -> (r: Option<usize>)
        ensures
            match r {
                Some(i) => i < self.groups@.len() && self.groups@[i as int].id@ == id@,
                None => forall|j: int| 0 <= j < self.groups@.len() ==> self.groups@[j].id@ != id@,
            },
    {
        let mut i: usize = 0;
        while i < self.groups.len()
            invariant
                0 <= i <= self.groups@.len(),
                forall|j: int| 0 <= j < i ==> self.groups@[j].id@ != id@,
            decreases self.groups@.len() - i,
        {
            if self.groups[i].id.same(id) {
                return Some(i);
            }
            i = i + 1;
        }
        None
    }
}

} // verus!
