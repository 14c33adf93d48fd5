//! Properties that relate several operations of the index.
use vstd::prelude::*;
use vstd::set_lib::{lemma_map_size, lemma_set_subset_finite};
use vstd::seq_lib::seq_to_set_is_finite;

use crate::index::{
    EntryModel, ResourceIndex, ResourceModel, ScannedFile, added_part, admits, ids_of, lemma_resource_map,
    listing_ok, lists, refreshed, removed_part, resource_map, snapshot,
};
use crate::paths::{below, indexable_path};

verus! {

/// For a listing of an index's resources, each id is carried by as many
/// paths as there are listed resources with that id.
pub proof fn lemma_id_counts(idx: &ResourceIndex, ms: Seq<ResourceModel>)
    requires
        idx.wf(),
        lists(ms, idx.by_path()),
    ensures
        forall|k: Seq<u8>|
            #[trigger] idx.by_id().contains_key(k) ==> idx.by_id()[k].len() == ms.to_set().filter(
                |m: ResourceModel| m.id == k,
            ).len(),
{
    let bp = idx.by_path();
    idx.lemma_wf();
    assert forall|k: Seq<u8>| #[trigger] idx.by_id().contains_key(k) implies idx.by_id()[k].len()
        == ms.to_set().filter(|m: ResourceModel| m.id == k).len() by {
        let x = ms.to_set().filter(|m: ResourceModel| m.id == k);
        let f = |m: ResourceModel| m.path;
        seq_to_set_is_finite(ms);
        lemma_set_subset_finite(ms.to_set(), x);
        assert(vstd::relations::injective_on(f, x)) by {
            assert forall|a: ResourceModel, b: ResourceModel|
                x.contains(a) && x.contains(b) && #[trigger] f(a) == #[trigger] f(b) implies a == b by {
                let i = choose|i: int| 0 <= i < ms.len() && ms[i] == a;
                let j = choose|j: int| 0 <= j < ms.len() && ms[j] == b;
                if i != j {
                    if i < j {
                        assert(ms[i].path != ms[j].path);
                    } else {
                        assert(ms[j].path != ms[i].path);
                    }
                }
            }
        }
        assert(x.map(f) =~= idx.by_id()[k]) by {
            assert forall|p: Seq<char>| idx.by_id()[k].contains(p) implies x.map(f).contains(p) by {
                assert(bp.contains_key(p));
                let i = choose|i: int| 0 <= i < ms.len() && ms[i].path == p;
                assert(ms.to_set().contains(ms[i]));
                assert(x.contains(ms[i]));
            }
            assert forall|p: Seq<char>| x.map(f).contains(p) implies idx.by_id()[k].contains(p) by {
                let m = choose|m: ResourceModel| x.contains(m) && f(m) == p;
                let i = choose|i: int| 0 <= i < ms.len() && ms[i] == m;
                assert(bp.contains_key(ms[i].path));
            }
        }
        lemma_map_size(x, idx.by_id()[k], f);
    }
}

/// Storing the resources of an index and rebuilding from them gives back
/// the same index: the listing is accepted, and its map is the index's own.
pub proof fn lemma_round_trip(idx: &ResourceIndex, ms: Seq<ResourceModel>)
    requires
        idx.wf(),
        lists(ms, idx.by_path()),
    ensures
        listing_ok(ms),
        resource_map(ms) == idx.by_path(),
        ids_of(resource_map(ms)) == idx.by_id(),
{
    let bp = idx.by_path();
    idx.lemma_wf();
    assert forall|i: int| 0 <= i < ms.len() implies indexable_path(#[trigger] ms[i].path) by {
        assert(bp.contains_key(ms[i].path));
    }
    lemma_resource_map(ms);
    assert forall|p: Seq<char>| #[trigger] bp.contains_key(p) implies resource_map(ms).contains_key(p)
        && resource_map(ms)[p] == bp[p] by {
        let i = choose|i: int| 0 <= i < ms.len() && ms[i].path == p;
        assert(resource_map(ms)[ms[i].path] == (ms[i].id, ms[i].last_modified));
    }
    assert forall|p: Seq<char>| #[trigger] resource_map(ms).contains_key(p) implies bp.contains_key(p) by {
        let i = choose|i: int| 0 <= i < ms.len() && ms[i].path == p;
    }
    assert(resource_map(ms) =~= bp);
}

/// A rescan that finds exactly what the index holds changes nothing and
/// reports nothing.
pub proof fn lemma_rescan_idempotent(idx: &ResourceIndex, files: Seq<ScannedFile>)
    requires
        idx.wf(),
        snapshot(idx.root_path(), files) == idx.by_path(),
    ensures
        refreshed(idx.by_path(), snapshot(idx.root_path(), files)) == idx.by_path(),
        added_part(idx.by_path(), snapshot(idx.root_path(), files)) == Map::<Seq<char>, EntryModel>::empty(),
        removed_part(idx.by_path(), snapshot(idx.root_path(), files)) == Map::<Seq<char>, EntryModel>::empty(),
{
    let prev = idx.by_path();
    assert(refreshed(prev, prev) =~= prev);
    assert(added_part(prev, prev) =~= Map::<Seq<char>, EntryModel>::empty());
    assert(removed_part(prev, prev) =~= Map::<Seq<char>, EntryModel>::empty());
}

/// Tracking the addition of a path and then, once the file is gone, its
/// removal leaves both tables of the index as they were.
pub proof fn lemma_add_then_remove(idx: &ResourceIndex, p: Seq<char>, v: EntryModel)
    requires
        idx.wf(),
        !idx.by_path().contains_key(p),
    ensures
        idx.by_path().insert(p, v).remove(p) == idx.by_path(),
        ids_of(idx.by_path().insert(p, v).remove(p)) == idx.by_id(),
{
    assert(idx.by_path().insert(p, v).remove(p) =~= idx.by_path());
}

/// The invariants of the index, stated over its model: each path is
/// recorded under its id, each id records only paths that carry it, no id
/// records an empty set, and every path is relative, visible and below the
/// root.
pub proof fn lemma_consistent(idx: &ResourceIndex)
    requires
        idx.wf(),
    ensures
        forall|p: Seq<char>| #[trigger]
            idx.by_path().contains_key(p) ==> idx.by_id().contains_key(idx.by_path()[p].0)
                && idx.by_id()[idx.by_path()[p].0].contains(p),
        forall|k: Seq<u8>, p: Seq<char>|
            idx.by_id().contains_key(k) && #[trigger] idx.by_id()[k].contains(p) ==> idx.by_path().contains_key(p)
                && idx.by_path()[p].0 == k,
        forall|k: Seq<u8>| #[trigger] idx.by_id().contains_key(k) ==> idx.by_id()[k].len() > 0,
        forall|p: Seq<char>| #[trigger] idx.by_path().contains_key(p) ==> indexable_path(p),
{
    idx.lemma_wf();
    let bp = idx.by_path();
    assert forall|p: Seq<char>| #[trigger] bp.contains_key(p) implies idx.by_id().contains_key(bp[p].0)
        && idx.by_id()[bp[p].0].contains(p) by {
        assert(bp.contains_key(p) && bp[p].0 == bp[p].0);
    }
    assert forall|k: Seq<u8>| #[trigger] idx.by_id().contains_key(k) implies idx.by_id()[k].len() > 0 by {
        let p = choose|p: Seq<char>| #[trigger] bp.contains_key(p) && bp[p].0 == k;
        assert(idx.by_id()[k].contains(p));
        lemma_set_subset_finite(bp.dom(), idx.by_id()[k]);
    }
}

/// Every path of a scan's map comes from a scanned file that lies below the
/// root on an indexable path and is not empty: empty and hidden files never
/// enter an index.
pub proof fn lemma_scan_sources(root: Seq<char>, files: Seq<ScannedFile>)
    ensures
        forall|p: Seq<char>| #[trigger]
            snapshot(root, files).contains_key(p) ==> exists|i: int|
                0 <= i < files.len() && admits(root, files[i]) && below(root, files[i].path@) == p,
    decreases files.len(),
{
    if files.len() > 0 {
        let t = files.drop_last();
        lemma_scan_sources(root, t);
        assert forall|p: Seq<char>| #[trigger] snapshot(root, files).contains_key(p) implies exists|i: int|
            0 <= i < files.len() && admits(root, files[i]) && below(root, files[i].path@) == p by {
            if snapshot(root, t).contains_key(p) {
                let i = choose|i: int| 0 <= i < t.len() && admits(root, t[i]) && below(root, t[i].path@) == p;
                assert(files[i] == t[i]);
            } else {
                assert(files[files.len() - 1] == files.last());
            }
        }
    }
}

} // verus!
