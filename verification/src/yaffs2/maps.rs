//! The concurrent maps of the `dashmap` crate that hold the objects, the
//! directory tree, the files being rebuilt and their chunks, and what each
//! of their methods that the library calls does to their contents.

use vstd::prelude::*;
use dashmap::DashMap;
use crate::yaffs2::file_data::{FileData, FileDataView};
use crate::yaffs2::inode::{INode, INodeView};

verus! {

#[verifier::external_type_specification]
#[verifier::external_body]
#[verifier::reject_recursive_types(K)]
#[verifier::reject_recursive_types(V)]
#[verifier::reject_recursive_types(S)]
pub struct ExDashMap<K, V, S>(DashMap<K, V, S>);

/// The entries of a map from chunk numbers to chunk contents.
pub uninterp spec fn chunk_map(m: DashMap<usize, Vec<u8>>) -> Map<usize, Seq<u8>>;

/// The entries of a map from object ids to objects, each by its view.
pub uninterp spec fn object_map(m: DashMap<u64, INode>) -> Map<u64, INodeView>;

/// The entries of a map from directory ids to the ids of their children.
pub uninterp spec fn hierarchy_map(m: DashMap<u64, Vec<u64>>) -> Map<u64, Seq<u64>>;

/// The entries of a map from object ids to the files being rebuilt.
pub uninterp spec fn file_map(m: DashMap<u64, FileData>) -> Map<u64, FileDataView>;

// ---- chunks ----

/// `DashMap::new`: a map without entries.
#[verifier::external_body]
pub(crate) fn chunks_new() -> (created: DashMap<usize, Vec<u8>>)
    ensures
        chunk_map(created).dom().is_empty(),
{
    DashMap::new()
}

/// `DashMap::insert`: the entry for `k` becomes `v`, the others stay.
#[verifier::external_body]
pub(crate) fn chunks_insert(m: &mut DashMap<usize, Vec<u8>>, k: usize, v: Vec<u8>)
    ensures
        chunk_map(*final(m)) == chunk_map(*old(m)).insert(k, v@),
{
    m.insert(k, v);
}

/// `DashMap::len`: the number of entries.
#[verifier::external_body]
pub(crate) fn chunks_len(m: &DashMap<usize, Vec<u8>>) -> (count: usize)
    ensures
        count == chunk_map(*m).dom().len(),
{
    m.len()
}

/// `DashMap::get`, the entry cloned out of its guard.
#[verifier::external_body]
pub(crate) fn chunks_get(m: &DashMap<usize, Vec<u8>>, k: usize) -> (r: Option<Vec<u8>>)
    ensures
        match r {
            Some(v) => chunk_map(*m).dom().contains(k) && v@ == chunk_map(*m)[k],
            None => !chunk_map(*m).dom().contains(k),
        },
{
    m.get(&k).map(|e| e.value().clone())
}

// ---- objects ----

/// `DashMap::new`: a map without entries.
#[verifier::external_body]
pub(crate) fn objects_new() -> (created: DashMap<u64, INode>)
    ensures
        object_map(created).dom().is_empty(),
{
    DashMap::new()
}

/// `DashMap::insert`: the entry for `k` becomes `v`, the others stay.
#[verifier::external_body]
pub(crate) fn objects_insert(m: &mut DashMap<u64, INode>, k: u64, v: INode)
    ensures
        object_map(*final(m)) == object_map(*old(m)).insert(k, v@),
{
    m.insert(k, v);
}

/// `DashMap::get`, the entry cloned out of its guard.
#[verifier::external_body]
pub(crate) fn objects_get(m: &DashMap<u64, INode>, k: u64) -> (r: Option<INode>)
    ensures
        match r {
            Some(v) => object_map(*m).dom().contains(k) && v@ == object_map(*m)[k],
            None => !object_map(*m).dom().contains(k),
        },
{
    m.get(&k).map(|e| e.value().clone())
}

/// `DashMap::contains_key`.
#[verifier::external_body]
pub(crate) fn objects_contains(m: &DashMap<u64, INode>, k: u64) -> (b: bool)
    ensures
        b == object_map(*m).dom().contains(k),
{
    m.contains_key(&k)
}

/// `DashMap::len`: the number of entries.
#[verifier::external_body]
pub(crate) fn objects_len(m: &DashMap<u64, INode>) -> (count: usize)
    ensures
        count == object_map(*m).dom().len(),
{
    m.len()
}

// ---- hierarchy ----

/// `DashMap::new`: a map without entries.
#[verifier::external_body]
pub(crate) fn hierarchy_new() -> (created: DashMap<u64, Vec<u64>>)
    ensures
        hierarchy_map(created).dom().is_empty(),
{
    DashMap::new()
}

/// `DashMap::insert`: the entry for `k` becomes `v`, the others stay.
#[verifier::external_body]
pub(crate) fn hierarchy_insert(m: &mut DashMap<u64, Vec<u64>>, k: u64, v: Vec<u64>)
    ensures
        hierarchy_map(*final(m)) == hierarchy_map(*old(m)).insert(k, v@),
{
    m.insert(k, v);
}

/// `DashMap::get`, the entry cloned out of its guard.
#[verifier::external_body]
pub(crate) fn hierarchy_get(m: &DashMap<u64, Vec<u64>>, k: u64) -> (r: Option<Vec<u64>>)
    ensures
        match r {
            Some(v) => hierarchy_map(*m).dom().contains(k) && v@ == hierarchy_map(*m)[k],
            None => !hierarchy_map(*m).dom().contains(k),
        },
{
    m.get(&k).map(|e| e.value().clone())
}

// ---- files ----

/// `DashMap::new`: a map without entries.
#[verifier::external_body]
pub(crate) fn files_new() -> (created: DashMap<u64, FileData>)
    ensures
        file_map(created).dom().is_empty(),
{
    DashMap::new()
}

/// `DashMap::insert`: the entry for `k` becomes `v`, the others stay.
#[verifier::external_body]
pub(crate) fn files_insert(m: &mut DashMap<u64, FileData>, k: u64, v: FileData)
    ensures
        file_map(*final(m)) == file_map(*old(m)).insert(k, v@),
{
    m.insert(k, v);
}

/// `DashMap::remove`: the entry for `k` leaves the map and is handed out.
#[verifier::external_body]
pub(crate) fn files_remove(m: &mut DashMap<u64, FileData>, k: u64) -> (r: Option<FileData>)
    ensures
        file_map(*final(m)) == file_map(*old(m)).remove(k),
        match r {
            Some(v) => file_map(*old(m)).dom().contains(k) && v@ == file_map(*old(m))[k],
            None => !file_map(*old(m)).dom().contains(k),
        },
{
    m.remove(&k).map(|entry| entry.1)
}

/// `DashMap::iter`, each entry mapped to its key: every key once, in an
/// order the source leaves open.
#[verifier::external_body]
pub(crate) fn files_keys(m: &DashMap<u64, FileData>) -> (keys: Vec<u64>)
    ensures
        keys@.no_duplicates(),
        forall|k: u64| #[trigger] keys@.contains(k) <==> file_map(*m).dom().contains(k),
{
    m.iter().map(|e| *e.key()).collect()
}

} // verus!
