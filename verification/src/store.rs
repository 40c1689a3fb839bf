use dashmap::DashMap;
use vstd::prelude::*;

use crate::fileinfo::{FileInfo, FileRecord};
use crate::group::{add_if_new_path, distinct_paths, mark_path, marked, single, with_file};

verus! {

/// `dashmap::DashMap`, of which nothing but what the wrappers below state is known.
#[verifier::external_type_specification]
#[verifier::external_body]
#[verifier::reject_recursive_types(K)]
#[verifier::reject_recursive_types(V)]
#[verifier::reject_recursive_types(S)]
pub struct ExDashMap<K, V, S>(DashMap<K, V, S>);

/// Groups of files under keys of type `K`.
pub type Groups<K> = Map<K, Seq<FileRecord>>;

/// One walk over a store: its keys, each with its group, in the order met.
pub type Listing<K> = Seq<(K, Seq<FileRecord>)>;

/// The groups that a size-keyed store holds, by byte length.
pub uninterp spec fn size_groups(store: DashMap<u64, Vec<FileInfo>>) -> Groups<u64>;

/// The groups that a digest-keyed store holds, by content digest.
pub uninterp spec fn hash_groups(store: DashMap<u128, Vec<FileInfo>>) -> Groups<u128>;

/// `groups` after `file` has been filed under `key`: it joins the group that
/// is there unless its path is already in it, and founds the group otherwise.
pub open spec fn upserted<K>(groups: Groups<K>, key: K, file: FileRecord) -> Groups<K> {
    if groups.contains_key(key) {
        groups.insert(key, with_file(groups[key], file))
    } else {
        groups.insert(key, seq![file])
    }
}

/// `groups` after the members at `path` of the group under `key`, if there is
/// one, have been taken up by the hash stage.
pub open spec fn marked_in<K>(groups: Groups<K>, key: K, path: Seq<char>) -> Groups<K> {
    if groups.contains_key(key) {
        groups.insert(key, marked(groups[key], path))
    } else {
        groups
    }
}

/// `list` names every key of `groups` exactly once, each with its group.
pub open spec fn lists<K>(list: Listing<K>, groups: Groups<K>) -> bool {
    &&& forall|i: int|
        0 <= i < list.len() ==> groups.contains_key((#[trigger] list[i]).0) && groups[list[i].0]
            == list[i].1
    &&& forall|i: int, j: int|
        0 <= i < j < list.len() ==> (#[trigger] list[i]).0 != (#[trigger] list[j]).0
    &&& forall|key: K| #[trigger]
        groups.contains_key(key) ==> exists|i: int|
            0 <= i < list.len() && (#[trigger] list[i]).0 == key
}

/// No group of `groups` holds a path twice.
pub open spec fn paths_unique<K>(groups: Groups<K>) -> bool {
    forall|key: K| #[trigger] groups.contains_key(key) ==> distinct_paths(groups[key])
}

/// Every member of a group of `groups` has the byte length the group is keyed by.
pub open spec fn keyed_by_size(groups: Groups<u64>) -> bool {
    forall|key: u64, i: int|
        groups.contains_key(key) && 0 <= i < groups[key].len() ==> (#[trigger] groups[key][i]).size
            == key
}

/// `DashMap::new`: a size-keyed store without groups.
#[verifier::external_body]
pub(crate) fn new_size_store() -> (fresh: DashMap<u64, Vec<FileInfo>>)
    ensures
        size_groups(fresh) == Groups::<u64>::empty(),
{
    DashMap::new()
}

/// `DashMap::entry`, then `Entry::and_modify` and `Entry::or_insert_with`: where
/// `key` has a group, the group takes `file` in unless it holds its path; where
/// it has none, a group of `file` alone is put under it. No other key changes.
#[verifier::external_body]
pub(crate) fn put_by_size(store: &mut DashMap<u64, Vec<FileInfo>>, key: u64, file: &FileInfo)
    ensures
        size_groups(*final(store)) == upserted(size_groups(*old(store)), key, file@),
{
    store.entry(key).and_modify(|group| add_if_new_path(group, file)).or_insert_with(|| single(file));
}

/// `DashMap::entry`, then `Entry::and_modify`: where `key` has a group, its
/// members at `path` are marked; a key without a group gets none.
#[verifier::external_body]
pub(crate) fn mark_by_size(store: &mut DashMap<u64, Vec<FileInfo>>, key: u64, path: &String)
    ensures
        size_groups(*final(store)) == marked_in(size_groups(*old(store)), key, path@),
{
    store.entry(key).and_modify(|group| mark_path(group, path));
}

/// `DashMap::iter`: every key with a copy of its group, each key once, in an
/// order that is not fixed.
#[verifier::external_body]
pub(crate) fn size_entries(store: &DashMap<u64, Vec<FileInfo>>) -> (entries: Vec<
    (u64, Vec<FileInfo>),
>)
    ensures
        lists(entries.deep_view(), size_groups(*store)),
{
    store.iter().map(|entry| (*entry.key(), entry.value().clone())).collect()
}

/// `DashMap::new`: a digest-keyed store without groups.
#[verifier::external_body]
pub(crate) fn new_hash_store() -> (fresh: DashMap<u128, Vec<FileInfo>>)
    ensures
        hash_groups(fresh) == Groups::<u128>::empty(),
{
    DashMap::new()
}

/// `DashMap::entry`, then `Entry::and_modify` and `Entry::or_insert_with`: where
/// `key` has a group, the group takes `file` in unless it holds its path; where
/// it has none, a group of `file` alone is put under it. No other key changes.
#[verifier::external_body]
pub(crate) fn put_by_hash(store: &mut DashMap<u128, Vec<FileInfo>>, key: u128, file: &FileInfo)
    ensures
        hash_groups(*final(store)) == upserted(hash_groups(*old(store)), key, file@),
{
    store.entry(key).and_modify(|group| add_if_new_path(group, file)).or_insert_with(|| single(file));
}

/// `DashMap::into_iter`: every key with its group, each key once, in an order
/// that is not fixed.
#[verifier::external_body]
pub(crate) fn into_hash_entries(store: DashMap<u128, Vec<FileInfo>>) -> (entries: Vec<
    (u128, Vec<FileInfo>),
>)
    ensures
        lists(entries.deep_view(), hash_groups(store)),
{
    store.into_iter().collect()
}

} // verus!
