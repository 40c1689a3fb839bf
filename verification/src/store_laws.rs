use vstd::prelude::*;

use crate::comparison::indexed;
use crate::digest::full_digest;
use crate::fileinfo::FileRecord;
use crate::stage::{content_at, sized_up};
use crate::group::{distinct_paths, has_path, marked, with_file};
use crate::store::{keyed_by_size, marked_in, paths_unique, upserted, Groups};

verus! {

/// A group stays free of repeated paths when a file asks to join it.
pub proof fn lemma_with_file_keeps_distinct(group: Seq<FileRecord>, file: FileRecord)
    requires
        distinct_paths(group),
    ensures
        distinct_paths(with_file(group, file)),
{
    if !has_path(group, file.path) {
        let joined = group.push(file);
        assert forall|i: int, j: int| 0 <= i < j < joined.len() implies #[trigger] joined[i].path
            != #[trigger] joined[j].path by {
            if j == group.len() {
                assert(group[i].path != file.path);
            }
        }
    }
}

/// Filing a file under any key keeps every group free of repeated paths.
pub proof fn lemma_upserted_keeps_unique<K>(groups: Groups<K>, key: K, file: FileRecord)
    requires
        paths_unique(groups),
    ensures
        paths_unique(upserted(groups, key, file)),
{
    if groups.contains_key(key) {
        lemma_with_file_keeps_distinct(groups[key], file);
    }
}

/// Filing a file under its own byte length keeps every group to one length.
pub proof fn lemma_upserted_keeps_sizes(groups: Groups<u64>, file: FileRecord)
    requires
        keyed_by_size(groups),
    ensures
        keyed_by_size(upserted(groups, file.size, file)),
{
    let after = upserted(groups, file.size, file);
    assert forall|key: u64, i: int|
        after.contains_key(key) && 0 <= i < after[key].len() implies (#[trigger] after[key][i]).size
        == key by {
        if key == file.size {
            if groups.contains_key(key) {
                if i < groups[key].len() {
                    assert(groups[key][i].size == key);
                }
            }
        } else {
            assert(groups[key][i].size == key);
        }
    }
}

/// Marking a path keeps every group free of repeated paths and to one length.
pub proof fn lemma_marked_in_keeps_shape(groups: Groups<u64>, key: u64, path: Seq<char>)
    ensures
        paths_unique(groups) ==> paths_unique(marked_in(groups, key, path)),
        keyed_by_size(groups) ==> keyed_by_size(marked_in(groups, key, path)),
{
    let after = marked_in(groups, key, path);
    if paths_unique(groups) {
        assert forall|k: u64| #[trigger] after.contains_key(k) implies distinct_paths(after[k]) by {
            assert(groups.contains_key(k));
            if k == key {
                let group = groups[k];
                let m = marked(group, path);
                assert forall|i: int, j: int| 0 <= i < j < m.len() implies #[trigger] m[i].path
                    != #[trigger] m[j].path by {
                    assert(group[i].path != group[j].path);
                }
            }
        }
    }
    if keyed_by_size(groups) {
        assert forall|k: u64, i: int|
            after.contains_key(k) && 0 <= i < after[k].len() implies (#[trigger] after[k][i]).size
            == k by {
            assert(groups[k][i].size == k);
        }
    }
}

/// No digest-keyed group of an index holds a path twice.
pub proof fn lemma_indexed_unique(
    files: Seq<FileRecord>,
    contents: Seq<Option<Seq<u8>>>,
    seed: i64,
)
    ensures
        paths_unique(indexed(files, contents, seed)),
    decreases files.len(),
{
    if files.len() > 0 {
        lemma_indexed_unique(files.drop_last(), contents, seed);
        match content_at(contents, files.len() - 1) {
            Some(bytes) => {
                lemma_upserted_keeps_unique(
                    indexed(files.drop_last(), contents, seed),
                    full_digest(bytes, seed),
                    files.last(),
                );
            },
            None => {},
        }
    }
}

/// Two members of one size group have one byte length: files of different
/// lengths are never in the same group.
pub proof fn one_size_per_group(groups: Groups<u64>, key: u64, one: FileRecord, other: FileRecord)
    requires
        keyed_by_size(groups),
        groups.contains_key(key),
        groups[key].contains(one),
        groups[key].contains(other),
    ensures
        one.size == key,
        other.size == key,
{
    let i = choose|i: int| 0 <= i < groups[key].len() && groups[key][i] == one;
    let j = choose|j: int| 0 <= j < groups[key].len() && groups[key][j] == other;
    assert(groups[key][i].size == key);
    assert(groups[key][j].size == key);
}

/// Whatever the size stage drains, and in whatever order, it keeps every
/// group to one byte length and free of repeated paths.
pub proof fn size_stage_keeps_shape(groups: Groups<u64>, queue: Seq<FileRecord>)
    requires
        keyed_by_size(groups),
        paths_unique(groups),
    ensures
        keyed_by_size(sized_up(groups, queue)),
        paths_unique(sized_up(groups, queue)),
    decreases queue.len(),
{
    if queue.len() > 0 {
        let last = queue.last();
        lemma_upserted_keeps_sizes(groups, last);
        lemma_upserted_keeps_unique(groups, last.size, last);
        size_stage_keeps_shape(upserted(groups, last.size, last), queue.drop_last());
    }
}

} // verus!
