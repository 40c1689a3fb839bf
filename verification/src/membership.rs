use vstd::prelude::*;

use crate::fileinfo::FileRecord;
use crate::group::{distinct_paths, has_path, marked, with_file};
use crate::stage::sized_up;
use crate::store::{marked_in, paths_unique, upserted, Groups};

verus! {

/// Whether `path` is filed under `key`.
pub open spec fn filed_under<K>(groups: Groups<K>, key: K, path: Seq<char>) -> bool {
    groups.contains_key(key) && has_path(groups[key], path)
}

/// Two stores file the same paths under the same keys.
pub open spec fn same_membership<K>(a: Groups<K>, b: Groups<K>) -> bool {
    forall|key: K, path: Seq<char>| #[trigger]
        filed_under(a, key, path) == filed_under(b, key, path)
}

/// Whether the group under `key` has more than one member.
pub open spec fn crowded<K>(groups: Groups<K>, key: K) -> bool {
    groups.contains_key(key) && groups[key].len() > 1
}

/// Whether some file of `files` has the byte length `size` and lies at `path`.
pub open spec fn found_at(files: Seq<FileRecord>, size: u64, path: Seq<char>) -> bool {
    exists|i: int| 0 <= i < files.len() && (#[trigger] files[i]).size == size && files[i].path == path
}

/// A group that a file has asked to join holds the paths it held, and the file's.
pub proof fn lemma_with_file_paths(group: Seq<FileRecord>, file: FileRecord, path: Seq<char>)
    ensures
        has_path(with_file(group, file), path) == (has_path(group, path) || file.path == path),
        with_file(group, file).len() >= group.len(),
        forall|i: int| 0 <= i < group.len() ==> with_file(group, file)[i] == group[i],
{
    let joined = with_file(group, file);
    if has_path(group, path) {
        let i = choose|i: int| 0 <= i < group.len() && #[trigger] group[i].path == path;
        assert(joined[i].path == path);
    }
    if !has_path(group, file.path) {
        assert(joined[group.len() as int].path == file.path);
    }
    if has_path(joined, path) {
        let i = choose|i: int| 0 <= i < joined.len() && #[trigger] joined[i].path == path;
        if i < group.len() {
            assert(group[i].path == path);
        }
    }
}

/// Filing a file adds its path under its key, and nothing else.
pub proof fn lemma_upserted_membership<K>(
    groups: Groups<K>,
    key: K,
    file: FileRecord,
    other: K,
    path: Seq<char>,
)
    ensures
        filed_under(upserted(groups, key, file), other, path) == (filed_under(groups, other, path)
            || (other == key && file.path == path)),
{
    if other == key {
        if groups.contains_key(key) {
            lemma_with_file_paths(groups[key], file, path);
        } else {
            let group = seq![file];
            if file.path == path {
                assert(group[0].path == path);
            }
        }
    }
}

/// Marking a path as taken up changes no path and no group's length.
pub proof fn lemma_marked_in_membership<K>(
    groups: Groups<K>,
    key: K,
    marked_path: Seq<char>,
    other: K,
    path: Seq<char>,
)
    ensures
        filed_under(marked_in(groups, key, marked_path), other, path) == filed_under(
            groups,
            other,
            path,
        ),
        crowded(marked_in(groups, key, marked_path), other) == crowded(groups, other),
{
    if other == key && groups.contains_key(key) {
        let group = groups[key];
        let after = marked(group, marked_path);
        if has_path(group, path) {
            let i = choose|i: int| 0 <= i < group.len() && #[trigger] group[i].path == path;
            assert(after[i].path == path);
        }
        if has_path(after, path) {
            let i = choose|i: int| 0 <= i < after.len() && #[trigger] after[i].path == path;
            assert(group[i].path == path);
        }
    }
}

/// The size stage files every queued path under its byte length, and keeps
/// what was filed before: in whatever order the queue held the files.
pub proof fn lemma_sized_up_membership(
    groups: Groups<u64>,
    queue: Seq<FileRecord>,
    key: u64,
    path: Seq<char>,
)
    ensures
        filed_under(sized_up(groups, queue), key, path) == (filed_under(groups, key, path)
            || found_at(queue, key, path)),
    decreases queue.len(),
{
    if queue.len() > 0 {
        let last = queue.last();
        let rest = queue.drop_last();
        let next = upserted(groups, last.size, last);
        lemma_sized_up_membership(next, rest, key, path);
        lemma_upserted_membership(groups, last.size, last, key, path);
        if found_at(rest, key, path) {
            let i = choose|i: int|
                0 <= i < rest.len() && (#[trigger] rest[i]).size == key && rest[i].path == path;
            assert(queue[i].size == key && queue[i].path == path);
        }
        if last.size == key && last.path == path {
            assert(queue[queue.len() - 1].size == key);
        }
        if found_at(queue, key, path) {
            let i = choose|i: int|
                0 <= i < queue.len() && (#[trigger] queue[i]).size == key && queue[i].path == path;
            if i < rest.len() {
                assert(rest[i].size == key && rest[i].path == path);
            }
        }
    }
}

/// A group without repeated paths has more than one member exactly when it
/// holds two different paths.
pub proof fn lemma_crowded_by_paths<K>(groups: Groups<K>, key: K)
    requires
        paths_unique(groups),
    ensures
        crowded(groups, key) == (exists|p: Seq<char>, q: Seq<char>|
            p != q && #[trigger] filed_under(groups, key, p) && #[trigger] filed_under(
                groups,
                key,
                q,
            )),
{
    if crowded(groups, key) {
        let group = groups[key];
        assert(groups.contains_key(key));
        assert(distinct_paths(group));
        assert(group[0].path != group[1].path);
        assert(filed_under(groups, key, group[0].path));
        assert(filed_under(groups, key, group[1].path));
    }
    if exists|p: Seq<char>, q: Seq<char>|
        p != q && #[trigger] filed_under(groups, key, p) && #[trigger] filed_under(groups, key, q) {
        let (p, q) = choose|p: Seq<char>, q: Seq<char>|
            p != q && #[trigger] filed_under(groups, key, p) && #[trigger] filed_under(
                groups,
                key,
                q,
            );
        let group = groups[key];
        let i = choose|i: int| 0 <= i < group.len() && #[trigger] group[i].path == p;
        let j = choose|j: int| 0 <= j < group.len() && #[trigger] group[j].path == q;
        assert(i != j);
    }
}

/// Stores without repeated paths that file the same paths under the same
/// keys have their crowded groups under the same keys.
pub proof fn lemma_same_membership_same_crowds<K>(a: Groups<K>, b: Groups<K>, key: K)
    requires
        paths_unique(a),
        paths_unique(b),
        same_membership(a, b),
    ensures
        crowded(a, key) == crowded(b, key),
{
    lemma_crowded_by_paths(a, key);
    lemma_crowded_by_paths(b, key);
    if crowded(a, key) {
        let (p, q) = choose|p: Seq<char>, q: Seq<char>|
            p != q && #[trigger] filed_under(a, key, p) && #[trigger] filed_under(a, key, q);
        assert(filed_under(b, key, p) && filed_under(b, key, q));
    }
    if crowded(b, key) {
        let (p, q) = choose|p: Seq<char>, q: Seq<char>|
            p != q && #[trigger] filed_under(b, key, p) && #[trigger] filed_under(b, key, q);
        assert(filed_under(a, key, p) && filed_under(a, key, q));
    }
}

} // verus!
