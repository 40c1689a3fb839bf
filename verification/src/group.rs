use vstd::prelude::*;

use crate::fileinfo::{FileInfo, FileRecord};

verus! {

/// Whether some member of `group` lies at `path`.
pub open spec fn has_path(group: Seq<FileRecord>, path: Seq<char>) -> bool {
    exists|i: int| 0 <= i < group.len() && #[trigger] group[i].path == path
}

/// No two members of `group` lie at the same path.
pub open spec fn distinct_paths(group: Seq<FileRecord>) -> bool {
    forall|i: int, j: int|
        0 <= i < j < group.len() ==> #[trigger] group[i].path != #[trigger] group[j].path
}

/// `group` after `file` has asked to join it: a path joins a group only once.
pub open spec fn with_file(group: Seq<FileRecord>, file: FileRecord) -> Seq<FileRecord> {
    if has_path(group, file.path) {
        group
    } else {
        group.push(file)
    }
}

/// `file` as the hash stage leaves it.
pub open spec fn taken_up(file: FileRecord) -> FileRecord {
    FileRecord { processed: true, ..file }
}

/// `group` after the hash stage has taken up its members at `path`.
pub open spec fn marked(group: Seq<FileRecord>, path: Seq<char>) -> Seq<FileRecord> {
    Seq::new(
        group.len(),
        |i: int|
            if group[i].path == path {
                taken_up(group[i])
            } else {
                group[i]
            },
    )
}

/// Whether every member of `group` has been taken up by the hash stage.
pub open spec fn all_processed(group: Seq<FileRecord>) -> bool {
    forall|i: int| 0 <= i < group.len() ==> (#[trigger] group[i]).processed
}

/// A group waits for the hash stage when it has more than one member and one
/// of them has not been taken up yet.
pub open spec fn awaits_hashing(group: Seq<FileRecord>) -> bool {
    group.len() > 1 && !all_processed(group)
}

/// Whether some member of `group` lies at `path`.
pub fn contains_path(group: &Vec<FileInfo>, path: &String) -> (found: bool)
    ensures
        found == has_path(group.deep_view(), path@),
{
    let mut i: usize = 0;
    while i < group.len()
        invariant
            i <= group.len(),
            forall|k: int| 0 <= k < i ==> (#[trigger] group.deep_view()[k]).path != path@,
        decreases group.len() - i,
    {
        if group[i].path == *path {
            assert(group.deep_view()[i as int].path == path@);
            return true;
        }
        i += 1;
    }
    false
}

/// Whether the hash stage has taken up every member of `group`.
pub fn every_member_processed(group: &Vec<FileInfo>) -> (all: bool)
    ensures
        all == all_processed(group.deep_view()),
{
    let mut i: usize = 0;
    while i < group.len()
        invariant
            i <= group.len(),
            forall|k: int| 0 <= k < i ==> (#[trigger] group.deep_view()[k]).processed,
        decreases group.len() - i,
    {
        if !group[i].is_sw_processed() {
            assert(!group.deep_view()[i as int].processed);
            return false;
        }
        i += 1;
    }
    true
}

/// Appends a copy of `file` to `group` unless its path is already there.
pub fn add_if_new_path(group: &mut Vec<FileInfo>, file: &FileInfo)
    ensures
        final(group).deep_view() == with_file(old(group).deep_view(), file@),
{
    if !contains_path(group, &file.path) {
        group.push(file.clone());
        assert(group.deep_view() =~= old(group).deep_view().push(file@));
    }
}

/// A group whose only member is a copy of `file`.
pub fn single(file: &FileInfo) -> (group: Vec<FileInfo>)
    ensures
        group.deep_view() == seq![file@],
{
    let mut group: Vec<FileInfo> = Vec::new();
    group.push(file.clone());
    assert(group.deep_view() =~= seq![file@]);
    group
}

/// Marks the members of `group` at `path` as taken up by the hash stage.
pub fn mark_path(group: &mut Vec<FileInfo>, path: &String)
    ensures
        final(group).deep_view() == marked(old(group).deep_view(), path@),
{
    let mut i: usize = 0;
    while i < group.len()
        invariant
            i <= group.len(),
            group.len() == old(group).len(),
            forall|k: int|
                0 <= k < i ==> (#[trigger] group@[k])@ == marked(old(group).deep_view(), path@)[k],
            forall|k: int| i <= k < group.len() ==> #[trigger] group@[k] == old(group)@[k],
        decreases group.len() - i,
    {
        let ghost before = group@;
        if group[i].path == *path {
            group[i].sw_processed();
            assert(forall|k: int| 0 <= k < group.len() && k != i ==> group@[k] == before[k]);
        }
        i += 1;
    }
    assert(group.deep_view() =~= marked(old(group).deep_view(), path@));
}

} // verus!
