use vstd::prelude::*;

use crate::digest::full_digest;
use crate::fileinfo::{FileRecord, FileSource};
use crate::group::has_path;
use crate::membership::{filed_under, lemma_upserted_membership, lemma_with_file_paths};
use crate::stage::content_at;
use crate::store::{lists, upserted, Groups, Listing};
use crate::text::{instances_heading, listed};

verus! {

/// The mathematical value of a comparison's result.
pub struct Verdict {
    pub files_to_delete: Seq<FileRecord>,
    pub warnings: Seq<Seq<char>>,
}

/// The members of `group` that were discovered in the tree `source`, in their order.
pub open spec fn from_tree(group: Seq<FileRecord>, source: FileSource) -> Seq<FileRecord>
    decreases group.len(),
{
    if group.len() == 0 {
        seq![]
    } else if group.last().source == Some(source) {
        from_tree(group.drop_last(), source).push(group.last())
    } else {
        from_tree(group.drop_last(), source)
    }
}

/// One line for each of `files`, naming its path.
pub open spec fn path_lines(files: Seq<FileRecord>) -> Seq<Seq<char>> {
    Seq::new(files.len(), |i: int| listed(files[i].path))
}

/// The staging files of `group` that may go: all of them where the group also
/// has a member in the target tree, none otherwise.
pub open spec fn group_deletions(group: Seq<FileRecord>) -> Seq<FileRecord> {
    if from_tree(group, FileSource::Staging).len() > 0 && from_tree(
        group,
        FileSource::Target,
    ).len() > 0 {
        from_tree(group, FileSource::Staging)
    } else {
        seq![]
    }
}

/// The warning that `group` gives rise to: where it has more than one member
/// in the target tree, a heading with their number and a line for each.
pub open spec fn group_warnings(group: Seq<FileRecord>) -> Seq<Seq<char>> {
    let targets = from_tree(group, FileSource::Target);
    if targets.len() > 1 {
        seq![instances_heading(targets.len())] + path_lines(targets)
    } else {
        seq![]
    }
}

/// What a walk over the digest-keyed groups comes to, group by group.
pub open spec fn classified(list: Listing<u128>) -> Verdict
    decreases list.len(),
{
    if list.len() == 0 {
        Verdict { files_to_delete: seq![], warnings: seq![] }
    } else {
        let before = classified(list.drop_last());
        Verdict {
            files_to_delete: before.files_to_delete + group_deletions(list.last().1),
            warnings: before.warnings + group_warnings(list.last().1),
        }
    }
}

/// The digest-keyed groups of `files`, each filed in its turn under the full
/// digest of what was read of it; a file that could not be read is left out.
pub open spec fn indexed(
    files: Seq<FileRecord>,
    contents: Seq<Option<Seq<u8>>>,
    seed: i64,
) -> Groups<u128>
    decreases files.len(),
{
    if files.len() == 0 {
        Map::empty()
    } else {
        let before = indexed(files.drop_last(), contents, seed);
        match content_at(contents, files.len() - 1) {
            Some(bytes) => upserted(before, full_digest(bytes, seed), files.last()),
            None => before,
        }
    }
}

/// Whether `group` has a member that was discovered in the tree `source`.
pub open spec fn has_from(group: Seq<FileRecord>, source: FileSource) -> bool {
    exists|i: int| 0 <= i < group.len() && (#[trigger] group[i]).source == Some(source)
}

/// Whether `file` is a staging member of `group` and `group` has a member in
/// the target tree.
pub open spec fn goes(group: Seq<FileRecord>, file: FileRecord) -> bool {
    group.contains(file) && file.source == Some(FileSource::Staging) && has_from(
        group,
        FileSource::Target,
    )
}

/// The members of a group from one tree are its members with that tag.
pub proof fn lemma_from_tree_members(group: Seq<FileRecord>, source: FileSource, file: FileRecord)
    ensures
        from_tree(group, source).contains(file) == (group.contains(file) && file.source == Some(
            source,
        )),
        (from_tree(group, source).len() > 0) == has_from(group, source),
    decreases group.len(),
{
    if group.len() > 0 {
        let front = group.drop_last();
        let last = group.last();
        lemma_from_tree_members(front, source, file);
        let found = from_tree(front, source);
        let all = from_tree(group, source);
        if group.contains(file) {
            let i = choose|i: int| 0 <= i < group.len() && group[i] == file;
            if i < front.len() {
                assert(front[i] == file);
            }
        }
        if front.contains(file) {
            let i = choose|i: int| 0 <= i < front.len() && front[i] == file;
            assert(group[i] == file);
        }
        if has_from(front, source) {
            let i = choose|i: int| 0 <= i < front.len() && (#[trigger] front[i]).source == Some(source);
            assert(group[i].source == Some(source));
        }
        if has_from(group, source) {
            let i = choose|i: int| 0 <= i < group.len() && (#[trigger] group[i]).source == Some(source);
            if i < front.len() {
                assert(front[i].source == Some(source));
            }
        }
        if last.source == Some(source) {
            assert(group[group.len() - 1].source == Some(source));
            assert(all[found.len() as int] == last);
            assert(group[group.len() - 1] == last);
            if all.contains(file) {
                let i = choose|i: int| 0 <= i < all.len() && all[i] == file;
                if i < found.len() {
                    assert(found[i] == file);
                }
            }
            if found.contains(file) {
                let i = choose|i: int| 0 <= i < found.len() && found[i] == file;
                assert(all[i] == file);
            }
        }
    }
}

/// A file is marked for deletion exactly when it goes with one of the groups met.
pub proof fn lemma_deletions_by_group(list: Listing<u128>, file: FileRecord)
    ensures
        classified(list).files_to_delete.contains(file) == (exists|j: int|
            0 <= j < list.len() && goes((#[trigger] list[j]).1, file)),
    decreases list.len(),
{
    if list.len() > 0 {
        let front = list.drop_last();
        let group = list.last().1;
        let before = classified(front).files_to_delete;
        let here = group_deletions(group);
        let all = classified(list).files_to_delete;
        lemma_deletions_by_group(front, file);
        lemma_from_tree_members(group, FileSource::Staging, file);
        lemma_from_tree_members(group, FileSource::Target, file);
        assert(here.contains(file) == goes(group, file));
        if all.contains(file) {
            let i = choose|i: int| 0 <= i < all.len() && all[i] == file;
            if i < before.len() {
                assert(before[i] == file);
            } else {
                assert(here[i - before.len()] == file);
            }
        }
        if before.contains(file) {
            let i = choose|i: int| 0 <= i < before.len() && before[i] == file;
            assert(all[i] == file);
        }
        if here.contains(file) {
            let i = choose|i: int| 0 <= i < here.len() && here[i] == file;
            assert(all[before.len() + i] == file);
        }
        if exists|j: int| 0 <= j < front.len() && goes((#[trigger] front[j]).1, file) {
            let j = choose|j: int| 0 <= j < front.len() && goes((#[trigger] front[j]).1, file);
            assert(goes(list[j].1, file));
        }
        if goes(group, file) {
            assert(goes(list[list.len() - 1].1, file));
        }
        if exists|j: int| 0 <= j < list.len() && goes((#[trigger] list[j]).1, file) {
            let j = choose|j: int| 0 <= j < list.len() && goes((#[trigger] list[j]).1, file);
            if j < front.len() {
                assert(goes(front[j].1, file));
            }
        }
    } else {
        assert(!classified(list).files_to_delete.contains(file));
    }
}

/// In whatever order the groups are met, a file is marked for deletion
/// exactly when it is a staging member of a group that has a member in the
/// target tree.
pub proof fn deletions_are_staging_copies(
    list: Listing<u128>,
    groups: Groups<u128>,
    file: FileRecord,
)
    requires
        lists(list, groups),
    ensures
        classified(list).files_to_delete.contains(file) == (exists|key: u128| #[trigger]
            groups.contains_key(key) && goes(groups[key], file)),
{
    lemma_deletions_by_group(list, file);
    if exists|j: int| 0 <= j < list.len() && goes((#[trigger] list[j]).1, file) {
        let j = choose|j: int| 0 <= j < list.len() && goes((#[trigger] list[j]).1, file);
        assert(groups.contains_key(list[j].0) && goes(groups[list[j].0], file));
    }
    if exists|key: u128| #[trigger] groups.contains_key(key) && goes(groups[key], file) {
        let key = choose|key: u128| #[trigger] groups.contains_key(key) && goes(groups[key], file);
        let j = choose|j: int| 0 <= j < list.len() && (#[trigger] list[j]).0 == key;
        assert(goes(list[j].1, file));
    }
}

/// No file of the target tree, and no file without a tree, is ever marked
/// for deletion.
pub proof fn only_staging_files_go(list: Listing<u128>)
    ensures
        forall|i: int|
            0 <= i < classified(list).files_to_delete.len() ==> (
            #[trigger] classified(list).files_to_delete[i]).source == Some(FileSource::Staging),
{
    let gone = classified(list).files_to_delete;
    assert forall|i: int| 0 <= i < gone.len() implies (#[trigger] gone[i]).source == Some(
        FileSource::Staging,
    ) by {
        lemma_deletions_by_group(list, gone[i]);
        assert(gone.contains(gone[i]));
    }
}

/// A group with more than one member in the target tree gives a warning that
/// names their number, in whatever order the groups are met.
pub proof fn repeated_target_content_warns(list: Listing<u128>, groups: Groups<u128>, key: u128)
    requires
        lists(list, groups),
        groups.contains_key(key),
        from_tree(groups[key], FileSource::Target).len() > 1,
    ensures
        classified(list).warnings.contains(
            instances_heading(from_tree(groups[key], FileSource::Target).len()),
        ),
{
    let j = choose|j: int| 0 <= j < list.len() && (#[trigger] list[j]).0 == key;
    lemma_warning_of_group(list, j);
}

proof fn lemma_warning_of_group(list: Listing<u128>, j: int)
    requires
        0 <= j < list.len(),
        from_tree(list[j].1, FileSource::Target).len() > 1,
    ensures
        classified(list).warnings.contains(
            instances_heading(from_tree(list[j].1, FileSource::Target).len()),
        ),
    decreases list.len(),
{
    let front = list.drop_last();
    let before = classified(front).warnings;
    let all = classified(list).warnings;
    let heading = instances_heading(from_tree(list[j].1, FileSource::Target).len());
    if j < front.len() {
        assert(front[j] == list[j]);
        lemma_warning_of_group(front, j);
        let i = choose|i: int| 0 <= i < before.len() && before[i] == heading;
        assert(all[i] == heading);
    } else {
        assert(group_warnings(list.last().1)[0] == heading);
        assert(all[before.len() as int] == heading);
    }
}

/// Every path in an index is the path of one of the indexed files.
pub proof fn lemma_indexed_paths(
    files: Seq<FileRecord>,
    contents: Seq<Option<Seq<u8>>>,
    seed: i64,
    digest: u128,
    path: Seq<char>,
)
    requires
        filed_under(indexed(files, contents, seed), digest, path),
    ensures
        has_path(files, path),
    decreases files.len(),
{
    if files.len() > 0 {
        let front = files.drop_last();
        let before = indexed(front, contents, seed);
        match content_at(contents, files.len() - 1) {
            Some(bytes) => {
                lemma_upserted_membership(
                    before,
                    full_digest(bytes, seed),
                    files.last(),
                    digest,
                    path,
                );
            },
            None => {},
        }
        if filed_under(before, digest, path) {
            lemma_indexed_paths(front, contents, seed, digest, path);
            let i = choose|i: int| 0 <= i < front.len() && #[trigger] front[i].path == path;
            assert(files[i].path == path);
        } else {
            assert(files[files.len() - 1].path == path);
        }
    }
}

/// Where no two files share a path, every file that could be read is a
/// member of the group under its full digest.
pub proof fn lemma_indexed_holds_readable(
    files: Seq<FileRecord>,
    contents: Seq<Option<Seq<u8>>>,
    seed: i64,
    i: int,
)
    requires
        0 <= i < files.len(),
        forall|a: int, b: int|
            0 <= a < b < files.len() ==> #[trigger] files[a].path != #[trigger] files[b].path,
        content_at(contents, i) is Some,
    ensures
        indexed(files, contents, seed).contains_key(
            full_digest(content_at(contents, i)->Some_0, seed),
        ),
        indexed(files, contents, seed)[full_digest(
            content_at(contents, i)->Some_0,
            seed,
        )].contains(files[i]),
    decreases files.len(),
{
    let front = files.drop_last();
    let last = files.last();
    let before = indexed(front, contents, seed);
    let digest = full_digest(content_at(contents, i)->Some_0, seed);
    if i < front.len() {
        assert(front[i] == files[i]);
        assert forall|a: int, b: int| 0 <= a < b < front.len() implies #[trigger] front[a].path
            != #[trigger] front[b].path by {
            assert(files[a].path != files[b].path);
        }
        lemma_indexed_holds_readable(front, contents, seed, i);
        let at = choose|at: int| 0 <= at < before[digest].len() && before[digest][at] == files[i];
        match content_at(contents, files.len() - 1) {
            Some(bytes) => {
                if full_digest(bytes, seed) == digest {
                    lemma_with_file_paths(before[digest], last, last.path);
                    assert(indexed(files, contents, seed)[digest][at] == files[i]);
                }
            },
            None => {},
        }
    } else {
        if before.contains_key(digest) {
            if has_path(before[digest], last.path) {
                lemma_indexed_paths(front, contents, seed, digest, last.path);
                let a = choose|a: int| 0 <= a < front.len() && #[trigger] front[a].path == last.path;
                assert(files[a].path != files[files.len() - 1].path);
            }
            assert(indexed(files, contents, seed)[digest][before[digest].len() as int] == last);
        } else {
            assert(indexed(files, contents, seed)[digest][0] == last);
        }
    }
}

/// A staging file whose content is also the content of a target file is
/// marked for deletion: for every seed, and in whatever order the groups
/// are met, as long as no two of the files compared share a path.
pub proof fn staging_copy_of_target_goes(
    files: Seq<FileRecord>,
    contents: Seq<Option<Seq<u8>>>,
    seed: i64,
    list: Listing<u128>,
    staged: int,
    kept: int,
)
    requires
        forall|a: int, b: int|
            0 <= a < b < files.len() ==> #[trigger] files[a].path != #[trigger] files[b].path,
        lists(list, indexed(files, contents, seed)),
        0 <= staged < files.len(),
        0 <= kept < files.len(),
        files[staged].source == Some(FileSource::Staging),
        files[kept].source == Some(FileSource::Target),
        content_at(contents, staged) is Some,
        content_at(contents, staged) == content_at(contents, kept),
    ensures
        classified(list).files_to_delete.contains(files[staged]),
{
    let groups = indexed(files, contents, seed);
    let digest = full_digest(content_at(contents, staged)->Some_0, seed);
    lemma_indexed_holds_readable(files, contents, seed, staged);
    lemma_indexed_holds_readable(files, contents, seed, kept);
    let group = groups[digest];
    let at = choose|at: int| 0 <= at < group.len() && group[at] == files[kept];
    assert(group[at].source == Some(FileSource::Target));
    assert(goes(group, files[staged]));
    deletions_are_staging_copies(list, groups, files[staged]);
}

} // verus!
