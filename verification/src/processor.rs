use dashmap::DashMap;
use vstd::prelude::*;

use crate::account::{drawn_from, pending_is_drawn_from_store};
use crate::comparison::{
    classified, from_tree, group_deletions, group_warnings, indexed, only_staging_files_go,
    path_lines, Verdict,
};
use crate::digest::{fresh_seed, full_hash, stage_hash};
use crate::fileinfo::{FileInfo, FileRecord, FileSource};
use crate::group::{awaits_hashing, every_member_processed};
use crate::stage::{
    group_jobs, has_pending, hashed_all, lemma_hashed_all_keeps_shape, lemma_pending_empty,
    lemma_pending_scan, pending_in, sized_up, unprocessed, wider, StageState,
};
use crate::store::{
    hash_groups, into_hash_entries, keyed_by_size, lists, mark_by_size, new_hash_store,
    paths_unique, put_by_hash, put_by_size, size_entries, size_groups, Listing,
};
use crate::store_laws::{
    lemma_indexed_unique, lemma_upserted_keeps_sizes, lemma_upserted_keeps_unique,
};
use crate::text::{count_graphemes, instances_warning, listed_path};

verus! {

/// Appends copies of the unprocessed members of `group` to `jobs`.
fn push_unprocessed(jobs: &mut Vec<FileInfo>, group: &Vec<FileInfo>)
    ensures
        final(jobs).deep_view() == old(jobs).deep_view() + unprocessed(group.deep_view()),
{
    let mut i: usize = 0;
    assert(group.deep_view().take(0) =~= Seq::<FileRecord>::empty());
    assert(jobs.deep_view() =~= old(jobs).deep_view() + unprocessed(group.deep_view().take(0)));
    while i < group.len()
        invariant
            i <= group.len(),
            jobs.deep_view() == old(jobs).deep_view() + unprocessed(
                group.deep_view().take(i as int),
            ),
        decreases group.len() - i,
    {
        let ghost before = jobs.deep_view();
        proof {
            let upto = group.deep_view().take(i + 1);
            assert(upto.drop_last() =~= group.deep_view().take(i as int));
            assert(upto.last() == group@[i as int]@);
        }
        if !group[i].is_sw_processed() {
            jobs.push(group[i].clone());
            assert(jobs.deep_view() =~= before.push(group@[i as int]@));
        }
        assert(jobs.deep_view() =~= old(jobs).deep_view() + unprocessed(
            group.deep_view().take(i + 1),
        ));
        i += 1;
    }
    assert(group.deep_view().take(group.len() as int) =~= group.deep_view());
}

/// Whether none of the groups that `entries` lists waits for the hash stage.
fn none_waiting(entries: &Vec<(u64, Vec<FileInfo>)>) -> (none: bool)
    ensures
        none == !(exists|i: int|
            0 <= i < entries.len() && awaits_hashing((#[trigger] entries.deep_view()[i]).1)),
{
    let mut i: usize = 0;
    while i < entries.len()
        invariant
            i <= entries.len(),
            forall|k: int| 0 <= k < i ==> !awaits_hashing((#[trigger] entries.deep_view()[k]).1),
        decreases entries.len() - i,
    {
        let group = &entries[i].1;
        assert(entries.deep_view()[i as int].1 == group.deep_view());
        if group.len() > 1 && !every_member_processed(group) {
            return false;
        }
        i += 1;
    }
    true
}

/// What a comparison of a staging tree with a target tree comes to: the
/// staging files that have a copy in the target tree, and warnings.
#[derive(Debug)]
pub struct ComparisonResult {
    pub files_to_delete: Vec<FileInfo>,
    pub warnings: Vec<String>,
}

impl View for ComparisonResult {
    type V = Verdict;

    open spec fn view(&self) -> Verdict {
        Verdict {
            files_to_delete: self.files_to_delete.deep_view(),
            warnings: self.warnings.deep_view(),
        }
    }
}

impl Clone for ComparisonResult {
    fn clone(&self) -> (copy: Self)
        ensures
            copy@ == self@,
    {
        let files_to_delete = self.files_to_delete.clone();
        let warnings = self.warnings.clone();
        assert(files_to_delete.deep_view() =~= self.files_to_delete.deep_view());
        assert(warnings.deep_view() =~= self.warnings.deep_view());
        ComparisonResult { files_to_delete, warnings }
    }
}

/// Whether `file` was discovered in the tree `source`.
fn is_from(file: &FileInfo, source: FileSource) -> (yes: bool)
    ensures
        yes == (file@.source == Some(source)),
{
    match file.source {
        Some(FileSource::Staging) => match source {
            FileSource::Staging => true,
            FileSource::Target => false,
        },
        Some(FileSource::Target) => match source {
            FileSource::Staging => false,
            FileSource::Target => true,
        },
        None => false,
    }
}

/// Copies of the members of `group` that were discovered in the staging tree.
fn staging_members(group: &Vec<FileInfo>) -> (members: Vec<FileInfo>)
    ensures
        members.deep_view() == from_tree(group.deep_view(), FileSource::Staging),
{
    let mut members: Vec<FileInfo> = Vec::new();
    let mut i: usize = 0;
    assert(group.deep_view().take(0) =~= Seq::<FileRecord>::empty());
    assert(members.deep_view() =~= Seq::<FileRecord>::empty());
    while i < group.len()
        invariant
            i <= group.len(),
            members.deep_view() == from_tree(
                group.deep_view().take(i as int),
                FileSource::Staging,
            ),
        decreases group.len() - i,
    {
        let ghost before = members.deep_view();
        proof {
            let upto = group.deep_view().take(i + 1);
            assert(upto.drop_last() =~= group.deep_view().take(i as int));
            assert(upto.last() == group@[i as int]@);
        }
        if is_from(&group[i], FileSource::Staging) {
            members.push(group[i].clone());
            assert(members.deep_view() =~= before.push(group@[i as int]@));
        }
        i += 1;
    }
    assert(group.deep_view().take(group.len() as int) =~= group.deep_view());
    members
}

/// One line for each member of `group` that was discovered in the target tree.
fn target_lines(group: &Vec<FileInfo>) -> (lines: Vec<String>)
    ensures
        lines.deep_view() == path_lines(from_tree(group.deep_view(), FileSource::Target)),
{
    let mut lines: Vec<String> = Vec::new();
    let mut i: usize = 0;
    assert(group.deep_view().take(0) =~= Seq::<FileRecord>::empty());
    assert(lines.deep_view() =~= path_lines(Seq::<FileRecord>::empty()));
    while i < group.len()
        invariant
            i <= group.len(),
            lines.deep_view() == path_lines(
                from_tree(group.deep_view().take(i as int), FileSource::Target),
            ),
        decreases group.len() - i,
    {
        let ghost before = lines.deep_view();
        let ghost found = from_tree(group.deep_view().take(i as int), FileSource::Target);
        proof {
            let upto = group.deep_view().take(i + 1);
            assert(upto.drop_last() =~= group.deep_view().take(i as int));
            assert(upto.last() == group@[i as int]@);
        }
        if is_from(&group[i], FileSource::Target) {
            let line = listed_path(&group[i].path);
            lines.push(line);
            assert(lines.deep_view() =~= before.push(line@));
            assert(before.push(line@) =~= path_lines(found.push(group@[i as int]@)));
        }
        i += 1;
    }
    assert(group.deep_view().take(group.len() as int) =~= group.deep_view());
    lines
}

/// The stages of the grouping pipeline, and the comparison of two trees.
pub struct Processor {
    pub files: Vec<FileInfo>,
}

impl Processor {
    /// A processor over the files of one combined, source-tagged discovery.
    pub fn new(files: Vec<FileInfo>) -> (processor: Self)
        ensures
            processor.files == files,
    {
        Self { files }
    }

    /// Raises the display width to `next` where `next` is larger; the width
    /// never shrinks.
    pub fn compare_and_update_max_path_len(current: &mut u64, next: u64)
        ensures
            *final(current) == wider(*old(current), next),
    {
        if *current < next {
            *current = next;
        }
    }

    /// One run of the size stage: drains the queue into the size-keyed store.
    /// The stage is finished when discovery had finished before the run, since
    /// nothing can then arrive behind the files just drained.
    pub fn sizewise(
        scanner_finished: bool,
        store: &mut DashMap<u64, Vec<FileInfo>>,
        files: &mut Vec<FileInfo>,
    ) -> (finished: bool)
        ensures
            finished == scanner_finished,
            final(files)@.len() == 0,
            size_groups(*final(store)) == sized_up(
                size_groups(*old(store)),
                old(files).deep_view(),
            ),
            keyed_by_size(size_groups(*old(store))) ==> keyed_by_size(size_groups(*final(store))),
            paths_unique(size_groups(*old(store))) ==> paths_unique(size_groups(*final(store))),
    {
        loop
            invariant
                sized_up(size_groups(*store), files.deep_view()) == sized_up(
                    size_groups(*old(store)),
                    old(files).deep_view(),
                ),
                keyed_by_size(size_groups(*old(store))) ==> keyed_by_size(size_groups(*store)),
                paths_unique(size_groups(*old(store))) ==> paths_unique(size_groups(*store)),
            decreases files.len(),
        {
            let ghost queue = files.deep_view();
            let ghost groups = size_groups(*store);
            match files.pop() {
                Some(file) => {
                    proof {
                        assert(queue.last() == file@);
                        assert(files.deep_view() =~= queue.drop_last());
                        if keyed_by_size(groups) {
                            lemma_upserted_keeps_sizes(groups, file@);
                        }
                        if paths_unique(groups) {
                            lemma_upserted_keeps_unique(groups, file.size, file@);
                        }
                    }
                    put_by_size(store, file.size, &file);
                },
                None => {
                    return scanner_finished;
                },
            }
        }
    }

    /// The files that one walk over the size-keyed store gives the hash stage
    /// to do: group by group as `entries` lists them, the unprocessed members
    /// of each group that has more than one member.
    pub fn select_pending(entries: &Vec<(u64, Vec<FileInfo>)>) -> (jobs: Vec<FileInfo>)
        ensures
            jobs.deep_view() == pending_in(entries.deep_view()),
    {
        let mut jobs: Vec<FileInfo> = Vec::new();
        let mut i: usize = 0;
        assert(entries.deep_view().take(0) =~= Listing::<u64>::empty());
        assert(jobs.deep_view() =~= pending_in(entries.deep_view().take(0)));
        while i < entries.len()
            invariant
                i <= entries.len(),
                jobs.deep_view() == pending_in(entries.deep_view().take(i as int)),
            decreases entries.len() - i,
        {
            proof {
                let upto = entries.deep_view().take(i + 1);
                assert(upto.drop_last() =~= entries.deep_view().take(i as int));
                assert(upto.last().1 == entries@[i as int].1.deep_view());
            }
            let group = &entries[i].1;
            if group.len() > 1 && !every_member_processed(group) {
                push_unprocessed(&mut jobs, group);
            } else {
                assert(jobs.deep_view() + group_jobs(group.deep_view()) =~= jobs.deep_view());
            }
            i += 1;
        }
        assert(entries.deep_view().take(entries.len() as int) =~= entries.deep_view());
        jobs
    }

    /// The files that the hash stage has to take up next. Their order follows
    /// a walk over the store, which is not fixed; there are none exactly when
    /// no group waits for the stage, and each lies in a group with more than
    /// one member.
    pub fn pending(sw_store: &DashMap<u64, Vec<FileInfo>>) -> (jobs: Vec<FileInfo>)
        ensures
            exists|list: Listing<u64>|
                lists(list, size_groups(*sw_store)) && jobs.deep_view() == pending_in(list),
            (jobs@.len() == 0) == !has_pending(size_groups(*sw_store)),
            keyed_by_size(size_groups(*sw_store)) ==> drawn_from(
                jobs.deep_view(),
                size_groups(*sw_store),
            ),
    {
        let entries = size_entries(sw_store);
        let jobs = Self::select_pending(&entries);
        proof {
            lemma_pending_empty(entries.deep_view(), size_groups(*sw_store));
            if keyed_by_size(size_groups(*sw_store)) {
                pending_is_drawn_from_store(entries.deep_view(), size_groups(*sw_store));
            }
        }
        jobs
    }

    /// One pass of the hash stage over `jobs`, the job at each position with
    /// what was read of it at that position in `contents`. Every job is marked
    /// as processed in its size group. One that could be read is filed under
    /// its digest, of its leading region or in strict mode of all of it, and
    /// the display width grows to its path's. One that could not be read is
    /// left out of the digest-keyed store.
    ///
    /// The stage is finished when the size stage had finished before the pass
    /// and, after it, no size group waits any more.
    pub fn hashwise(
        strict: bool,
        sw_store: &mut DashMap<u64, Vec<FileInfo>>,
        hw_store: &mut DashMap<u128, Vec<FileInfo>>,
        max_file_size: &mut u64,
        seed: i64,
        sw_sorting_finished: bool,
        jobs: &Vec<FileInfo>,
        contents: &Vec<Option<Vec<u8>>>,
    ) -> (finished: bool)
        ensures
            (StageState {
                sizes: size_groups(*final(sw_store)),
                hashes: hash_groups(*final(hw_store)),
                width: *final(max_file_size),
            }) == hashed_all(
                strict,
                seed,
                (StageState {
                    sizes: size_groups(*old(sw_store)),
                    hashes: hash_groups(*old(hw_store)),
                    width: *old(max_file_size),
                }),
                jobs.deep_view(),
                contents.deep_view(),
            ),
            finished == (sw_sorting_finished && !has_pending(size_groups(*final(sw_store)))),
            paths_unique(size_groups(*old(sw_store))) ==> paths_unique(
                size_groups(*final(sw_store)),
            ),
            keyed_by_size(size_groups(*old(sw_store))) ==> keyed_by_size(
                size_groups(*final(sw_store)),
            ),
            paths_unique(hash_groups(*old(hw_store))) ==> paths_unique(
                hash_groups(*final(hw_store)),
            ),
            *old(max_file_size) <= *final(max_file_size),
    {
        let ghost start = StageState {
            sizes: size_groups(*sw_store),
            hashes: hash_groups(*hw_store),
            width: *max_file_size,
        };
        let mut i: usize = 0;
        assert(jobs.deep_view().take(0) =~= Seq::<FileRecord>::empty());
        while i < jobs.len()
            invariant
                i <= jobs.len(),
                (StageState {
                    sizes: size_groups(*sw_store),
                    hashes: hash_groups(*hw_store),
                    width: *max_file_size,
                }) == hashed_all(
                    strict,
                    seed,
                    start,
                    jobs.deep_view().take(i as int),
                    contents.deep_view(),
                ),
            decreases jobs.len() - i,
        {
            proof {
                let upto = jobs.deep_view().take(i + 1);
                assert(upto.drop_last() =~= jobs.deep_view().take(i as int));
                assert(upto.last() == jobs@[i as int]@);
            }
            let job = &jobs[i];
            mark_by_size(sw_store, job.size, &job.path);
            if i < contents.len() {
                match &contents[i] {
                    Some(bytes) => {
                        assert(bytes.deep_view() =~= bytes@);
                        let digest = stage_hash(strict, bytes.as_slice(), seed);
                        let width = count_graphemes(job.path.as_str());
                        Self::compare_and_update_max_path_len(max_file_size, width as u64);
                        let mut taken = job.clone();
                        taken.sw_processed();
                        put_by_hash(hw_store, digest, &taken);
                    },
                    None => {},
                }
            }
            i += 1;
        }
        assert(jobs.deep_view().take(jobs.len() as int) =~= jobs.deep_view());
        proof {
            lemma_hashed_all_keeps_shape(
                strict,
                seed,
                start,
                jobs.deep_view(),
                contents.deep_view(),
            );
        }
        if !sw_sorting_finished {
            return false;
        }
        let entries = size_entries(sw_store);
        proof {
            lemma_pending_scan(entries.deep_view());
            lemma_pending_empty(entries.deep_view(), size_groups(*sw_store));
        }
        none_waiting(&entries)
    }

    /// The digest-keyed groups of this processor's files: each file in its
    /// turn is filed under the full digest, with `seed`, of what was read of
    /// it at its position in `contents`. A file that could not be read, or for
    /// which no reading was handed in, is left out.
    pub fn index(&self, contents: &Vec<Option<Vec<u8>>>, seed: i64) -> (table: DashMap<
        u128,
        Vec<FileInfo>,
    >)
        ensures
            hash_groups(table) == indexed(self.files.deep_view(), contents.deep_view(), seed),
            paths_unique(hash_groups(table)),
    {
        let mut table = new_hash_store();
        let mut i: usize = 0;
        assert(self.files.deep_view().take(0) =~= Seq::<FileRecord>::empty());
        while i < self.files.len()
            invariant
                i <= self.files.len(),
                hash_groups(table) == indexed(
                    self.files.deep_view().take(i as int),
                    contents.deep_view(),
                    seed,
                ),
            decreases self.files.len() - i,
        {
            proof {
                let upto = self.files.deep_view().take(i + 1);
                assert(upto.drop_last() =~= self.files.deep_view().take(i as int));
                assert(upto.last() == self.files@[i as int]@);
            }
            if i < contents.len() {
                match &contents[i] {
                    Some(bytes) => {
                        assert(bytes.deep_view() =~= bytes@);
                        let digest = full_hash(bytes.as_slice(), seed);
                        put_by_hash(&mut table, digest, &self.files[i]);
                    },
                    None => {},
                }
            }
            i += 1;
        }
        assert(self.files.deep_view().take(self.files.len() as int) =~= self.files.deep_view());
        proof {
            lemma_indexed_unique(self.files.deep_view(), contents.deep_view(), seed);
        }
        table
    }

    /// What the digest-keyed groups come to, group by group as `entries` lists
    /// them. Where a group has members in both trees, its staging members may
    /// go. Where it has more than one member in the target tree, a warning
    /// names them; no target file is ever marked for deletion.
    pub fn classify(entries: &Vec<(u128, Vec<FileInfo>)>) -> (result: ComparisonResult)
        ensures
            result@ == classified(entries.deep_view()),
    {
        let mut files_to_delete: Vec<FileInfo> = Vec::new();
        let mut warnings: Vec<String> = Vec::new();
        let mut i: usize = 0;
        assert(entries.deep_view().take(0) =~= Listing::<u128>::empty());
        assert(files_to_delete.deep_view() =~= Seq::<FileRecord>::empty());
        assert(warnings.deep_view() =~= Seq::<Seq<char>>::empty());
        while i < entries.len()
            invariant
                i <= entries.len(),
                (Verdict {
                    files_to_delete: files_to_delete.deep_view(),
                    warnings: warnings.deep_view(),
                }) == classified(entries.deep_view().take(i as int)),
            decreases entries.len() - i,
        {
            let ghost deletions = files_to_delete.deep_view();
            let ghost warned = warnings.deep_view();
            proof {
                let upto = entries.deep_view().take(i + 1);
                assert(upto.drop_last() =~= entries.deep_view().take(i as int));
                assert(upto.last().1 == entries@[i as int].1.deep_view());
            }
            let group = &entries[i].1;
            let mut staging = staging_members(group);
            let mut lines = target_lines(group);
            let ghost staged = staging.deep_view();
            let ghost listed = lines.deep_view();
            assert(staged.len() == staging.len());
            assert(listed.len() == lines.len());
            assert(listed.len() == from_tree(group.deep_view(), FileSource::Target).len());
            if staging.len() > 0 && lines.len() > 0 {
                files_to_delete.append(&mut staging);
                assert(files_to_delete.deep_view() =~= deletions + staged);
            } else {
                assert(files_to_delete.deep_view() =~= deletions + group_deletions(
                    group.deep_view(),
                ));
            }
            if lines.len() > 1 {
                let heading = instances_warning(lines.len());
                warnings.push(heading);
                warnings.append(&mut lines);
                assert(warnings.deep_view() =~= warned + (seq![heading@] + listed));
            } else {
                assert(warnings.deep_view() =~= warned + group_warnings(group.deep_view()));
            }
            i += 1;
        }
        assert(entries.deep_view().take(entries.len() as int) =~= entries.deep_view());
        ComparisonResult { files_to_delete, warnings }
    }

    /// Compares the two trees that this processor's files were discovered in.
    /// Every file that could be read is filed under its full digest with a
    /// fresh seed, and the groups are then classified one by one. The seed and
    /// the order in which the groups are met are not fixed: the result is what
    /// [`Processor::classify`] gives for one walk over the groups that
    /// [`Processor::index`] gives for one seed. Whatever they are, only
    /// staging files are marked for deletion.
    pub fn comparison_mode(&self, contents: &Vec<Option<Vec<u8>>>) -> (result: ComparisonResult)
        ensures
            exists|seed: i64, list: Listing<u128>|
                lists(list, indexed(self.files.deep_view(), contents.deep_view(), seed))
                    && result@ == classified(list),
            forall|i: int|
                0 <= i < result@.files_to_delete.len() ==> (
                #[trigger] result@.files_to_delete[i]).source == Some(FileSource::Staging),
    {
        let seed = fresh_seed();
        let table = self.index(contents, seed);
        let entries = into_hash_entries(table);
        let result = Self::classify(&entries);
        proof {
            only_staging_files_go(entries.deep_view());
        }
        assert(lists(
            entries.deep_view(),
            indexed(self.files.deep_view(), contents.deep_view(), seed),
        ));
        result
    }
}

} // verus!
