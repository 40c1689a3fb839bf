use vstd::prelude::*;

use crate::digest::stage_digest;
use crate::fileinfo::FileRecord;
use crate::group::{all_processed, awaits_hashing, taken_up};
use crate::membership::{
    crowded, filed_under, lemma_marked_in_membership, lemma_same_membership_same_crowds,
    lemma_sized_up_membership, lemma_upserted_membership, lemma_with_file_paths, found_at,
    same_membership,
};
use crate::stage::{
    content_at, group_jobs, has_pending, hashed_all, hashed_one, lemma_unprocessed_members,
    pending_in, sized_up, StageState,
};
use crate::store::{keyed_by_size, lists, paths_unique, upserted, Groups, Listing};

verus! {

/// What can be read of the files of a tree, by path. A path without content
/// stands for a file that cannot be read.
pub type Disk = Map<Seq<char>, Seq<u8>>;

/// What is read of the file at `path`.
pub open spec fn read(disk: Disk, path: Seq<char>) -> Option<Seq<u8>> {
    if disk.contains_key(path) {
        Some(disk[path])
    } else {
        None
    }
}

/// What is read of each of `jobs`, position by position.
pub open spec fn read_all(disk: Disk, jobs: Seq<FileRecord>) -> Seq<Option<Seq<u8>>> {
    Seq::new(jobs.len(), |i: int| read(disk, jobs[i].path))
}

/// Whether the file at `path` can be read and has the stage digest `digest`.
pub open spec fn placed(strict: bool, seed: i64, disk: Disk, path: Seq<char>, digest: u128) -> bool {
    disk.contains_key(path) && stage_digest(strict, disk[path], seed) == digest
}

/// Whether `path` lies in a size group that has more than one member.
pub open spec fn shares_size(sizes: Groups<u64>, path: Seq<char>) -> bool {
    exists|key: u64| crowded(sizes, key) && #[trigger] filed_under(sizes, key, path)
}

/// Whether each of `jobs` lies, under its byte length, in a size group that
/// has more than one member.
pub open spec fn drawn_from(jobs: Seq<FileRecord>, sizes: Groups<u64>) -> bool {
    forall|i: int|
        0 <= i < jobs.len() ==> crowded(sizes, (#[trigger] jobs[i]).size) && filed_under(
            sizes,
            jobs[i].size,
            jobs[i].path,
        )
}

/// The two stores agree with each other and with the disk. Every member of a
/// size group that is marked as processed and can be read is filed under its
/// digest; and every path filed under a digest can be read, has that digest,
/// and shares its size group with another file.
pub open spec fn accounted(strict: bool, seed: i64, disk: Disk, state: StageState) -> bool {
    &&& forall|key: u64, i: int|
        state.sizes.contains_key(key) && 0 <= i < state.sizes[key].len() && (
        #[trigger] state.sizes[key][i]).processed && disk.contains_key(state.sizes[key][i].path)
            ==> filed_under(
            state.hashes,
            stage_digest(strict, disk[state.sizes[key][i].path], seed),
            state.sizes[key][i].path,
        )
    &&& forall|digest: u128, path: Seq<char>| #[trigger]
        filed_under(state.hashes, digest, path) ==> placed(strict, seed, disk, path, digest)
            && shares_size(state.sizes, path)
}

/// A run that has filed nothing yet is accounted for.
pub proof fn fresh_run_is_accounted(strict: bool, seed: i64, disk: Disk, width: u64)
    ensures
        accounted(
            strict,
            seed,
            disk,
            StageState { sizes: Map::empty(), hashes: Map::empty(), width },
        ),
{
}

proof fn lemma_filing_by_size_keeps_account(
    strict: bool,
    seed: i64,
    disk: Disk,
    state: StageState,
    file: FileRecord,
)
    requires
        accounted(strict, seed, disk, state),
        !file.processed,
    ensures
        accounted(
            strict,
            seed,
            disk,
            StageState { sizes: upserted(state.sizes, file.size, file), ..state },
        ),
{
    let sizes = upserted(state.sizes, file.size, file);
    let after = StageState { sizes, ..state };
    assert forall|key: u64, i: int|
        sizes.contains_key(key) && 0 <= i < sizes[key].len() && (#[trigger] sizes[key][i]).processed
            && disk.contains_key(sizes[key][i].path) implies filed_under(
        after.hashes,
        stage_digest(strict, disk[sizes[key][i].path], seed),
        sizes[key][i].path,
    ) by {
        if key == file.size {
            if state.sizes.contains_key(key) {
                lemma_with_file_paths(state.sizes[key], file, file.path);
                if i < state.sizes[key].len() {
                    assert(sizes[key][i] == state.sizes[key][i]);
                }
            }
        } else {
            assert(sizes[key][i] == state.sizes[key][i]);
        }
    }
    assert forall|digest: u128, path: Seq<char>| #[trigger]
        filed_under(after.hashes, digest, path) implies placed(strict, seed, disk, path, digest)
        && shares_size(sizes, path) by {
        assert(shares_size(state.sizes, path));
        let key = choose|key: u64|
            crowded(state.sizes, key) && #[trigger] filed_under(state.sizes, key, path);
        lemma_upserted_membership(state.sizes, file.size, file, key, path);
        if key == file.size {
            lemma_with_file_paths(state.sizes[key], file, path);
        }
        assert(crowded(sizes, key) && filed_under(sizes, key, path));
    }
}

/// The size stage keeps a run accounted for, as long as the files it drains
/// have not been marked as processed.
pub proof fn size_stage_keeps_account(
    strict: bool,
    seed: i64,
    disk: Disk,
    state: StageState,
    queue: Seq<FileRecord>,
)
    requires
        accounted(strict, seed, disk, state),
        forall|i: int| 0 <= i < queue.len() ==> !(#[trigger] queue[i]).processed,
    ensures
        accounted(
            strict,
            seed,
            disk,
            StageState { sizes: sized_up(state.sizes, queue), ..state },
        ),
    decreases queue.len(),
{
    if queue.len() > 0 {
        let last = queue.last();
        assert(!queue[queue.len() - 1].processed);
        lemma_filing_by_size_keeps_account(strict, seed, disk, state, last);
        let next = StageState { sizes: upserted(state.sizes, last.size, last), ..state };
        let rest = queue.drop_last();
        assert forall|i: int| 0 <= i < rest.len() implies !(#[trigger] rest[i]).processed by {
            assert(!queue[i].processed);
        }
        size_stage_keeps_account(strict, seed, disk, next, rest);
    } else {
        assert(StageState { sizes: sized_up(state.sizes, queue), ..state } == state);
    }
}

proof fn lemma_hashing_one_keeps_account(
    strict: bool,
    seed: i64,
    disk: Disk,
    state: StageState,
    job: FileRecord,
)
    requires
        accounted(strict, seed, disk, state),
        crowded(state.sizes, job.size),
        filed_under(state.sizes, job.size, job.path),
    ensures
        accounted(strict, seed, disk, hashed_one(strict, seed, state, job, read(disk, job.path))),
{
    let after = hashed_one(strict, seed, state, job, read(disk, job.path));
    let filed = taken_up(job);
    assert forall|key: u64, i: int|
        after.sizes.contains_key(key) && 0 <= i < after.sizes[key].len() && (
        #[trigger] after.sizes[key][i]).processed && disk.contains_key(
            after.sizes[key][i].path,
        ) implies filed_under(
        after.hashes,
        stage_digest(strict, disk[after.sizes[key][i].path], seed),
        after.sizes[key][i].path,
    ) by {
        let member = after.sizes[key][i];
        let digest = stage_digest(strict, disk[member.path], seed);
        let before = state.sizes[key][i];
        assert(state.sizes.contains_key(key));
        assert(before.path == member.path);
        if disk.contains_key(job.path) {
            lemma_upserted_membership(
                state.hashes,
                stage_digest(strict, disk[job.path], seed),
                filed,
                digest,
                member.path,
            );
        }
        if key == job.size && before.path == job.path {
        } else {
            assert(member == before);
            assert(filed_under(state.hashes, digest, member.path));
        }
    }
    assert forall|digest: u128, path: Seq<char>| #[trigger]
        filed_under(after.hashes, digest, path) implies placed(strict, seed, disk, path, digest)
        && shares_size(after.sizes, path) by {
        if disk.contains_key(job.path) {
            lemma_upserted_membership(
                state.hashes,
                stage_digest(strict, disk[job.path], seed),
                filed,
                digest,
                path,
            );
        }
        if filed_under(state.hashes, digest, path) {
            assert(shares_size(state.sizes, path));
            let key = choose|key: u64|
                crowded(state.sizes, key) && #[trigger] filed_under(state.sizes, key, path);
            lemma_marked_in_membership(state.sizes, job.size, job.path, key, path);
            assert(crowded(after.sizes, key) && filed_under(after.sizes, key, path));
        } else {
            lemma_marked_in_membership(state.sizes, job.size, job.path, job.size, job.path);
            assert(crowded(after.sizes, job.size) && filed_under(
                after.sizes,
                job.size,
                job.path,
            ));
        }
    }
}

/// A pass of the hash stage changes neither the paths of the size groups
/// nor their lengths.
pub proof fn lemma_hashed_all_keeps_sizes(
    strict: bool,
    seed: i64,
    state: StageState,
    jobs: Seq<FileRecord>,
    contents: Seq<Option<Seq<u8>>>,
    key: u64,
    path: Seq<char>,
)
    ensures
        filed_under(hashed_all(strict, seed, state, jobs, contents).sizes, key, path)
            == filed_under(state.sizes, key, path),
        crowded(hashed_all(strict, seed, state, jobs, contents).sizes, key) == crowded(
            state.sizes,
            key,
        ),
    decreases jobs.len(),
{
    if jobs.len() > 0 {
        lemma_hashed_all_keeps_sizes(strict, seed, state, jobs.drop_last(), contents, key, path);
        let before = hashed_all(strict, seed, state, jobs.drop_last(), contents);
        lemma_marked_in_membership(before.sizes, jobs.last().size, jobs.last().path, key, path);
    }
}

/// A pass of the hash stage keeps a run accounted for, as long as each job
/// comes from a size group with more than one member and is handed in with
/// what the disk holds at its path.
pub proof fn hash_pass_keeps_account(
    strict: bool,
    seed: i64,
    disk: Disk,
    state: StageState,
    jobs: Seq<FileRecord>,
)
    requires
        accounted(strict, seed, disk, state),
        drawn_from(jobs, state.sizes),
    ensures
        accounted(
            strict,
            seed,
            disk,
            hashed_all(strict, seed, state, jobs, read_all(disk, jobs)),
        ),
    decreases jobs.len(),
{
    lemma_hash_pass_prefix(strict, seed, disk, state, jobs, jobs.len() as int);
    assert(jobs.take(jobs.len() as int) =~= jobs);
}

proof fn lemma_hash_pass_prefix(
    strict: bool,
    seed: i64,
    disk: Disk,
    state: StageState,
    jobs: Seq<FileRecord>,
    n: int,
)
    requires
        accounted(strict, seed, disk, state),
        drawn_from(jobs, state.sizes),
        0 <= n <= jobs.len(),
    ensures
        accounted(
            strict,
            seed,
            disk,
            hashed_all(strict, seed, state, jobs.take(n), read_all(disk, jobs)),
        ),
    decreases n,
{
    if n > 0 {
        let contents = read_all(disk, jobs);
        let upto = jobs.take(n);
        let job = jobs[n - 1];
        assert(upto.drop_last() =~= jobs.take(n - 1));
        assert(upto.last() == job);
        lemma_hash_pass_prefix(strict, seed, disk, state, jobs, n - 1);
        let before = hashed_all(strict, seed, state, jobs.take(n - 1), contents);
        lemma_hashed_all_keeps_sizes(
            strict,
            seed,
            state,
            jobs.take(n - 1),
            contents,
            job.size,
            job.path,
        );
        assert(content_at(contents, n - 1) == read(disk, job.path));
        lemma_hashing_one_keeps_account(strict, seed, disk, before, job);
    }
}

/// Every job that a walk over the size groups gives the hash stage lies,
/// under its byte length, in a size group with more than one member.
pub proof fn pending_is_drawn_from_store(walk: Listing<u64>, sizes: Groups<u64>)
    requires
        lists(walk, sizes),
        keyed_by_size(sizes),
    ensures
        drawn_from(pending_in(walk), sizes),
{
    let jobs = pending_in(walk);
    assert forall|i: int| 0 <= i < jobs.len() implies crowded(sizes, (#[trigger] jobs[i]).size)
        && filed_under(sizes, jobs[i].size, jobs[i].path) by {
        lemma_pending_source(walk, i);
        let j = choose|j: int|
            0 <= j < walk.len() && awaits_hashing((#[trigger] walk[j]).1) && walk[j].1.contains(
                jobs[i],
            );
        let key = walk[j].0;
        let group = walk[j].1;
        assert(sizes.contains_key(key) && sizes[key] == group);
        let at = choose|at: int| 0 <= at < group.len() && group[at] == jobs[i];
        assert(sizes[key][at].size == key);
        assert(group[at].path == jobs[i].path);
    }
}

proof fn lemma_pending_source(walk: Listing<u64>, i: int)
    requires
        0 <= i < pending_in(walk).len(),
    ensures
        exists|j: int|
            0 <= j < walk.len() && awaits_hashing((#[trigger] walk[j]).1) && walk[j].1.contains(
                pending_in(walk)[i],
            ),
    decreases walk.len(),
{
    if walk.len() > 0 {
        let front = walk.drop_last();
        let group = walk.last().1;
        if i < pending_in(front).len() {
            lemma_pending_source(front, i);
            let j = choose|j: int|
                0 <= j < front.len() && awaits_hashing((#[trigger] front[j]).1)
                    && front[j].1.contains(pending_in(front)[i]);
            assert(awaits_hashing(walk[j].1) && walk[j].1.contains(pending_in(walk)[i]));
        } else {
            let job = pending_in(walk)[i];
            let at = i - pending_in(front).len();
            assert(group_jobs(group)[at] == job);
            assert(awaits_hashing(group));
            lemma_unprocessed_members(group, job);
            assert(group_jobs(group).contains(job));
            assert(awaits_hashing(walk[walk.len() - 1].1) && walk[walk.len() - 1].1.contains(job));
        }
    }
}

/// Once no size group waits, the digest-keyed groups of an accounted run
/// hold exactly the paths that can be read and that share their size group
/// with another file, each under its digest.
pub proof fn finished_run_files_every_duplicate(
    strict: bool,
    seed: i64,
    disk: Disk,
    state: StageState,
    digest: u128,
    path: Seq<char>,
)
    requires
        accounted(strict, seed, disk, state),
        !has_pending(state.sizes),
    ensures
        filed_under(state.hashes, digest, path) == (placed(strict, seed, disk, path, digest)
            && shares_size(state.sizes, path)),
{
    if placed(strict, seed, disk, path, digest) && shares_size(state.sizes, path) {
        let key = choose|key: u64|
            crowded(state.sizes, key) && #[trigger] filed_under(state.sizes, key, path);
        let group = state.sizes[key];
        let i = choose|i: int| 0 <= i < group.len() && #[trigger] group[i].path == path;
        assert(state.sizes.contains_key(key));
        assert(!awaits_hashing(group));
        assert(all_processed(group));
        assert(group[i].processed);
        assert(state.sizes[key][i].processed);
    }
}

/// Two finished runs over one disk, in one mode and with one seed, whose
/// size groups hold the same paths, file the same paths under the same
/// digests: whatever the order in which files were discovered, groups were
/// walked and passes were made.
pub proof fn finished_runs_agree(
    strict: bool,
    seed: i64,
    disk: Disk,
    one: StageState,
    other: StageState,
)
    requires
        accounted(strict, seed, disk, one),
        accounted(strict, seed, disk, other),
        !has_pending(one.sizes),
        !has_pending(other.sizes),
        paths_unique(one.sizes),
        paths_unique(other.sizes),
        same_membership(one.sizes, other.sizes),
    ensures
        same_membership(one.hashes, other.hashes),
{
    assert forall|digest: u128, path: Seq<char>| #[trigger]
        filed_under(one.hashes, digest, path) == filed_under(other.hashes, digest, path) by {
        finished_run_files_every_duplicate(strict, seed, disk, one, digest, path);
        finished_run_files_every_duplicate(strict, seed, disk, other, digest, path);
        if shares_size(one.sizes, path) {
            let key = choose|key: u64|
                crowded(one.sizes, key) && #[trigger] filed_under(one.sizes, key, path);
            lemma_same_membership_same_crowds(one.sizes, other.sizes, key);
            assert(filed_under(other.sizes, key, path));
        }
        if shares_size(other.sizes, path) {
            let key = choose|key: u64|
                crowded(other.sizes, key) && #[trigger] filed_under(other.sizes, key, path);
            lemma_same_membership_same_crowds(one.sizes, other.sizes, key);
            assert(filed_under(one.sizes, key, path));
        }
    }
}

/// The size groups of one tree hold the same paths in whatever order its
/// files were discovered.
pub proof fn size_stage_is_order_blind(one: Seq<FileRecord>, other: Seq<FileRecord>)
    requires
        forall|size: u64, path: Seq<char>|
            found_at(one, size, path) == found_at(other, size, path),
    ensures
        same_membership(sized_up(Map::empty(), one), sized_up(Map::empty(), other)),
{
    assert forall|key: u64, path: Seq<char>| #[trigger]
        filed_under(sized_up(Map::empty(), one), key, path) == filed_under(
            sized_up(Map::empty(), other),
            key,
            path,
        ) by {
        lemma_sized_up_membership(Map::empty(), one, key, path);
        lemma_sized_up_membership(Map::empty(), other, key, path);
    }
}

} // verus!
