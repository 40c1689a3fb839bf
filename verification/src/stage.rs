use vstd::prelude::*;

use crate::digest::stage_digest;
use crate::fileinfo::FileRecord;
use crate::group::{all_processed, awaits_hashing, taken_up};
use crate::store::{keyed_by_size, lists, marked_in, paths_unique, upserted, Groups, Listing};
use crate::store_laws::{lemma_marked_in_keeps_shape, lemma_upserted_keeps_unique};
use crate::text::grapheme_count;

verus! {

/// The size-keyed groups after the size stage has drained `queue`, which it
/// does from the back.
pub open spec fn sized_up(groups: Groups<u64>, queue: Seq<FileRecord>) -> Groups<u64>
    decreases queue.len(),
{
    if queue.len() == 0 {
        groups
    } else {
        sized_up(upserted(groups, queue.last().size, queue.last()), queue.drop_last())
    }
}

/// The members of `group` that the hash stage has not taken up, in their order.
pub open spec fn unprocessed(group: Seq<FileRecord>) -> Seq<FileRecord>
    decreases group.len(),
{
    if group.len() == 0 {
        seq![]
    } else if group.last().processed {
        unprocessed(group.drop_last())
    } else {
        unprocessed(group.drop_last()).push(group.last())
    }
}

/// What `group` gives the hash stage to do: its unprocessed members where it
/// has more than one member, and nothing where it has one, which is unique by
/// its length alone.
pub open spec fn group_jobs(group: Seq<FileRecord>) -> Seq<FileRecord> {
    if awaits_hashing(group) {
        unprocessed(group)
    } else {
        seq![]
    }
}

/// The files that a walk over the size-keyed store gives the hash stage to do.
pub open spec fn pending_in(list: Listing<u64>) -> Seq<FileRecord>
    decreases list.len(),
{
    if list.len() == 0 {
        seq![]
    } else {
        pending_in(list.drop_last()) + group_jobs(list.last().1)
    }
}

/// Whether some group of `groups` waits for the hash stage.
pub open spec fn has_pending(groups: Groups<u64>) -> bool {
    exists|key: u64| #[trigger] groups.contains_key(key) && awaits_hashing(groups[key])
}

/// What the hash stage works on: the size-keyed groups it reads and marks,
/// the digest-keyed groups it fills, and the largest display width of a path
/// it has filed.
pub struct StageState {
    pub sizes: Groups<u64>,
    pub hashes: Groups<u128>,
    pub width: u64,
}

/// The larger of a display width and a candidate for it.
pub open spec fn wider(current: u64, next: u64) -> u64 {
    if current < next {
        next
    } else {
        current
    }
}

/// What was read of the file at position `i`: nothing where the file could
/// not be read, or where no reading was handed in for it.
pub open spec fn content_at(contents: Seq<Option<Seq<u8>>>, i: int) -> Option<Seq<u8>> {
    if 0 <= i < contents.len() {
        contents[i]
    } else {
        None
    }
}

/// The state after the hash stage has taken up `job`. The file is marked in
/// its size group either way. Where it could be read, it is filed under its
/// digest as a processed file and its path's width is taken into account;
/// where it could not, it is left out.
pub open spec fn hashed_one(
    strict: bool,
    seed: i64,
    state: StageState,
    job: FileRecord,
    content: Option<Seq<u8>>,
) -> StageState {
    let sizes = marked_in(state.sizes, job.size, job.path);
    match content {
        Some(bytes) => StageState {
            sizes,
            hashes: upserted(state.hashes, stage_digest(strict, bytes, seed), taken_up(job)),
            width: wider(state.width, grapheme_count(job.path) as u64),
        },
        None => StageState { sizes, ..state },
    }
}

/// The state after the hash stage has taken up `jobs` in their order, the
/// job at each position with what was read at that position.
pub open spec fn hashed_all(
    strict: bool,
    seed: i64,
    state: StageState,
    jobs: Seq<FileRecord>,
    contents: Seq<Option<Seq<u8>>>,
) -> StageState
    decreases jobs.len(),
{
    if jobs.len() == 0 {
        state
    } else {
        hashed_one(
            strict,
            seed,
            hashed_all(strict, seed, state, jobs.drop_last(), contents),
            jobs.last(),
            content_at(contents, jobs.len() - 1),
        )
    }
}

/// The hash stage keeps what holds of the stores between its passes: no
/// group holds a path twice, every size group holds one length, and the
/// display width does not shrink.
pub proof fn lemma_hashed_all_keeps_shape(
    strict: bool,
    seed: i64,
    state: StageState,
    jobs: Seq<FileRecord>,
    contents: Seq<Option<Seq<u8>>>,
)
    ensures
        paths_unique(state.sizes) ==> paths_unique(
            hashed_all(strict, seed, state, jobs, contents).sizes,
        ),
        keyed_by_size(state.sizes) ==> keyed_by_size(
            hashed_all(strict, seed, state, jobs, contents).sizes,
        ),
        paths_unique(state.hashes) ==> paths_unique(
            hashed_all(strict, seed, state, jobs, contents).hashes,
        ),
        state.width <= hashed_all(strict, seed, state, jobs, contents).width,
    decreases jobs.len(),
{
    if jobs.len() > 0 {
        lemma_hashed_all_keeps_shape(strict, seed, state, jobs.drop_last(), contents);
        let before = hashed_all(strict, seed, state, jobs.drop_last(), contents);
        let job = jobs.last();
        lemma_marked_in_keeps_shape(before.sizes, job.size, job.path);
        match content_at(contents, jobs.len() - 1) {
            Some(bytes) => {
                if paths_unique(before.hashes) {
                    lemma_upserted_keeps_unique(
                        before.hashes,
                        stage_digest(strict, bytes, seed),
                        taken_up(job),
                    );
                }
            },
            None => {},
        }
    }
}

/// Where nothing was found, nothing is grouped, no group waits, a walk
/// gives the hash stage nothing to do, and a pass without jobs changes
/// nothing.
pub proof fn empty_run_ends_empty(strict: bool, seed: i64, width: u64, walk: Listing<u64>)
    requires
        lists(walk, Map::empty()),
    ensures
        !has_pending(Map::empty()),
        pending_in(walk) == Seq::<FileRecord>::empty(),
        hashed_all(
            strict,
            seed,
            StageState { sizes: Map::empty(), hashes: Map::empty(), width },
            Seq::empty(),
            Seq::empty(),
        ) == (StageState { sizes: Map::empty(), hashes: Map::empty(), width }),
{
    lemma_pending_empty(walk, Map::empty());
    assert(pending_in(walk) =~= Seq::<FileRecord>::empty());
}

/// Marking a path makes no group wait that did not wait before.
pub proof fn lemma_marked_in_keeps_idle(groups: Groups<u64>, key: u64, path: Seq<char>)
    requires
        !has_pending(groups),
    ensures
        !has_pending(marked_in(groups, key, path)),
{
    let after = marked_in(groups, key, path);
    if has_pending(after) {
        let k = choose|k: u64| #[trigger] after.contains_key(k) && awaits_hashing(after[k]);
        assert(groups.contains_key(k));
        if k == key {
            let i = choose|i: int| 0 <= i < after[k].len() && !(#[trigger] after[k][i]).processed;
            assert(!groups[k][i].processed);
        }
        assert(awaits_hashing(groups[k]));
    }
}

/// A pass of the hash stage makes no size group wait that did not wait before.
pub proof fn lemma_hashed_all_keeps_idle(
    strict: bool,
    seed: i64,
    state: StageState,
    jobs: Seq<FileRecord>,
    contents: Seq<Option<Seq<u8>>>,
)
    ensures
        !has_pending(state.sizes) ==> !has_pending(
            hashed_all(strict, seed, state, jobs, contents).sizes,
        ),
    decreases jobs.len(),
{
    if jobs.len() > 0 && !has_pending(state.sizes) {
        lemma_hashed_all_keeps_idle(strict, seed, state, jobs.drop_last(), contents);
        let before = hashed_all(strict, seed, state, jobs.drop_last(), contents);
        lemma_marked_in_keeps_idle(before.sizes, jobs.last().size, jobs.last().path);
    }
}

/// A group has unprocessed members exactly when not all of it is processed.
pub proof fn lemma_unprocessed_empty(group: Seq<FileRecord>)
    ensures
        (unprocessed(group).len() == 0) == all_processed(group),
    decreases group.len(),
{
    if group.len() > 0 {
        let front = group.drop_last();
        lemma_unprocessed_empty(front);
        if all_processed(group) {
            assert(group[group.len() - 1].processed);
            assert forall|i: int| 0 <= i < front.len() implies (#[trigger] front[i]).processed by {
                assert(group[i].processed);
            }
        } else if group.last().processed {
            let i = choose|i: int| 0 <= i < group.len() && !(#[trigger] group[i]).processed;
            assert(!front[i].processed);
        }
    }
}

/// Every unprocessed member of a group is a member that is not processed.
pub proof fn lemma_unprocessed_members(group: Seq<FileRecord>, file: FileRecord)
    ensures
        unprocessed(group).contains(file) == (group.contains(file) && !file.processed),
    decreases group.len(),
{
    if group.len() > 0 {
        let front = group.drop_last();
        lemma_unprocessed_members(front, file);
        if group.contains(file) {
            let i = choose|i: int| 0 <= i < group.len() && group[i] == file;
            if i < front.len() {
                assert(front[i] == file);
            }
        }
        if front.contains(file) {
            let i = choose|i: int| 0 <= i < front.len() && front[i] == file;
            assert(group[i] == file);
        }
        if !group.last().processed {
            let rest = unprocessed(front);
            let all = rest.push(group.last());
            if all.contains(file) {
                let i = choose|i: int| 0 <= i < all.len() && all[i] == file;
                if i < rest.len() {
                    assert(rest[i] == file);
                } else {
                    assert(group[group.len() - 1] == file);
                }
            }
            if rest.contains(file) {
                let i = choose|i: int| 0 <= i < rest.len() && rest[i] == file;
                assert(all[i] == file);
            }
            if group.last() == file {
                assert(all[rest.len() as int] == file);
                assert(group[group.len() - 1] == file);
            }
        }
    }
}

/// A walk over the store finds nothing to do exactly when no group waits.
pub proof fn lemma_pending_empty(list: Listing<u64>, groups: Groups<u64>)
    requires
        lists(list, groups),
    ensures
        (pending_in(list).len() == 0) == !has_pending(groups),
{
    lemma_pending_scan(list);
    if has_pending(groups) {
        let key = choose|key: u64| #[trigger] groups.contains_key(key) && awaits_hashing(groups[key]);
        let i = choose|i: int| 0 <= i < list.len() && (#[trigger] list[i]).0 == key;
        assert(awaits_hashing(list[i].1));
    }
    if exists|i: int| 0 <= i < list.len() && awaits_hashing((#[trigger] list[i]).1) {
        let i = choose|i: int| 0 <= i < list.len() && awaits_hashing((#[trigger] list[i]).1);
        assert(groups.contains_key(list[i].0));
    }
}

/// A walk finds nothing to do exactly when none of the groups it meets waits.
pub proof fn lemma_pending_scan(list: Listing<u64>)
    ensures
        (pending_in(list).len() == 0) == !(exists|i: int|
            0 <= i < list.len() && awaits_hashing((#[trigger] list[i]).1)),
    decreases list.len(),
{
    if list.len() > 0 {
        let front = list.drop_last();
        let group = list.last().1;
        lemma_pending_scan(front);
        lemma_unprocessed_empty(group);
        if exists|i: int| 0 <= i < list.len() && awaits_hashing((#[trigger] list[i]).1) {
            let i = choose|i: int| 0 <= i < list.len() && awaits_hashing((#[trigger] list[i]).1);
            if i < front.len() {
                assert(awaits_hashing(front[i].1));
            }
        }
        if exists|i: int| 0 <= i < front.len() && awaits_hashing((#[trigger] front[i]).1) {
            let i = choose|i: int| 0 <= i < front.len() && awaits_hashing((#[trigger] front[i]).1);
            assert(awaits_hashing(list[i].1));
        }
        if awaits_hashing(group) {
            assert(awaits_hashing(list[list.len() - 1].1));
        }
    }
}

} // verus!
