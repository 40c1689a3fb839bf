use dashmap::DashMap;
use vstd::prelude::*;

use crate::account::drawn_from;
use crate::digest::fresh_seed;
use crate::fileinfo::{FileInfo, FileRecord, FileSource};
use crate::params::Params;
use crate::processor::Processor;
use crate::stage::{
    has_pending, hashed_all, lemma_hashed_all_keeps_idle, pending_in, sized_up, StageState,
};
use crate::store::{
    hash_groups, keyed_by_size, lists, new_hash_store, new_size_store, paths_unique, size_groups,
    Groups, Listing,
};

verus! {

/// A long-lived task of the pipeline.
#[derive(Clone, Copy, Debug, PartialEq, Eq, Structural)]
pub enum Task {
    /// Walks the tree and hands each file found to [`Server::discover`].
    Discovery,
    /// Repeats [`Server::size_step`] until it reports that the stage is finished.
    SizeStage,
    /// Repeats [`Server::hash_jobs`] and [`Server::hash_step`] until the
    /// latter reports that the stage is finished.
    HashStage,
}

/// The mathematical value of a [`Server`]: the state of one run.
pub struct Pipeline {
    pub strict: bool,
    pub comparison: bool,
    pub seed: i64,
    /// Files discovered and not yet grouped by size; the size stage takes
    /// them from the back.
    pub queue: Seq<FileRecord>,
    pub sizes: Groups<u64>,
    pub hashes: Groups<u128>,
    pub width: u64,
    /// Discovery has finished: no file will be queued any more.
    pub discovered: bool,
    /// The size stage has finished.
    pub sized: bool,
    /// The hash stage has finished.
    pub hashed: bool,
}

impl Pipeline {
    /// What holds of every run at every moment. No group holds a path twice
    /// and every size group holds one length. The size stage is finished only
    /// once discovery is and the queue is drained; the hash stage is finished
    /// only once the size stage is and no size group waits.
    pub open spec fn wf(self) -> bool {
        &&& paths_unique(self.sizes)
        &&& keyed_by_size(self.sizes)
        &&& paths_unique(self.hashes)
        &&& self.sized ==> self.discovered && self.queue.len() == 0
        &&& self.hashed ==> self.sized && !has_pending(self.sizes)
    }

    /// The part of the run that the hash stage works on.
    pub open spec fn stage(self) -> StageState {
        StageState { sizes: self.sizes, hashes: self.hashes, width: self.width }
    }
}

/// `files`, each marked as discovered in the tree `source`.
pub open spec fn tagged(files: Seq<FileRecord>, source: FileSource) -> Seq<FileRecord> {
    Seq::new(files.len(), |i: int| FileRecord { source: Some(source), ..files[i] })
}

/// The run of one pipeline: the queue of discovered files, the two stores,
/// the display width and the completion flags of the stages.
pub struct Server {
    filequeue: Vec<FileInfo>,
    sw_duplicate_set: DashMap<u64, Vec<FileInfo>>,
    hw_duplicate_set: DashMap<u128, Vec<FileInfo>>,
    app_args: Params,
    max_file_path_len: u64,
    seed: i64,
    scanner_finished: bool,
    sw_sort_finished: bool,
    hw_sort_finished: bool,
}

impl View for Server {
    type V = Pipeline;

    closed spec fn view(&self) -> Pipeline {
        Pipeline {
            strict: self.app_args.strict,
            comparison: self.app_args.comparison_mode,
            seed: self.seed,
            queue: self.filequeue.deep_view(),
            sizes: size_groups(self.sw_duplicate_set),
            hashes: hash_groups(self.hw_duplicate_set),
            width: self.max_file_path_len,
            discovered: self.scanner_finished,
            sized: self.sw_sort_finished,
            hashed: self.hw_sort_finished,
        }
    }
}

/// Marks every file of `files` as discovered in the tree `source`.
fn tag_all(files: &mut Vec<FileInfo>, source: FileSource)
    ensures
        final(files).deep_view() == tagged(old(files).deep_view(), source),
{
    let mut i: usize = 0;
    while i < files.len()
        invariant
            i <= files.len(),
            files.len() == old(files).len(),
            forall|k: int|
                0 <= k < i ==> (#[trigger] files@[k])@ == tagged(old(files).deep_view(), source)[k],
            forall|k: int| i <= k < files.len() ==> #[trigger] files@[k] == old(files)@[k],
        decreases files.len() - i,
    {
        let ghost before = files@;
        files[i].source = Some(source);
        assert(forall|k: int| 0 <= k < files.len() && k != i ==> files@[k] == before[k]);
        i += 1;
    }
    assert(files.deep_view() =~= tagged(old(files).deep_view(), source));
}

impl Server {
    /// A run that has not begun: nothing queued, no groups, width zero, and a
    /// fresh seed that stays with the run. Where two trees are compared,
    /// discovery counts as finished from the start, since it is done before
    /// the stages begin.
    pub fn new(opts: Params) -> (server: Self)
        ensures
            server@ == (Pipeline {
                strict: opts.strict,
                comparison: opts.comparison_mode,
                seed: server@.seed,
                queue: Seq::empty(),
                sizes: Map::empty(),
                hashes: Map::empty(),
                width: 0,
                discovered: opts.comparison_mode,
                sized: false,
                hashed: false,
            }),
            server@.wf(),
    {
        let server = Self {
            filequeue: Vec::new(),
            sw_duplicate_set: new_size_store(),
            hw_duplicate_set: new_hash_store(),
            app_args: opts,
            max_file_path_len: 0,
            seed: fresh_seed(),
            scanner_finished: opts.comparison_mode,
            sw_sort_finished: false,
            hw_sort_finished: false,
        };
        assert(server.filequeue.deep_view() =~= Seq::<FileRecord>::empty());
        server
    }

    /// Begins the run and says which tasks are to be scheduled. No stage
    /// counts as finished any more. Where two trees are compared, the queue
    /// becomes the files of the staging tree followed by those of the target
    /// tree, each tagged with its tree, and no discovery task is needed.
    /// Otherwise the two lists are not looked at, and discovery is the first
    /// of three tasks.
    pub fn start(&mut self, staging: Vec<FileInfo>, target: Vec<FileInfo>) -> (tasks: Vec<Task>)
        requires
            old(self)@.wf(),
        ensures
            final(self)@.wf(),
            old(self)@.comparison ==> final(self)@ == (Pipeline {
                queue: tagged(staging.deep_view(), FileSource::Staging) + tagged(
                    target.deep_view(),
                    FileSource::Target,
                ),
                discovered: true,
                sized: false,
                hashed: false,
                ..old(self)@
            }) && tasks@ == seq![Task::SizeStage, Task::HashStage],
            !old(self)@.comparison ==> final(self)@ == (Pipeline {
                discovered: false,
                sized: false,
                hashed: false,
                ..old(self)@
            }) && tasks@ == seq![Task::Discovery, Task::SizeStage, Task::HashStage],
    {
        let mut tasks: Vec<Task> = Vec::new();
        self.hw_sort_finished = false;
        self.sw_sort_finished = false;
        if self.app_args.comparison_mode {
            let mut staging = staging;
            let mut target = target;
            tag_all(&mut staging, FileSource::Staging);
            tag_all(&mut target, FileSource::Target);
            let ghost first = staging.deep_view();
            let ghost second = target.deep_view();
            staging.append(&mut target);
            assert(staging.deep_view() =~= first + second);
            self.filequeue = staging;
            self.scanner_finished = true;
        } else {
            self.scanner_finished = false;
            tasks.push(Task::Discovery);
        }
        tasks.push(Task::SizeStage);
        tasks.push(Task::HashStage);
        assert(self@.comparison ==> tasks@ =~= seq![Task::SizeStage, Task::HashStage]);
        assert(!self@.comparison ==> tasks@ =~= seq![
            Task::Discovery,
            Task::SizeStage,
            Task::HashStage,
        ]);
        tasks
    }

    /// Queues a file that discovery has found. Once discovery has finished
    /// nothing is queued any more, and the file is turned away.
    pub fn discover(&mut self, file: FileInfo) -> (queued: bool)
        requires
            old(self)@.wf(),
        ensures
            final(self)@.wf(),
            queued == !old(self)@.discovered,
            queued ==> final(self)@ == (Pipeline {
                queue: old(self)@.queue.push(file@),
                ..old(self)@
            }),
            !queued ==> final(self)@ == old(self)@,
    {
        if self.scanner_finished {
            return false;
        }
        let ghost queue = self.filequeue.deep_view();
        self.filequeue.push(file);
        assert(self.filequeue.deep_view() =~= queue.push(file@));
        true
    }

    /// Records that discovery has finished.
    pub fn finish_discovery(&mut self)
        requires
            old(self)@.wf(),
        ensures
            final(self)@.wf(),
            final(self)@ == (Pipeline { discovered: true, ..old(self)@ }),
    {
        self.scanner_finished = true;
    }

    /// One run of the size stage: drains the queue into the size groups. The
    /// stage is finished once it has run after the end of discovery.
    pub fn size_step(&mut self) -> (finished: bool)
        requires
            old(self)@.wf(),
        ensures
            final(self)@.wf(),
            final(self)@ == (Pipeline {
                queue: Seq::empty(),
                sizes: sized_up(old(self)@.sizes, old(self)@.queue),
                sized: old(self)@.sized || old(self)@.discovered,
                ..old(self)@
            }),
            finished == final(self)@.sized,
    {
        let finished = Processor::sizewise(
            self.scanner_finished,
            &mut self.sw_duplicate_set,
            &mut self.filequeue,
        );
        assert(self.filequeue.deep_view() =~= Seq::<FileRecord>::empty());
        if finished {
            self.sw_sort_finished = true;
        }
        self.sw_sort_finished
    }

    /// The files that the hash stage has to take up next, in the order of a
    /// walk over the size groups, which is not fixed: none exactly when no
    /// size group waits.
    pub fn hash_jobs(&self) -> (jobs: Vec<FileInfo>)
        ensures
            exists|list: Listing<u64>|
                lists(list, self@.sizes) && jobs.deep_view() == pending_in(list),
            (jobs@.len() == 0) == !has_pending(self@.sizes),
            self@.wf() ==> drawn_from(jobs.deep_view(), self@.sizes),
    {
        Processor::pending(&self.sw_duplicate_set)
    }

    /// One pass of the hash stage over `jobs`, the job at each position with
    /// what was read of it at that position in `contents`. The stage is
    /// finished once the size stage is and no size group waits any more; it
    /// then stays finished.
    pub fn hash_step(&mut self, jobs: &Vec<FileInfo>, contents: &Vec<Option<Vec<u8>>>) -> (finished:
        bool)
        requires
            old(self)@.wf(),
        ensures
            final(self)@.wf(),
            final(self)@.stage() == hashed_all(
                old(self)@.strict,
                old(self)@.seed,
                old(self)@.stage(),
                jobs.deep_view(),
                contents.deep_view(),
            ),
            final(self)@ == (Pipeline {
                sizes: final(self)@.sizes,
                hashes: final(self)@.hashes,
                width: final(self)@.width,
                hashed: old(self)@.sized && !has_pending(final(self)@.sizes),
                ..old(self)@
            }),
            old(self)@.hashed ==> final(self)@.hashed,
            finished == final(self)@.hashed,
    {
        proof {
            lemma_hashed_all_keeps_idle(
                self@.strict,
                self@.seed,
                self@.stage(),
                jobs.deep_view(),
                contents.deep_view(),
            );
        }
        let finished = Processor::hashwise(
            self.app_args.strict,
            &mut self.sw_duplicate_set,
            &mut self.hw_duplicate_set,
            &mut self.max_file_path_len,
            self.seed,
            self.sw_sort_finished,
            jobs,
            contents,
        );
        self.hw_sort_finished = finished;
        finished
    }

    /// Whether every stage has finished.
    pub fn finished(&self) -> (done: bool)
        ensures
            done == self@.hashed,
    {
        self.hw_sort_finished
    }

    /// The digest-keyed groups: once the run has finished, its duplicate sets.
    pub fn hw_duplicate_set(&self) -> (store: &DashMap<u128, Vec<FileInfo>>)
        ensures
            hash_groups(*store) == self@.hashes,
    {
        &self.hw_duplicate_set
    }

    /// The largest display width of a path that the hash stage has filed.
    pub fn max_file_path_len(&self) -> (width: u64)
        ensures
            width == self@.width,
    {
        self.max_file_path_len
    }
}

} // verus!
