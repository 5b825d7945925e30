//! The comparison engine: discovery with its exclusions, the two phases of
//! aggregation, and the result.

use crate::error::{worker_fault_message, ConfirmerError};
use crate::exclusion::{excluded, is_path_excluded, ExcludePattern};
use crate::index::{first_failure, hashed, views_of, HashResult, PendingIndex};
use crate::model::{classify, outcome, source_buckets, ConfirmerResultView};
use crate::outcome::{texts, ConfirmerResult};
use crate::progress::{report_of, track_progress, ProgressReport};
use crate::walk::{
    all_items, excluded_of, hash_file, hash_results, lemma_excluded_stays,
    lemma_hash_results_concat, lemma_walk_failure_concat, lemma_walk_failure_stays, walk_failure,
    WalkItem,
};
use threadpool::ThreadPool;
use vstd::prelude::*;

verus! {

/// `threadpool::ThreadPool`, the pool of worker threads that runs the hashing
/// tasks. Verus carries it through without looking inside.
#[verifier::external_type_specification]
#[verifier::external_body]
pub struct ExThreadPool(ThreadPool);

/// The number of worker threads that a pool was made with: how many hashing
/// tasks it was set up to run at a time.
pub uninterp spec fn pool_threads(pool: ThreadPool) -> usize;

/// `ThreadPool::new` makes a pool of `num_threads` workers: it starts that many
/// threads, and runs that many tasks at a time. It panics where `num_threads` is
/// 0, which the `requires` leaves out.
pub assume_specification[ ThreadPool::new ](num_threads: usize) -> (pool: ThreadPool)
    requires
        num_threads >= 1,
    ensures
        pool_threads(pool) == num_threads,
;

/// `ThreadPool::panic_count` reads how many tasks have panicked over the life of
/// the pool. The number is the pool's state of the moment: nothing is stated of
/// it.
pub assume_specification[ ThreadPool::panic_count ](pool: &ThreadPool) -> (count: usize);

/// `ThreadPool::active_count` reads how many tasks are running. The number is the
/// pool's state of the moment: nothing is stated of it.
pub assume_specification[ ThreadPool::active_count ](pool: &ThreadPool) -> (count: usize);

/// `ThreadPool::queued_count` reads how many tasks wait to be run. The number is
/// the pool's state of the moment: nothing is stated of it.
pub assume_specification[ ThreadPool::queued_count ](pool: &ThreadPool) -> (count: usize);

/// How a comparison of these trees ends, under these patterns.
///
/// The source is walked first and to its end; a failure of the walk ends the
/// comparison, and then the first failure to read a file that is not excluded.
/// The destinations are walked after that, one after another, and never
/// filtered. Where nothing fails, the files are told apart by their checksums.
pub open spec fn comparison(
    patterns: Seq<ExcludePattern>,
    source: Seq<WalkItem>,
    destinations: Seq<Vec<WalkItem>>,
) -> Result<ConfirmerResultView, Seq<char>> {
    let src = hash_results(patterns, source);
    let dst = hash_results(Seq::empty(), all_items(destinations));
    if walk_failure(source) is Some {
        Err(walk_failure(source)->0)
    } else if first_failure(src) is Some {
        Err(first_failure(src)->0)
    } else if walk_failure(all_items(destinations)) is Some {
        Err(walk_failure(all_items(destinations))->0)
    } else if first_failure(dst) is Some {
        Err(first_failure(dst)->0)
    } else {
        Ok(outcome(hashed(src), hashed(dst)))
    }
}

/// Structure providing methods for directory comparison.
pub struct CopyConfirmer {
    threadpool: ThreadPool,
    show_progress: bool,
    excluded_pattern: Vec<ExcludePattern>,
    excluded_paths: Vec<String>,
}

impl CopyConfirmer {
    /// The exclusion patterns, in the order they were added.
    pub closed spec fn patterns(&self) -> Seq<ExcludePattern> {
        self.excluded_pattern@
    }

    /// The source paths that the last comparison excluded.
    pub closed spec fn excluded(&self) -> Seq<Seq<char>> {
        texts(self.excluded_paths@)
    }

    /// Whether progress is to be reported.
    pub closed spec fn progress_shown(&self) -> bool {
        self.show_progress
    }

    /// The pool of worker threads.
    pub closed spec fn workers(&self) -> ThreadPool {
        self.threadpool
    }

    /// Initiate new `CopyConfirmer`.
    ///
    /// `num_threads` is the number of jobs for checksum calculation to be run in
    /// parallel: at least one. The engine gets a pool of its own with that many
    /// workers; it has no pattern yet, has excluded nothing, and reports no
    /// progress.
    pub fn new(num_threads: usize) -> (confirmer: CopyConfirmer)
        requires
            num_threads >= 1,
        ensures
            pool_threads(confirmer.workers()) == num_threads,
            confirmer.patterns() == Seq::<ExcludePattern>::empty(),
            confirmer.excluded() == Seq::<Seq<char>>::empty(),
            !confirmer.progress_shown(),
    {
        let confirmer = CopyConfirmer {
            threadpool: ThreadPool::new(num_threads),
            show_progress: false,
            excluded_pattern: Vec::new(),
            excluded_paths: Vec::new(),
        };
        assert(confirmer.excluded() =~= Seq::<Seq<char>>::empty());
        confirmer
    }

    /// Enable progress bar. The engine is the same in all else: it keeps its
    /// pool, its patterns and its excluded paths.
    pub fn with_progress_bar(self) -> (confirmer: CopyConfirmer)
        ensures
            confirmer.progress_shown(),
            confirmer.patterns() == self.patterns(),
            confirmer.excluded() == self.excluded(),
            confirmer.workers() == self.workers(),
    {
        CopyConfirmer {
            threadpool: self.threadpool,
            show_progress: true,
            excluded_pattern: self.excluded_pattern,
            excluded_paths: self.excluded_paths,
        }
    }

    /// Add exclude pattern.
    ///
    /// The pattern is matched against the paths contained in the source directory
    /// and the matching paths get excluded from comparison entirely, so that they
    /// are not reported when they are missing. The method can be used multiple
    /// times to exclude multiple patterns.
    pub fn add_excluded_pattern(self, exclude: ExcludePattern) -> (confirmer: CopyConfirmer)
        ensures
            confirmer.patterns() == self.patterns().push(exclude),
            confirmer.excluded() == self.excluded(),
            confirmer.progress_shown() == self.progress_shown(),
            confirmer.workers() == self.workers(),
    {
        let mut modifiable = self;
        modifiable.excluded_pattern.push(exclude);
        modifiable
    }

    /// Get paths of files that were excluded from comparison: those that the last
    /// comparison has met and left out, in the order it met them.
    pub fn get_excluded_paths(&self) -> (paths: Vec<String>)
        ensures
            texts(paths@) == self.excluded(),
    {
        let mut paths: Vec<String> = Vec::new();
        let mut i: usize = 0;
        while i < self.excluded_paths.len()
            invariant
                i <= self.excluded_paths.len(),
                texts(paths@) == texts(self.excluded_paths@).take(i as int),
            decreases self.excluded_paths.len() - i,
        {
            let ghost held = paths@;
            paths.push(self.excluded_paths[i].clone());
            proof {
                assert(texts(paths@) =~= texts(held).push(self.excluded_paths@[i as int]@));
                assert(texts(self.excluded_paths@).take(i + 1) =~= texts(
                    self.excluded_paths@,
                ).take(i as int).push(self.excluded_paths@[i as int]@));
            }
            i += 1;
        }
        proof {
            assert(texts(self.excluded_paths@).take(i as int) =~= texts(self.excluded_paths@));
        }
        paths
    }

    /// Whether progress is to be reported.
    pub fn shows_progress(&self) -> (shown: bool)
        ensures
            shown == self.progress_shown(),
    {
        self.show_progress
    }

    /// The pool that runs the hashing tasks of this engine.
    pub fn pool(&self) -> (pool: &ThreadPool)
        ensures
            *pool == self.workers(),
    {
        &self.threadpool
    }

    /// Starts a run: the excluded paths of the run before are forgotten.
    pub fn begin(&mut self)
        ensures
            final(self).excluded() == Seq::<Seq<char>>::empty(),
            final(self).patterns() == old(self).patterns(),
            final(self).progress_shown() == old(self).progress_shown(),
            final(self).workers() == old(self).workers(),
    {
        self.excluded_paths = Vec::new();
        assert(self.excluded() =~= Seq::<Seq<char>>::empty());
    }

    /// Decides on an entry that the walk of the source met: whether a hashing task
    /// is to be submitted for it.
    ///
    /// Only a regular file is hashed, and only if no pattern excludes its path. A
    /// regular file that a pattern excludes is put on the list of excluded paths.
    pub fn admit_source(&mut self, path: &str, is_file: bool) -> (admitted: bool)
        ensures
            admitted == (is_file && !excluded(path@, old(self).patterns())),
            final(self).excluded() == if is_file && excluded(path@, old(self).patterns()) {
                old(self).excluded().push(path@)
            } else {
                old(self).excluded()
            },
            final(self).patterns() == old(self).patterns(),
            final(self).progress_shown() == old(self).progress_shown(),
            final(self).workers() == old(self).workers(),
    {
        if !is_file {
            return false;
        }
        if is_path_excluded(path, &self.excluded_pattern) {
            self.excluded_paths.push(path.to_owned());
            assert(self.excluded() =~= old(self).excluded().push(path@));
            return false;
        }
        true
    }

    /// Decides on an entry that the walk of a destination met: whether a hashing
    /// task is to be submitted for it.
    ///
    /// Every regular file is hashed: exclusions say which source files need no
    /// copy, and are never applied to destinations.
    pub fn admit_destination(&self, is_file: bool) -> (admitted: bool)
        ensures
            admitted == is_file,
    {
        is_file
    }

    /// Looks at the pool for a phase in which `total_files` hashing tasks were
    /// submitted.
    ///
    /// The counters are the pool's state of the moment, so two looks may differ.
    /// Whatever they show, the report is what `track_progress` makes of them, for
    /// the number of tasks that are running and the number that wait. So no more
    /// tasks are done than were submitted, and all of them are done once the pool
    /// is quiescent.
    pub fn observe(&self, total_files: u64) -> (report: ProgressReport)
        ensures
            exists|active: usize, queued: usize|
                report == #[trigger] report_of(total_files, active, queued),
            report.completed <= total_files,
            report.quiescent ==> report.completed == total_files,
    {
        let active = self.threadpool.active_count();
        let queued = self.threadpool.queued_count();
        let report = track_progress(total_files, active, queued);
        assert(report == report_of(total_files, active, queued));
        report
    }

    /// Ends the source phase: the pool's count of tasks that ended abnormally is
    /// read, and the results are taken into an index.
    ///
    /// The count is the pool's state of the moment. Whatever it is, the phase
    /// ends as `PendingIndex::build` says for it: in the error of a worker fault,
    /// or as it ends without one.
    pub fn end_source_phase(&self, results: &Vec<HashResult>) -> (built: Result<
        PendingIndex,
        ConfirmerError,
    >)
        ensures
            (built matches Err(error) && error@ == worker_fault_message()) || match first_failure(
                views_of(results@),
            ) {
                Some(message) => built matches Err(error) && error@ == message,
                None => built matches Ok(index) && index@ == source_buckets(
                    hashed(views_of(results@)),
                ),
            },
    {
        PendingIndex::build(results, self.threadpool.panic_count())
    }

    /// Ends the destination phase, and the run: the pool's count of tasks that
    /// ended abnormally is read, and the index is resolved against the results.
    ///
    /// The count is the pool's state of the moment. Whatever it is, the run ends
    /// as `PendingIndex::resolve` says for it: in the error of a worker fault, or
    /// as it ends without one.
    pub fn end_destination_phase(&self, index: PendingIndex, results: &Vec<HashResult>) -> (resolved:
        Result<ConfirmerResult, ConfirmerError>)
        ensures
            (resolved matches Err(error) && error@ == worker_fault_message()) || match first_failure(
                views_of(results@),
            ) {
                Some(message) => resolved matches Err(error) && error@ == message,
                None => resolved matches Ok(end) && end@ == classify(
                    index@,
                    hashed(views_of(results@)),
                ),
            },
    {
        index.resolve(results, self.threadpool.panic_count())
    }

    /// Walks the source: each file that is admitted is hashed, and its result is
    /// put behind `results`.
    fn gather_source(&mut self, walk: &Vec<WalkItem>, results: &mut Vec<HashResult>) -> (gathered:
        Result<(), ConfirmerError>)
        ensures
            final(self).patterns() == old(self).patterns(),
            final(self).progress_shown() == old(self).progress_shown(),
            final(self).workers() == old(self).workers(),
            final(self).excluded() == old(self).excluded() + excluded_of(
                old(self).patterns(),
                walk@,
            ),
            match walk_failure(walk@) {
                Some(message) => gathered matches Err(error) && error@ == message,
                None => gathered is Ok && views_of(final(results)@) == views_of(old(results)@)
                    + hash_results(old(self).patterns(), walk@),
            },
    {
        let ghost patterns = self.patterns();
        let mut i: usize = 0;
        while i < walk.len()
            invariant
                i <= walk.len(),
                patterns == old(self).patterns(),
                self.patterns() == patterns,
                self.progress_shown() == old(self).progress_shown(),
                self.workers() == old(self).workers(),
                walk_failure(walk@.take(i as int)) is None,
                self.excluded() == old(self).excluded() + excluded_of(patterns, walk@.take(i as int)),
                views_of(results@) == views_of(old(results)@) + hash_results(
                    patterns,
                    walk@.take(i as int),
                ),
            decreases walk.len() - i,
        {
            proof {
                assert(walk@.take(i + 1).drop_last() =~= walk@.take(i as int));
                assert(walk@.take(i + 1).last() == walk@[i as int]);
            }
            match &walk[i] {
                WalkItem::Failed(error) => {
                    proof {
                        lemma_walk_failure_stays(walk@, i + 1);
                        lemma_excluded_stays(patterns, walk@, i + 1);
                    }
                    return Err(error.duplicate());
                },
                WalkItem::Other(path) => {
                    let admitted = self.admit_source(path.as_str(), false);
                    assert(!admitted);
                },
                WalkItem::File(path, content) => {
                    if self.admit_source(path.as_str(), true) {
                        let ghost held = results@;
                        let result = hash_file(path, content);
                        results.push(result);
                        assert(views_of(results@) =~= views_of(held).push(result@));
                    }
                },
            }
            proof {
                assert(self.excluded() =~= old(self).excluded() + excluded_of(
                    patterns,
                    walk@.take(i + 1),
                ));
                assert(views_of(results@) =~= views_of(old(results)@) + hash_results(
                    patterns,
                    walk@.take(i + 1),
                ));
            }
            i += 1;
        }
        proof {
            assert(walk@.take(i as int) =~= walk@);
        }
        Ok(())
    }

    /// Walks a destination: each file that is admitted is hashed, and its result
    /// is put behind `results`.
    fn gather_destination(&self, walk: &Vec<WalkItem>, results: &mut Vec<HashResult>) -> (gathered:
        Result<(), ConfirmerError>)
        ensures
            match walk_failure(walk@) {
                Some(message) => gathered matches Err(error) && error@ == message,
                None => gathered is Ok && views_of(final(results)@) == views_of(old(results)@)
                    + hash_results(Seq::empty(), walk@),
            },
    {
        let ghost none = Seq::<ExcludePattern>::empty();
        let mut i: usize = 0;
        while i < walk.len()
            invariant
                i <= walk.len(),
                none == Seq::<ExcludePattern>::empty(),
                walk_failure(walk@.take(i as int)) is None,
                views_of(results@) == views_of(old(results)@) + hash_results(
                    none,
                    walk@.take(i as int),
                ),
            decreases walk.len() - i,
        {
            proof {
                assert(walk@.take(i + 1).drop_last() =~= walk@.take(i as int));
                assert(walk@.take(i + 1).last() == walk@[i as int]);
            }
            match &walk[i] {
                WalkItem::Failed(error) => {
                    proof {
                        lemma_walk_failure_stays(walk@, i + 1);
                    }
                    return Err(error.duplicate());
                },
                WalkItem::Other(_) => {
                    let admitted = self.admit_destination(false);
                    assert(!admitted);
                },
                WalkItem::File(path, content) => {
                    if self.admit_destination(true) {
                        let ghost held = results@;
                        let result = hash_file(path, content);
                        results.push(result);
                        assert(views_of(results@) =~= views_of(held).push(result@));
                    }
                    assert(!excluded(path@, none));
                },
            }
            proof {
                assert(views_of(results@) =~= views_of(old(results)@) + hash_results(
                    none,
                    walk@.take(i + 1),
                ));
            }
            i += 1;
        }
        proof {
            assert(walk@.take(i as int) =~= walk@);
        }
        Ok(())
    }

    /// Check if all files in source are also in one of destinations.
    ///
    /// `source` is the walk of the source directory and `destinations` are the
    /// walks of the destination directories, each with the content of its files.
    /// The files are hashed here, one after another, so the pool has no part in
    /// it.
    ///
    /// Returns `ConfirmerResult::AllPresent` if every file in `source` that no
    /// pattern excludes has its content in at least one file in `destinations`,
    /// and `ConfirmerResult::MissingFiles` with the others if not. The first walk
    /// or read that fails ends the comparison with its error. The excluded paths
    /// are those of this comparison alone.
    pub fn compare(&mut self, source: &Vec<WalkItem>, destinations: &Vec<Vec<WalkItem>>) -> (compared:
        Result<ConfirmerResult, ConfirmerError>)
        ensures
            final(self).patterns() == old(self).patterns(),
            final(self).progress_shown() == old(self).progress_shown(),
            final(self).workers() == old(self).workers(),
            final(self).excluded() == excluded_of(old(self).patterns(), source@),
            match comparison(old(self).patterns(), source@, destinations@) {
                Ok(end) => compared matches Ok(result) && result@ == end,
                Err(message) => compared matches Err(error) && error@ == message,
            },
    {
        let ghost patterns = self.patterns();
        self.begin();
        let mut results: Vec<HashResult> = Vec::new();
        match self.gather_source(source, &mut results) {
            Err(error) => {
                return Err(error);
            },
            Ok(()) => {},
        }
        proof {
            assert(self.excluded() =~= excluded_of(patterns, source@));
            assert(views_of(results@) =~= hash_results(patterns, source@));
        }
        let index = match PendingIndex::build(&results, 0) {
            Err(error) => {
                return Err(error);
            },
            Ok(index) => index,
        };
        let mut found: Vec<HashResult> = Vec::new();
        let mut t: usize = 0;
        while t < destinations.len()
            invariant
                t <= destinations.len(),
                patterns == old(self).patterns(),
                self.patterns() == patterns,
                self.progress_shown() == old(self).progress_shown(),
                self.workers() == old(self).workers(),
                self.excluded() == excluded_of(patterns, source@),
                walk_failure(source@) is None,
                first_failure(hash_results(patterns, source@)) is None,
                walk_failure(all_items(destinations@.take(t as int))) is None,
                views_of(found@) == hash_results(
                    Seq::empty(),
                    all_items(destinations@.take(t as int)),
                ),
            decreases destinations.len() - t,
        {
            let ghost before = all_items(destinations@.take(t as int));
            proof {
                assert(destinations@.take(t + 1).drop_last() =~= destinations@.take(t as int));
                assert(destinations@.take(t + 1).last() == destinations@[t as int]);
                lemma_walk_failure_concat(before, destinations@[t as int]@);
                lemma_hash_results_concat(Seq::empty(), before, destinations@[t as int]@);
            }
            match self.gather_destination(&destinations[t], &mut found) {
                Err(error) => {
                    proof {
                        lemma_all_items_failure_stays(destinations@, t + 1);
                    }
                    return Err(error);
                },
                Ok(()) => {},
            }
            t += 1;
        }
        proof {
            assert(destinations@.take(t as int) =~= destinations@);
        }
        index.resolve(&found, 0)
    }
}

/// Walks that failed within the first `n` trees failed there.
pub proof fn lemma_all_items_failure_stays(trees: Seq<Vec<WalkItem>>, n: int)
    requires
        0 <= n <= trees.len(),
        walk_failure(all_items(trees.take(n))) is Some,
    ensures
        walk_failure(all_items(trees)) == walk_failure(all_items(trees.take(n))),
    decreases trees.len() - n,
{
    if n < trees.len() {
        assert(trees.take(n + 1).drop_last() =~= trees.take(n));
        lemma_walk_failure_concat(all_items(trees.take(n)), trees[n]@);
        lemma_all_items_failure_stays(trees, n + 1);
    } else {
        assert(trees.take(n) =~= trees);
    }
}

} // verus!
