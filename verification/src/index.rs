//! The result aggregator: it takes the hash results of the source files into an
//! index by checksum, and resolves that index against the hash results of the
//! destination files.

use crate::error::{worker_fault_message, ConfirmerError};
use crate::model::{
    all_matched, classify, first_of, found_entry, has_checksum, lemma_file_joins_bucket,
    lemma_file_opens_bucket, lemma_paths_with_nonempty, lemma_paths_with_push, paths_with,
    source_buckets, unmatched_paths, Bucket, Hashed,
};
use crate::outcome::{entry_view, texts, ConfirmerResult, FileFound};
use vstd::hash_map::StringHashMap;
use vstd::prelude::*;

verus! {

/// What hashing one file yielded: its path, and its checksum or the failure to
/// read it.
#[derive(Debug)]
pub struct HashResult {
    pub path: String,
    pub checksum: Result<String, ConfirmerError>,
}

/// A hash result as plain text: the path, and the checksum or the message of the
/// failure.
pub struct HashResultView {
    pub path: Seq<char>,
    pub checksum: Result<Seq<char>, Seq<char>>,
}

impl View for HashResult {
    type V = HashResultView;

    open spec fn view(&self) -> HashResultView {
        HashResultView {
            path: self.path@,
            checksum: match self.checksum {
                Ok(checksum) => Ok(checksum@),
                Err(error) => Err(error@),
            },
        }
    }
}

/// The views of a sequence of hash results.
pub open spec fn views_of(results: Seq<HashResult>) -> Seq<HashResultView> {
    results.map_values(|r: HashResult| r@)
}

/// The message of the first result that holds a failure, if there is one.
pub open spec fn first_failure(results: Seq<HashResultView>) -> Option<Seq<char>>
    decreases results.len(),
{
    if results.len() == 0 {
        None
    } else if first_failure(results.drop_last()) is Some {
        first_failure(results.drop_last())
    } else {
        match results.last().checksum {
            Ok(_) => None,
            Err(message) => Some(message),
        }
    }
}

/// The files that were hashed, in the order of their results.
pub open spec fn hashed(results: Seq<HashResultView>) -> Seq<Hashed>
    decreases results.len(),
{
    if results.len() == 0 {
        Seq::empty()
    } else {
        match results.last().checksum {
            Ok(checksum) => hashed(results.drop_last()).push(
                Hashed { path: results.last().path, checksum },
            ),
            Err(_) => hashed(results.drop_last()),
        }
    }
}

/// The failure that ends a phase, if there is one: an abnormal end of any hashing
/// task comes before everything else, then the first read failure among the
/// results.
pub open spec fn phase_failure(results: Seq<HashResultView>, worker_faults: usize) -> Option<
    Seq<char>,
> {
    if worker_faults > 0 {
        Some(worker_fault_message())
    } else {
        first_failure(results)
    }
}

/// The buckets that a list of entries stands for.
pub open spec fn buckets_of(entries: Seq<(String, FileFound)>) -> Seq<Bucket> {
    Seq::new(
        entries.len(),
        |i: int| Bucket { checksum: entries[i].0@, src_paths: texts(entries[i].1.src_paths@) },
    )
}

/// Whether `slots` finds each entry by its checksum, and nothing else.
pub open spec fn slots_find(entries: Seq<(String, FileFound)>, slots: Map<Seq<char>, usize>) -> bool {
    &&& forall|i: int|
        0 <= i < entries.len() ==> slots.contains_key(#[trigger] entries[i].0@) && slots[entries[i].0@]
            == i
    &&& forall|c: Seq<char>| #[trigger]
        slots.contains_key(c) ==> slots[c] < entries.len() && entries[slots[c] as int].0@ == c
}

/// Whether every entry has a source path and is still without a destination path.
pub open spec fn all_pending(entries: Seq<(String, FileFound)>) -> bool {
    forall|i: int|
        0 <= i < entries.len() ==> (#[trigger] entries[i]).1.src_paths.len() > 0
            && entries[i].1.dest_paths.len() == 0
}

/// The source files by checksum: what the source phase leaves behind for the
/// destination phase.
///
/// Each checksum has one bucket, the buckets stand in the order in which their
/// checksums first arrived, and each bucket holds its paths in arrival order.
pub struct PendingIndex {
    entries: Vec<(String, FileFound)>,
    slots: StringHashMap<usize>,
}

impl View for PendingIndex {
    type V = Seq<Bucket>;

    closed spec fn view(&self) -> Seq<Bucket> {
        buckets_of(self.entries@)
    }
}

impl PendingIndex {
    #[verifier::type_invariant]
    spec fn well_formed(self) -> bool {
        slots_find(self.entries@, self.slots@) && all_pending(self.entries@)
    }

    /// The source phase: takes the hash results of the source files, in the order
    /// they arrived, into an index.
    ///
    /// `worker_faults` is the pool's count of hashing tasks that ended abnormally.
    /// Any such task fails the phase, and so does the first result that holds a
    /// read failure: its error is handed on as it is. Nothing of a failed phase
    /// is kept.
    pub fn build(results: &Vec<HashResult>, worker_faults: usize) -> (built: Result<
        PendingIndex,
        ConfirmerError,
    >)
        ensures
            match phase_failure(views_of(results@), worker_faults) {
                Some(message) => built matches Err(error) && error@ == message,
                None => built matches Ok(index) && index@ == source_buckets(
                    hashed(views_of(results@)),
                ),
            },
    {
        if worker_faults > 0 {
            return Err(ConfirmerError::worker_fault());
        }
        let mut entries: Vec<(String, FileFound)> = Vec::new();
        let mut slots: StringHashMap<usize> = StringHashMap::new();
        let ghost all = views_of(results@);
        let mut k: usize = 0;
        while k < results.len()
            invariant
                worker_faults == 0,
                k <= results.len(),
                all == views_of(results@),
                first_failure(all.take(k as int)) is None,
                slots_find(entries@, slots@),
                all_pending(entries@),
                buckets_of(entries@) == source_buckets(hashed(all.take(k as int))),
            decreases results.len() - k,
        {
            let result = &results[k];
            let ghost files = hashed(all.take(k as int));
            proof {
                assert(all.take(k + 1).drop_last() =~= all.take(k as int));
                assert(all.take(k + 1).last() == results@[k as int]@);
            }
            match &result.checksum {
                Err(error) => {
                    proof {
                        assert(first_failure(all.take(k + 1)) == Some(error@));
                        lemma_failure_stays(all, k + 1);
                    }
                    return Err(error.duplicate());
                },
                Ok(checksum) => {
                    let ghost file = Hashed { path: result.path@, checksum: checksum@ };
                    let ghost before = entries@;
                    match slots.get(checksum.as_str()) {
                        Some(slot) => {
                            let i = *slot;
                            entries[i].1.src_paths.push(result.path.clone());
                            proof {
                                assert(buckets_of(before)[i as int].checksum == file.checksum);
                                lemma_file_joins_bucket(files, file, i as int);
                                assert(texts(entries@[i as int].1.src_paths@) =~= texts(
                                    before[i as int].1.src_paths@,
                                ).push(file.path));
                                assert(buckets_of(entries@) =~= buckets_of(before).update(
                                    i as int,
                                    Bucket {
                                        checksum: file.checksum,
                                        src_paths: buckets_of(before)[i as int].src_paths.push(
                                            file.path,
                                        ),
                                    },
                                ));
                            }
                        },
                        None => {
                            let mut src_paths: Vec<String> = Vec::new();
                            src_paths.push(result.path.clone());
                            slots.insert(checksum.clone(), entries.len());
                            entries.push(
                                (checksum.clone(), FileFound { src_paths, dest_paths: Vec::new() }),
                            );
                            proof {
                                assert forall|j: int| 0 <= j < before.len() implies (
                                #[trigger] buckets_of(before)[j]).checksum != file.checksum by {
                                    assert(before[j].0@ != file.checksum);
                                }
                                lemma_file_opens_bucket(files, file);
                                assert(texts(entries@[before.len() as int].1.src_paths@)
                                    =~= seq![file.path]);
                                assert(buckets_of(entries@) =~= buckets_of(before).push(
                                    Bucket { checksum: file.checksum, src_paths: seq![file.path] },
                                ));
                            }
                        },
                    }
                },
            }
            k += 1;
        }
        proof {
            assert(all.take(k as int) =~= all);
        }
        Ok(PendingIndex { entries, slots })
    }

    /// The destination phase, and how the run ends. It resolves the index against the hash
    /// results of the destination files, in the order they arrived.
    ///
    /// The phase fails as the source phase does. Otherwise a destination file
    /// whose checksum the index does not hold is passed over, and so is one whose
    /// bucket an earlier destination file has resolved. If every bucket is
    /// resolved the run ends in `AllPresent`, with one entry per bucket; if not, it
    /// is `MissingFiles`, with the paths of the buckets that are left.
    pub fn resolve(self, results: &Vec<HashResult>, worker_faults: usize) -> (resolved: Result<
        ConfirmerResult,
        ConfirmerError,
    >)
        ensures
            match phase_failure(views_of(results@), worker_faults) {
                Some(message) => resolved matches Err(error) && error@ == message,
                None => resolved matches Ok(end) && end@ == classify(
                    self@,
                    hashed(views_of(results@)),
                ),
            },
    {
        proof {
            use_type_invariant(&self);
        }
        if worker_faults > 0 {
            return Err(ConfirmerError::worker_fault());
        }
        let ghost buckets = self@;
        let PendingIndex { entries, slots } = self;
        let mut entries = entries;
        let ghost all = views_of(results@);
        let mut k: usize = 0;
        while k < results.len()
            invariant
                worker_faults == 0,
                k <= results.len(),
                all == views_of(results@),
                first_failure(all.take(k as int)) is None,
                slots_find(entries@, slots@),
                buckets_of(entries@) == buckets,
                all_pending_sources(entries@),
                forall|i: int|
                    0 <= i < entries.len() ==> texts((#[trigger] entries[i]).1.dest_paths@)
                        == first_of(paths_with(hashed(all.take(k as int)), entries[i].0@)),
            decreases results.len() - k,
        {
            let result = &results[k];
            let ghost files = hashed(all.take(k as int));
            proof {
                assert(all.take(k + 1).drop_last() =~= all.take(k as int));
                assert(all.take(k + 1).last() == results@[k as int]@);
            }
            match &result.checksum {
                Err(error) => {
                    proof {
                        assert(first_failure(all.take(k + 1)) == Some(error@));
                        lemma_failure_stays(all, k + 1);
                    }
                    return Err(error.duplicate());
                },
                Ok(checksum) => {
                    let ghost file = Hashed { path: result.path@, checksum: checksum@ };
                    let ghost before = entries@;
                    proof {
                        assert forall|c: Seq<char>| #[trigger]
                            paths_with(files.push(file), c) == if file.checksum == c {
                                paths_with(files, c).push(file.path)
                            } else {
                                paths_with(files, c)
                            } by {
                            lemma_paths_with_push(files, file, c);
                        }
                    }
                    match slots.get(checksum.as_str()) {
                        Some(slot) => {
                            let i = *slot;
                            if entries[i].1.dest_paths.len() == 0 {
                                entries[i].1.dest_paths.push(result.path.clone());
                                proof {
                                    assert(texts(entries@[i as int].1.dest_paths@) =~= seq![
                                        file.path,
                                    ]);
                                    assert(paths_with(files, file.checksum).len() == 0);
                                }
                            }
                            proof {
                                assert forall|j: int| 0 <= j < entries.len() implies texts(
                                    (#[trigger] entries@[j]).1.dest_paths@,
                                ) == first_of(paths_with(files.push(file), entries@[j].0@)) by {
                                    if j == i {
                                        assert(first_of(
                                            paths_with(files, file.checksum).push(file.path),
                                        ) =~= if paths_with(files, file.checksum).len() == 0 {
                                            seq![file.path]
                                        } else {
                                            first_of(paths_with(files, file.checksum))
                                        });
                                    } else {
                                        assert(entries@[j] == before[j]);
                                    }
                                }
                                assert(buckets_of(entries@) =~= buckets_of(before));
                            }
                        },
                        None => {
                            proof {
                                assert forall|j: int| 0 <= j < entries.len() implies (
                                #[trigger] entries@[j]).0@ != file.checksum by {}
                            }
                        },
                    }
                },
            }
            k += 1;
        }
        let ghost dst = hashed(all);
        proof {
            assert(all.take(k as int) =~= all);
        }
        let mut missing: Vec<String> = Vec::new();
        let mut i: usize = 0;
        while i < entries.len()
            invariant
                i <= entries.len(),
                buckets_of(entries@) == buckets,
                forall|j: int|
                    0 <= j < entries.len() ==> texts((#[trigger] entries[j]).1.dest_paths@)
                        == first_of(paths_with(dst, entries[j].0@)),
                texts(missing@) == unmatched_paths(buckets.take(i as int), dst),
                missing.len() == 0 <==> all_matched(buckets.take(i as int), dst),
                all_pending_sources(entries@),
            decreases entries.len() - i,
        {
            proof {
                assert(buckets.take(i + 1).drop_last() =~= buckets.take(i as int));
                assert(buckets.take(i + 1).last() == buckets[i as int]);
                assert(buckets_of(entries@)[i as int].checksum == entries[i as int].0@);
                lemma_paths_with_nonempty(dst, entries[i as int].0@);
                assert(texts(entries[i as int].1.dest_paths@).len()
                    == entries[i as int].1.dest_paths.len());
            }
            if entries[i].1.dest_paths.len() == 0 {
                let ghost before = missing@;
                let paths = &entries[i].1.src_paths;
                let mut n: usize = 0;
                while n < paths.len()
                    invariant
                        n <= paths.len(),
                        texts(missing@) == texts(before) + texts(paths@).take(n as int),
                    decreases paths.len() - n,
                {
                    let ghost held = missing@;
                    missing.push(paths[n].clone());
                    proof {
                        assert(texts(missing@) =~= texts(held).push(paths@[n as int]@));
                        assert(texts(paths@).take(n + 1) =~= texts(paths@).take(n as int).push(
                            paths@[n as int]@,
                        ));
                        assert(texts(missing@) =~= texts(before) + texts(paths@).take(n + 1));
                    }
                    n += 1;
                }
                proof {
                    assert(texts(paths@).take(n as int) =~= texts(paths@));
                    assert(buckets_of(entries@)[i as int].src_paths == texts(paths@));
                    assert(!has_checksum(dst, buckets[i as int].checksum));
                    assert(!all_matched(buckets.take(i + 1), dst));
                    assert(missing.len() > 0);
                }
            } else {
                proof {
                    assert(has_checksum(dst, buckets[i as int].checksum));
                    assert(all_matched(buckets.take(i + 1), dst) == all_matched(
                        buckets.take(i as int),
                        dst,
                    )) by {
                        if all_matched(buckets.take(i as int), dst) {
                            assert forall|j: int| 0 <= j < i + 1 implies has_checksum(
                                dst,
                                (#[trigger] buckets.take(i + 1)[j]).checksum,
                            ) by {
                                if j < i {
                                    assert(buckets.take(i as int)[j] == buckets.take(i + 1)[j]);
                                }
                            }
                        } else {
                            let j = choose|j: int|
                                0 <= j < i && !has_checksum(
                                    dst,
                                    (#[trigger] buckets.take(i as int)[j]).checksum,
                                );
                            assert(buckets.take(i + 1)[j] == buckets.take(i as int)[j]);
                        }
                    }
                }
            }
            i += 1;
        }
        proof {
            assert(buckets.take(i as int) =~= buckets);
        }
        if missing.len() == 0 {
            proof {
                assert(entries@.map_values(|e: (String, FileFound)| entry_view(e)) =~= Seq::new(
                    buckets.len(),
                    |j: int| found_entry(buckets[j], dst),
                )) by {
                    assert forall|j: int| 0 <= j < entries.len() implies entry_view(entries@[j])
                        == found_entry(buckets[j], dst) by {
                        assert(buckets_of(entries@)[j] == buckets[j]);
                    }
                }
            }
            Ok(ConfirmerResult::AllPresent(entries))
        } else {
            Ok(ConfirmerResult::MissingFiles(missing))
        }
    }
}

/// Whether every entry has a source path.
pub open spec fn all_pending_sources(entries: Seq<(String, FileFound)>) -> bool {
    forall|i: int| 0 <= i < entries.len() ==> (#[trigger] entries[i]).1.src_paths.len() > 0
}

/// A failure among the first `n` results is the first failure of them all.
pub proof fn lemma_failure_stays(results: Seq<HashResultView>, n: int)
    requires
        0 <= n <= results.len(),
        first_failure(results.take(n)) is Some,
    ensures
        first_failure(results) == first_failure(results.take(n)),
    decreases results.len() - n,
{
    if n < results.len() {
        assert(results.take(n + 1).drop_last() =~= results.take(n));
        lemma_failure_stays(results, n + 1);
    } else {
        assert(results.take(n) =~= results);
    }
}

/// Where no result holds a failure, each result is one hashed file, in its place.
pub proof fn lemma_hashed_all(results: Seq<HashResultView>)
    requires
        first_failure(results) is None,
    ensures
        hashed(results).len() == results.len(),
        forall|k: int|
            0 <= k < results.len() ==> (#[trigger] results[k]).checksum == Ok::<
                Seq<char>,
                Seq<char>,
            >(hashed(results)[k].checksum) && hashed(results)[k].path == results[k].path,
    decreases results.len(),
{
    if results.len() > 0 {
        let rest = results.drop_last();
        lemma_hashed_all(rest);
        assert forall|k: int| 0 <= k < results.len() implies (#[trigger] results[k]).checksum
            == Ok::<Seq<char>, Seq<char>>(hashed(results)[k].checksum) && hashed(results)[k].path
            == results[k].path by {
            if k < rest.len() {
                assert(rest[k] == results[k]);
            }
        }
    }
}

} // verus!
