//! The mathematics of a comparison: files told apart by checksum, the buckets
//! they fall into, and the result that follows.
//!
//! Everything here is specification. The executable aggregator is proved against
//! it, and the laws of the library are stated over it.

use vstd::prelude::*;
use vstd::seq_lib::{lemma_multiset_commutative, to_multiset_build};

verus! {

/// A file whose content has been hashed: where it is and what it hashes to.
pub struct Hashed {
    pub path: Seq<char>,
    pub checksum: Seq<char>,
}

/// All the source files that share one checksum, in the order they arrived.
pub struct Bucket {
    pub checksum: Seq<char>,
    pub src_paths: Seq<Seq<char>>,
}

/// The files that share one checksum on both sides.
pub struct FileFoundView {
    pub src_paths: Seq<Seq<char>>,
    pub dest_paths: Seq<Seq<char>>,
}

/// How a comparison ends when nothing fails.
pub enum ConfirmerResultView {
    /// Every source file has a copy; one entry per checksum of the source.
    AllPresent(Seq<(Seq<char>, FileFoundView)>),
    /// The source files that have no copy.
    MissingFiles(Seq<Seq<char>>),
}

/// Whether some file of `files` has checksum `c`.
pub open spec fn has_checksum(files: Seq<Hashed>, c: Seq<char>) -> bool {
    exists|i: int| 0 <= i < files.len() && (#[trigger] files[i]).checksum == c
}

/// The paths of the files of `files` with checksum `c`, in order.
pub open spec fn paths_with(files: Seq<Hashed>, c: Seq<char>) -> Seq<Seq<char>>
    decreases files.len(),
{
    if files.len() == 0 {
        Seq::empty()
    } else if files.last().checksum == c {
        paths_with(files.drop_last(), c).push(files.last().path)
    } else {
        paths_with(files.drop_last(), c)
    }
}

/// The checksums of `files`, each once, in the order of their first appearance.
pub open spec fn checksums(files: Seq<Hashed>) -> Seq<Seq<char>>
    decreases files.len(),
{
    if files.len() == 0 {
        Seq::empty()
    } else if checksums(files.drop_last()).contains(files.last().checksum) {
        checksums(files.drop_last())
    } else {
        checksums(files.drop_last()).push(files.last().checksum)
    }
}

/// The index that the source files build: one bucket per checksum, in the order
/// in which the checksums first appeared.
pub open spec fn source_buckets(src: Seq<Hashed>) -> Seq<Bucket> {
    Seq::new(
        checksums(src).len(),
        |i: int| Bucket { checksum: checksums(src)[i], src_paths: paths_with(src, checksums(src)[i]) },
    )
}

/// Whether every bucket has a destination file with its checksum.
pub open spec fn all_matched(buckets: Seq<Bucket>, dst: Seq<Hashed>) -> bool {
    forall|i: int| 0 <= i < buckets.len() ==> has_checksum(dst, (#[trigger] buckets[i]).checksum)
}

/// The paths of the buckets that no destination file matches: bucket by bucket,
/// and within a bucket in arrival order.
pub open spec fn unmatched_paths(buckets: Seq<Bucket>, dst: Seq<Hashed>) -> Seq<Seq<char>>
    decreases buckets.len(),
{
    if buckets.len() == 0 {
        Seq::empty()
    } else if has_checksum(dst, buckets.last().checksum) {
        unmatched_paths(buckets.drop_last(), dst)
    } else {
        unmatched_paths(buckets.drop_last(), dst) + buckets.last().src_paths
    }
}

/// The first of `paths` alone, or nothing where there is none.
pub open spec fn first_of(paths: Seq<Seq<char>>) -> Seq<Seq<char>> {
    if paths.len() == 0 {
        Seq::empty()
    } else {
        seq![paths[0]]
    }
}

/// What a bucket becomes once the destinations are known. Only the first
/// destination file with the checksum is recorded: a later one finds the bucket
/// already resolved and is passed over.
pub open spec fn found_entry(bucket: Bucket, dst: Seq<Hashed>) -> (Seq<char>, FileFoundView) {
    (
        bucket.checksum,
        FileFoundView {
            src_paths: bucket.src_paths,
            dest_paths: first_of(paths_with(dst, bucket.checksum)),
        },
    )
}

/// How a run ends on a source index, given the destination files.
pub open spec fn classify(buckets: Seq<Bucket>, dst: Seq<Hashed>) -> ConfirmerResultView {
    if all_matched(buckets, dst) {
        ConfirmerResultView::AllPresent(Seq::new(buckets.len(), |i: int| found_entry(buckets[i], dst)))
    } else {
        ConfirmerResultView::MissingFiles(unmatched_paths(buckets, dst))
    }
}

/// How a run ends on source files `src` and destination files `dst`.
pub open spec fn outcome(src: Seq<Hashed>, dst: Seq<Hashed>) -> ConfirmerResultView {
    classify(source_buckets(src), dst)
}

/// The checksums found on both sides, each with its files.
pub open spec fn found_index(src: Seq<Hashed>, dst: Seq<Hashed>) -> Map<Seq<char>, FileFoundView> {
    Map::new(
        |c: Seq<char>| has_checksum(src, c) && has_checksum(dst, c),
        |c: Seq<char>|
            FileFoundView { src_paths: paths_with(src, c), dest_paths: first_of(paths_with(dst, c)) },
    )
}

/// The checksums of the source that no destination file has, each with its files.
pub open spec fn pending_index(src: Seq<Hashed>, dst: Seq<Hashed>) -> Map<Seq<char>, Seq<Seq<char>>> {
    Map::new(
        |c: Seq<char>| has_checksum(src, c) && !has_checksum(dst, c),
        |c: Seq<char>| paths_with(src, c),
    )
}

/// How many source paths a list of found entries holds.
pub open spec fn total_src_paths(entries: Seq<(Seq<char>, FileFoundView)>) -> nat
    decreases entries.len(),
{
    if entries.len() == 0 {
        0
    } else {
        total_src_paths(entries.drop_last()) + entries.last().1.src_paths.len()
    }
}

/// What one more file does to the paths of a checksum.
pub proof fn lemma_paths_with_push(files: Seq<Hashed>, f: Hashed, c: Seq<char>)
    ensures
        paths_with(files.push(f), c) == if f.checksum == c {
            paths_with(files, c).push(f.path)
        } else {
            paths_with(files, c)
        },
{
    assert(files.push(f).drop_last() =~= files);
}

/// What one more file does to the list of checksums.
pub proof fn lemma_checksums_push(files: Seq<Hashed>, f: Hashed)
    ensures
        checksums(files.push(f)) == if checksums(files).contains(f.checksum) {
            checksums(files)
        } else {
            checksums(files).push(f.checksum)
        },
{
    assert(files.push(f).drop_last() =~= files);
}

/// A checksum is listed exactly when some file has it, and no checksum is listed
/// twice.
pub proof fn lemma_checksums(files: Seq<Hashed>)
    ensures
        checksums(files).no_duplicates(),
        forall|c: Seq<char>| #[trigger] checksums(files).contains(c) <==> has_checksum(files, c),
    decreases files.len(),
{
    if files.len() > 0 {
        let rest = files.drop_last();
        let last = files.last();
        lemma_checksums(rest);
        assert forall|c: Seq<char>| #[trigger]
            checksums(files).contains(c) <==> has_checksum(files, c) by {
            if checksums(files).contains(c) {
                if checksums(rest).contains(c) {
                    let i = choose|i: int| 0 <= i < rest.len() && (#[trigger] rest[i]).checksum == c;
                    assert(files[i].checksum == c);
                } else {
                    let k = choose|k: int| 0 <= k < checksums(files).len() && checksums(files)[k] == c;
                    assert(c == last.checksum);
                    assert(files[files.len() - 1].checksum == c);
                }
            }
            if has_checksum(files, c) {
                let i = choose|i: int| 0 <= i < files.len() && (#[trigger] files[i]).checksum == c;
                if i < rest.len() {
                    assert(rest[i].checksum == c);
                    assert(checksums(rest).contains(c));
                    let k = choose|k: int| 0 <= k < checksums(rest).len() && checksums(rest)[k] == c;
                    assert(checksums(files)[k] == c);
                } else {
                    if !checksums(rest).contains(c) {
                        assert(checksums(files)[checksums(files).len() - 1] == c);
                    }
                }
            }
        }
    }
}

/// A checksum has paths exactly when some file has it.
pub proof fn lemma_paths_with_nonempty(files: Seq<Hashed>, c: Seq<char>)
    ensures
        paths_with(files, c).len() > 0 <==> has_checksum(files, c),
    decreases files.len(),
{
    if files.len() > 0 {
        let rest = files.drop_last();
        lemma_paths_with_nonempty(rest, c);
        if has_checksum(files, c) {
            let i = choose|i: int| 0 <= i < files.len() && (#[trigger] files[i]).checksum == c;
            if i < rest.len() {
                assert(rest[i].checksum == c);
            }
        }
        if paths_with(files, c).len() > 0 {
            if files.last().checksum == c {
                assert(files[files.len() - 1].checksum == c);
            } else {
                let i = choose|i: int| 0 <= i < rest.len() && (#[trigger] rest[i]).checksum == c;
                assert(files[i].checksum == c);
            }
        }
    }
}

/// A file whose checksum has a bucket joins that bucket, behind the files that are
/// in it. The other buckets stay as they are.
pub proof fn lemma_file_joins_bucket(files: Seq<Hashed>, f: Hashed, k: int)
    requires
        0 <= k < source_buckets(files).len(),
        source_buckets(files)[k].checksum == f.checksum,
    ensures
        source_buckets(files.push(f)) == source_buckets(files).update(
            k,
            Bucket {
                checksum: f.checksum,
                src_paths: source_buckets(files)[k].src_paths.push(f.path),
            },
        ),
{
    let cs = checksums(files);
    lemma_checksums(files);
    lemma_checksums_push(files, f);
    assert(cs[k] == f.checksum);
    assert forall|j: int| 0 <= j < cs.len() implies paths_with(files.push(f), #[trigger] cs[j])
        == if j == k {
        paths_with(files, cs[j]).push(f.path)
    } else {
        paths_with(files, cs[j])
    } by {
        lemma_paths_with_push(files, f, cs[j]);
    }
    assert(source_buckets(files.push(f)) =~= source_buckets(files).update(
        k,
        Bucket { checksum: f.checksum, src_paths: source_buckets(files)[k].src_paths.push(f.path) },
    ));
}

/// A file whose checksum has no bucket opens one, behind the others. The other
/// buckets stay as they are.
pub proof fn lemma_file_opens_bucket(files: Seq<Hashed>, f: Hashed)
    requires
        forall|k: int|
            0 <= k < source_buckets(files).len() ==> (#[trigger] source_buckets(files)[k]).checksum
                != f.checksum,
    ensures
        source_buckets(files.push(f)) == source_buckets(files).push(
            Bucket { checksum: f.checksum, src_paths: seq![f.path] },
        ),
{
    let cs = checksums(files);
    lemma_checksums(files);
    lemma_checksums_push(files, f);
    if cs.contains(f.checksum) {
        let k = choose|k: int| 0 <= k < cs.len() && cs[k] == f.checksum;
        assert(source_buckets(files)[k].checksum == f.checksum);
    }
    lemma_paths_with_nonempty(files, f.checksum);
    lemma_paths_with_push(files, f, f.checksum);
    assert(paths_with(files, f.checksum).push(f.path) =~= seq![f.path]);
    assert forall|j: int| 0 <= j < cs.len() implies paths_with(files.push(f), #[trigger] cs[j])
        == paths_with(files, cs[j]) by {
        lemma_paths_with_push(files, f, cs[j]);
        assert(source_buckets(files)[j].checksum == cs[j]);
    }
    assert(source_buckets(files.push(f)) =~= source_buckets(files).push(
        Bucket { checksum: f.checksum, src_paths: seq![f.path] },
    ));
}

/// Whether some file of `files` has checksum `c` and path `path`.
pub open spec fn has_file(files: Seq<Hashed>, c: Seq<char>, path: Seq<char>) -> bool {
    exists|i: int| 0 <= i < files.len() && #[trigger] files[i] == (Hashed { path, checksum: c })
}

/// The paths of a checksum are the paths of the files that have it: none is left
/// out, and none is added.
pub proof fn lemma_paths_with_members(files: Seq<Hashed>, c: Seq<char>)
    ensures
        forall|i: int|
            0 <= i < files.len() && (#[trigger] files[i]).checksum == c ==> paths_with(
                files,
                c,
            ).contains(files[i].path),
        forall|a: int|
            0 <= a < paths_with(files, c).len() ==> has_file(
                files,
                c,
                #[trigger] paths_with(files, c)[a],
            ),
    decreases files.len(),
{
    if files.len() > 0 {
        let rest = files.drop_last();
        let all = paths_with(files, c);
        lemma_paths_with_members(rest, c);
        assert forall|i: int| 0 <= i < files.len() && (#[trigger] files[i]).checksum == c implies all.contains(
            files[i].path,
        ) by {
            if i < rest.len() {
                assert(rest[i].checksum == c);
                let a = choose|a: int|
                    0 <= a < paths_with(rest, c).len() && paths_with(rest, c)[a] == rest[i].path;
                assert(all[a] == files[i].path);
            } else {
                assert(all[all.len() - 1] == files[i].path);
            }
        }
        assert forall|a: int| 0 <= a < all.len() implies has_file(files, c, #[trigger] all[a]) by {
            if a < paths_with(rest, c).len() {
                assert(all[a] == paths_with(rest, c)[a]);
                assert(has_file(rest, c, paths_with(rest, c)[a]));
                let i = choose|i: int|
                    0 <= i < rest.len() && #[trigger] rest[i] == (Hashed {
                        path: all[a],
                        checksum: c,
                    });
                assert(files[i] == rest[i]);
            } else {
                assert(files[files.len() - 1] == (Hashed { path: all[a], checksum: c }));
            }
        }
    }
}

/// Two files with one checksum stand in its paths as two entries, in their order.
pub proof fn lemma_paths_with_keeps_both(files: Seq<Hashed>, i: int, j: int)
    requires
        0 <= i < j < files.len(),
        files[i].checksum == files[j].checksum,
    ensures
        exists|a: int, b: int|
            0 <= a < b < paths_with(files, files[i].checksum).len() && #[trigger] paths_with(
                files,
                files[i].checksum,
            )[a] == files[i].path && #[trigger] paths_with(files, files[i].checksum)[b]
                == files[j].path,
    decreases files.len(),
{
    let c = files[i].checksum;
    let rest = files.drop_last();
    let all = paths_with(files, c);
    if j == files.len() - 1 {
        lemma_paths_with_members(rest, c);
        assert(rest[i].checksum == c);
        let a = choose|a: int|
            0 <= a < paths_with(rest, c).len() && paths_with(rest, c)[a] == rest[i].path;
        let b = all.len() - 1;
        assert(all[a] == files[i].path && all[b] == files[j].path);
    } else {
        lemma_paths_with_keeps_both(rest, i, j);
        let (a, b) = choose|a: int, b: int|
            0 <= a < b < paths_with(rest, c).len() && #[trigger] paths_with(rest, c)[a]
                == rest[i].path && #[trigger] paths_with(rest, c)[b] == rest[j].path;
        assert(all[a] == files[i].path && all[b] == files[j].path);
    }
}

/// The paths of a bucket that no destination file matches are all among the
/// unmatched paths.
pub proof fn lemma_unmatched_holds_bucket(buckets: Seq<Bucket>, dst: Seq<Hashed>, k: int)
    requires
        0 <= k < buckets.len(),
        !has_checksum(dst, buckets[k].checksum),
    ensures
        forall|a: int|
            0 <= a < buckets[k].src_paths.len() ==> unmatched_paths(buckets, dst).contains(
                #[trigger] buckets[k].src_paths[a],
            ),
    decreases buckets.len(),
{
    let rest = buckets.drop_last();
    let all = unmatched_paths(buckets, dst);
    if k == buckets.len() - 1 {
        assert forall|a: int| 0 <= a < buckets[k].src_paths.len() implies all.contains(
            #[trigger] buckets[k].src_paths[a],
        ) by {
            assert(all[unmatched_paths(rest, dst).len() + a] == buckets[k].src_paths[a]);
        }
    } else {
        lemma_unmatched_holds_bucket(rest, dst, k);
        assert forall|a: int| 0 <= a < buckets[k].src_paths.len() implies all.contains(
            #[trigger] buckets[k].src_paths[a],
        ) by {
            assert(rest[k] == buckets[k]);
            let path = buckets[k].src_paths[a];
            assert(unmatched_paths(rest, dst).contains(path));
            let n = choose|n: int|
                0 <= n < unmatched_paths(rest, dst).len() && unmatched_paths(rest, dst)[n] == path;
            assert(all[n] == path);
        }
    }
}

/// Each of the unmatched paths comes from a bucket that no destination file
/// matches.
pub proof fn lemma_unmatched_comes_from_bucket(buckets: Seq<Bucket>, dst: Seq<Hashed>, n: int)
    requires
        0 <= n < unmatched_paths(buckets, dst).len(),
    ensures
        exists|k: int, a: int|
            0 <= k < buckets.len() && 0 <= a < (#[trigger] buckets[k]).src_paths.len()
                && !has_checksum(dst, buckets[k].checksum) && #[trigger] buckets[k].src_paths[a]
                == unmatched_paths(buckets, dst)[n],
    decreases buckets.len(),
{
    let rest = buckets.drop_last();
    let before = unmatched_paths(rest, dst);
    if n < before.len() {
        lemma_unmatched_comes_from_bucket(rest, dst, n);
        let (k, a) = choose|k: int, a: int|
            0 <= k < rest.len() && 0 <= a < (#[trigger] rest[k]).src_paths.len() && !has_checksum(
                dst,
                rest[k].checksum,
            ) && #[trigger] rest[k].src_paths[a] == before[n];
        assert(buckets[k] == rest[k]);
        assert(buckets[k].src_paths[a] == unmatched_paths(buckets, dst)[n]);
    } else {
        let k = buckets.len() - 1;
        let a = n - before.len();
        assert(buckets[k].src_paths[a] == unmatched_paths(buckets, dst)[n]);
    }
}

/// How many files of `files` have one of the checksums `cs`.
pub open spec fn count_with(cs: Seq<Seq<char>>, files: Seq<Hashed>) -> nat
    decreases cs.len(),
{
    if cs.len() == 0 {
        0
    } else {
        count_with(cs.drop_last(), files) + paths_with(files, cs.last()).len()
    }
}

/// One more file counts once where its checksum is listed, and not at all where
/// it is not.
pub proof fn lemma_count_with_push(cs: Seq<Seq<char>>, files: Seq<Hashed>, f: Hashed)
    requires
        cs.no_duplicates(),
    ensures
        count_with(cs, files.push(f)) == count_with(cs, files) + if cs.contains(f.checksum) {
            1nat
        } else {
            0nat
        },
    decreases cs.len(),
{
    if cs.len() > 0 {
        let rest = cs.drop_last();
        lemma_count_with_push(rest, files, f);
        lemma_paths_with_push(files, f, cs.last());
        if cs.last() == f.checksum {
            if rest.contains(f.checksum) {
                let k = choose|k: int| 0 <= k < rest.len() && rest[k] == f.checksum;
                assert(cs[k] == cs[cs.len() - 1]);
            }
            assert(cs[cs.len() - 1] == f.checksum);
        } else {
            if cs.contains(f.checksum) {
                let k = choose|k: int| 0 <= k < cs.len() && cs[k] == f.checksum;
                assert(rest[k] == f.checksum);
            }
            if rest.contains(f.checksum) {
                let k = choose|k: int| 0 <= k < rest.len() && rest[k] == f.checksum;
                assert(cs[k] == f.checksum);
            }
        }
    }
}

/// Every file has one of the checksums of the files.
pub proof fn lemma_count_with_checksums(files: Seq<Hashed>)
    ensures
        count_with(checksums(files), files) == files.len(),
    decreases files.len(),
{
    if files.len() > 0 {
        let rest = files.drop_last();
        let f = files.last();
        assert(rest.push(f) =~= files);
        lemma_count_with_checksums(rest);
        lemma_checksums(rest);
        lemma_checksums_push(rest, f);
        lemma_count_with_push(checksums(rest), rest, f);
        if !checksums(rest).contains(f.checksum) {
            lemma_paths_with_push(rest, f, f.checksum);
            lemma_paths_with_nonempty(rest, f.checksum);
            assert(checksums(rest).push(f.checksum).drop_last() =~= checksums(rest));
        }
    }
}

/// The source paths of found entries are as many as the files that have the
/// checksums of the entries.
pub proof fn lemma_total_src_paths(
    entries: Seq<(Seq<char>, FileFoundView)>,
    cs: Seq<Seq<char>>,
    files: Seq<Hashed>,
)
    requires
        entries.len() == cs.len(),
        forall|k: int|
            0 <= k < entries.len() ==> (#[trigger] entries[k]).1.src_paths == paths_with(
                files,
                cs[k],
            ),
    ensures
        total_src_paths(entries) == count_with(cs, files),
    decreases entries.len(),
{
    if entries.len() > 0 {
        assert forall|k: int| 0 <= k < entries.drop_last().len() implies (
        #[trigger] entries.drop_last()[k]).1.src_paths == paths_with(files, cs.drop_last()[k]) by {
            assert(entries.drop_last()[k] == entries[k]);
        }
        lemma_total_src_paths(entries.drop_last(), cs.drop_last(), files);
    }
}

/// The paths of files, in their order.
pub open spec fn paths_of(files: Seq<Hashed>) -> Seq<Seq<char>> {
    files.map_values(|f: Hashed| f.path)
}

/// The paths of all buckets: bucket by bucket, and within a bucket in arrival
/// order.
pub open spec fn all_paths(buckets: Seq<Bucket>) -> Seq<Seq<char>>
    decreases buckets.len(),
{
    if buckets.len() == 0 {
        Seq::empty()
    } else {
        all_paths(buckets.drop_last()) + buckets.last().src_paths
    }
}

/// The paths of the buckets that some destination file matches: bucket by bucket,
/// and within a bucket in arrival order.
pub open spec fn matched_paths(buckets: Seq<Bucket>, dst: Seq<Hashed>) -> Seq<Seq<char>>
    decreases buckets.len(),
{
    if buckets.len() == 0 {
        Seq::empty()
    } else if has_checksum(dst, buckets.last().checksum) {
        matched_paths(buckets.drop_last(), dst) + buckets.last().src_paths
    } else {
        matched_paths(buckets.drop_last(), dst)
    }
}

/// One more path in one bucket is one more path among the paths of all buckets.
pub proof fn lemma_all_paths_grow(buckets: Seq<Bucket>, k: int, path: Seq<char>)
    requires
        0 <= k < buckets.len(),
    ensures
        all_paths(
            buckets.update(
                k,
                Bucket { checksum: buckets[k].checksum, src_paths: buckets[k].src_paths.push(path) },
            ),
        ).to_multiset() == all_paths(buckets).to_multiset().insert(path),
    decreases buckets.len(),
{
    let grown = Bucket { checksum: buckets[k].checksum, src_paths: buckets[k].src_paths.push(path) };
    let after = buckets.update(k, grown);
    let rest = buckets.drop_last();
    if k == buckets.len() - 1 {
        assert(after.drop_last() =~= rest);
        assert(all_paths(after) =~= all_paths(buckets).push(path));
        to_multiset_build(all_paths(buckets), path);
    } else {
        assert(after.drop_last() =~= rest.update(k, grown));
        assert(rest[k] == buckets[k]);
        lemma_all_paths_grow(rest, k, path);
        lemma_multiset_commutative(all_paths(after.drop_last()), buckets.last().src_paths);
        lemma_multiset_commutative(all_paths(rest), buckets.last().src_paths);
        assert(all_paths(after).to_multiset() =~= all_paths(buckets).to_multiset().insert(path));
    }
}

/// The buckets of the source hold each source path as often as the source has
/// files with it: no file is left out of its bucket, and none is in two.
pub proof fn lemma_buckets_hold_every_file(src: Seq<Hashed>)
    ensures
        all_paths(source_buckets(src)).to_multiset() == paths_of(src).to_multiset(),
    decreases src.len(),
{
    if src.len() == 0 {
        assert(paths_of(src) =~= Seq::empty());
        assert(source_buckets(src) =~= Seq::empty());
    } else {
        let rest = src.drop_last();
        let f = src.last();
        let before = source_buckets(rest);
        assert(rest.push(f) =~= src);
        lemma_buckets_hold_every_file(rest);
        assert(paths_of(src) =~= paths_of(rest).push(f.path));
        to_multiset_build(paths_of(rest), f.path);
        if exists|k: int| 0 <= k < before.len() && (#[trigger] before[k]).checksum == f.checksum {
            let k = choose|k: int|
                0 <= k < before.len() && (#[trigger] before[k]).checksum == f.checksum;
            lemma_file_joins_bucket(rest, f, k);
            lemma_all_paths_grow(before, k, f.path);
        } else {
            lemma_file_opens_bucket(rest, f);
            assert(source_buckets(src).drop_last() =~= before);
            assert(all_paths(source_buckets(src)) =~= all_paths(before).push(f.path));
            to_multiset_build(all_paths(before), f.path);
        }
    }
}

/// Each path of the buckets is matched or unmatched, and not both.
pub proof fn lemma_matched_or_unmatched(buckets: Seq<Bucket>, dst: Seq<Hashed>)
    ensures
        matched_paths(buckets, dst).to_multiset().add(unmatched_paths(buckets, dst).to_multiset())
            == all_paths(buckets).to_multiset(),
    decreases buckets.len(),
{
    if buckets.len() == 0 {
        assert(Seq::<Seq<char>>::empty().to_multiset().add(Seq::<Seq<char>>::empty().to_multiset())
            =~= Seq::<Seq<char>>::empty().to_multiset()) by {
            lemma_multiset_commutative(Seq::<Seq<char>>::empty(), Seq::<Seq<char>>::empty());
            assert(Seq::<Seq<char>>::empty() + Seq::<Seq<char>>::empty() =~= Seq::<
                Seq<char>,
            >::empty());
        }
    } else {
        let rest = buckets.drop_last();
        let last = buckets.last().src_paths;
        lemma_matched_or_unmatched(rest, dst);
        lemma_multiset_commutative(all_paths(rest), last);
        lemma_multiset_commutative(matched_paths(rest, dst), last);
        lemma_multiset_commutative(unmatched_paths(rest, dst), last);
        assert(matched_paths(buckets, dst).to_multiset().add(
            unmatched_paths(buckets, dst).to_multiset(),
        ) =~= all_paths(buckets).to_multiset());
    }
}

} // verus!
