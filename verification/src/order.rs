//! Why the order in which results arrive does not matter: which files are found
//! and which are missing depends on the files alone.

use crate::model::{
    all_matched, checksums, has_checksum, lemma_checksums, lemma_file_joins_bucket,
    lemma_file_opens_bucket, matched_paths, paths_with, source_buckets, unmatched_paths, Bucket,
    Hashed,
};
use vstd::prelude::*;
use vstd::seq_lib::{
    lemma_multiset_commutative, to_multiset_build, to_multiset_contains, to_multiset_len,
    to_multiset_remove,
};

verus! {

/// The paths of the files that `keep` holds of, in the order of the files.
pub open spec fn paths_where(files: Seq<Hashed>, keep: spec_fn(Hashed) -> bool) -> Seq<Seq<char>>
    decreases files.len(),
{
    if files.len() == 0 {
        Seq::empty()
    } else if keep(files.last()) {
        paths_where(files.drop_last(), keep).push(files.last().path)
    } else {
        paths_where(files.drop_last(), keep)
    }
}

/// Holds of a file whose checksum some file of `dst` has.
pub open spec fn with_copy(dst: Seq<Hashed>) -> spec_fn(Hashed) -> bool {
    |f: Hashed| has_checksum(dst, f.checksum)
}

/// Holds of a file whose checksum no file of `dst` has.
pub open spec fn without_copy(dst: Seq<Hashed>) -> spec_fn(Hashed) -> bool {
    |f: Hashed| !has_checksum(dst, f.checksum)
}

/// Holds of a file with checksum `c`.
pub open spec fn with_checksum(c: Seq<char>) -> spec_fn(Hashed) -> bool {
    |f: Hashed| f.checksum == c
}

/// Adds `path` where `added` holds.
pub open spec fn with_path(
    paths: vstd::multiset::Multiset<Seq<char>>,
    added: bool,
    path: Seq<char>,
) -> vstd::multiset::Multiset<Seq<char>> {
    if added {
        paths.insert(path)
    } else {
        paths
    }
}

/// Taking one file out takes its path out, where `keep` holds of it.
pub proof fn lemma_paths_where_remove(files: Seq<Hashed>, keep: spec_fn(Hashed) -> bool, j: int)
    requires
        0 <= j < files.len(),
    ensures
        paths_where(files, keep).to_multiset() == with_path(
            paths_where(files.remove(j), keep).to_multiset(),
            keep(files[j]),
            files[j].path,
        ),
    decreases files.len(),
{
    let rest = files.drop_last();
    if j == files.len() - 1 {
        assert(files.remove(j) =~= rest);
        to_multiset_build(paths_where(rest, keep), files[j].path);
    } else {
        assert(files.remove(j).drop_last() =~= rest.remove(j));
        assert(files.remove(j).last() == files.last());
        assert(rest[j] == files[j]);
        lemma_paths_where_remove(rest, keep, j);
        to_multiset_build(paths_where(rest, keep), files.last().path);
        to_multiset_build(paths_where(rest.remove(j), keep), files.last().path);
        assert(paths_where(files, keep).to_multiset() =~= with_path(
            paths_where(files.remove(j), keep).to_multiset(),
            keep(files[j]),
            files[j].path,
        ));
    }
}

/// The same files in another order have the same paths, each as often.
pub proof fn lemma_paths_where_permuted(
    first: Seq<Hashed>,
    second: Seq<Hashed>,
    keep: spec_fn(Hashed) -> bool,
)
    requires
        first.to_multiset() == second.to_multiset(),
    ensures
        paths_where(first, keep).to_multiset() == paths_where(second, keep).to_multiset(),
    decreases first.len(),
{
    to_multiset_len(first);
    to_multiset_len(second);
    if first.len() > 0 {
        let rest = first.drop_last();
        let last = first.last();
        assert(rest.push(last) =~= first);
        to_multiset_build(rest, last);
        to_multiset_contains(second, last);
        assert(first.to_multiset().count(last) > 0);
        let j = choose|j: int| 0 <= j < second.len() && second[j] == last;
        to_multiset_remove(second, j);
        assert(rest.to_multiset() =~= second.remove(j).to_multiset());
        lemma_paths_where_permuted(rest, second.remove(j), keep);
        lemma_paths_where_remove(second, keep, j);
        to_multiset_build(paths_where(rest, keep), last.path);
    } else {
        assert(second.len() == 0);
    }
}

/// Whether a file is kept is all that `keep` has a say in.
pub proof fn lemma_paths_where_same(
    files: Seq<Hashed>,
    first: spec_fn(Hashed) -> bool,
    second: spec_fn(Hashed) -> bool,
)
    requires
        forall|f: Hashed| #[trigger] first(f) == second(f),
    ensures
        paths_where(files, first) == paths_where(files, second),
    decreases files.len(),
{
    if files.len() > 0 {
        lemma_paths_where_same(files.drop_last(), first, second);
    }
}

/// The paths of a checksum are the paths of the files that have it.
pub proof fn lemma_paths_with_is_paths_where(files: Seq<Hashed>, c: Seq<char>)
    ensures
        paths_with(files, c) == paths_where(files, with_checksum(c)),
    decreases files.len(),
{
    if files.len() > 0 {
        lemma_paths_with_is_paths_where(files.drop_last(), c);
    }
}

/// The same files in another order have the same checksums.
pub proof fn lemma_has_checksum_permuted(first: Seq<Hashed>, second: Seq<Hashed>, c: Seq<char>)
    requires
        first.to_multiset() == second.to_multiset(),
    ensures
        has_checksum(first, c) == has_checksum(second, c),
{
    if has_checksum(first, c) {
        let i = choose|i: int| 0 <= i < first.len() && (#[trigger] first[i]).checksum == c;
        assert(first.contains(first[i]));
        to_multiset_contains(first, first[i]);
        to_multiset_contains(second, first[i]);
        let j = choose|j: int| 0 <= j < second.len() && second[j] == first[i];
        assert(second[j].checksum == c);
    }
    if has_checksum(second, c) {
        let i = choose|i: int| 0 <= i < second.len() && (#[trigger] second[i]).checksum == c;
        assert(second.contains(second[i]));
        to_multiset_contains(second, second[i]);
        to_multiset_contains(first, second[i]);
        let j = choose|j: int| 0 <= j < first.len() && first[j] == second[i];
        assert(first[j].checksum == c);
    }
}

/// One more path in one bucket is one more matched path where the bucket is
/// matched, and one more unmatched path where it is not.
pub proof fn lemma_paths_grow(buckets: Seq<Bucket>, dst: Seq<Hashed>, k: int, path: Seq<char>)
    requires
        0 <= k < buckets.len(),
    ensures
        ({
            let grown = Bucket {
                checksum: buckets[k].checksum,
                src_paths: buckets[k].src_paths.push(path),
            };
            let matched = has_checksum(dst, buckets[k].checksum);
            &&& matched_paths(buckets.update(k, grown), dst).to_multiset() == with_path(
                matched_paths(buckets, dst).to_multiset(),
                matched,
                path,
            )
            &&& unmatched_paths(buckets.update(k, grown), dst).to_multiset() == with_path(
                unmatched_paths(buckets, dst).to_multiset(),
                !matched,
                path,
            )
        }),
    decreases buckets.len(),
{
    let grown = Bucket { checksum: buckets[k].checksum, src_paths: buckets[k].src_paths.push(path) };
    let after = buckets.update(k, grown);
    let rest = buckets.drop_last();
    let matched = has_checksum(dst, buckets[k].checksum);
    if k == buckets.len() - 1 {
        assert(after.drop_last() =~= rest);
        if matched {
            assert(matched_paths(after, dst) =~= matched_paths(buckets, dst).push(path));
            to_multiset_build(matched_paths(buckets, dst), path);
        } else {
            assert(unmatched_paths(after, dst) =~= unmatched_paths(buckets, dst).push(path));
            to_multiset_build(unmatched_paths(buckets, dst), path);
        }
    } else {
        let last = buckets.last().src_paths;
        assert(after.drop_last() =~= rest.update(k, grown));
        assert(rest[k] == buckets[k]);
        lemma_paths_grow(rest, dst, k, path);
        lemma_multiset_commutative(matched_paths(after.drop_last(), dst), last);
        lemma_multiset_commutative(matched_paths(rest, dst), last);
        lemma_multiset_commutative(unmatched_paths(after.drop_last(), dst), last);
        lemma_multiset_commutative(unmatched_paths(rest, dst), last);
        assert(matched_paths(after, dst).to_multiset() =~= with_path(
            matched_paths(buckets, dst).to_multiset(),
            matched,
            path,
        ));
        assert(unmatched_paths(after, dst).to_multiset() =~= with_path(
            unmatched_paths(buckets, dst).to_multiset(),
            !matched,
            path,
        ));
    }
}

/// The matched paths are the paths of the source files that have a copy, and the
/// unmatched paths are the paths of those that have none: each path as often as
/// there are such files with it.
pub proof fn lemma_matched_are_copied(src: Seq<Hashed>, dst: Seq<Hashed>)
    ensures
        matched_paths(source_buckets(src), dst).to_multiset() == paths_where(
            src,
            with_copy(dst),
        ).to_multiset(),
        unmatched_paths(source_buckets(src), dst).to_multiset() == paths_where(
            src,
            without_copy(dst),
        ).to_multiset(),
    decreases src.len(),
{
    if src.len() == 0 {
        assert(source_buckets(src) =~= Seq::empty());
    } else {
        let rest = src.drop_last();
        let f = src.last();
        let before = source_buckets(rest);
        let after = source_buckets(src);
        assert(rest.push(f) =~= src);
        lemma_matched_are_copied(rest, dst);
        to_multiset_build(paths_where(rest, with_copy(dst)), f.path);
        to_multiset_build(paths_where(rest, without_copy(dst)), f.path);
        if exists|k: int| 0 <= k < before.len() && (#[trigger] before[k]).checksum == f.checksum {
            let k = choose|k: int|
                0 <= k < before.len() && (#[trigger] before[k]).checksum == f.checksum;
            lemma_file_joins_bucket(rest, f, k);
            lemma_paths_grow(before, dst, k, f.path);
        } else {
            lemma_file_opens_bucket(rest, f);
            assert(after.drop_last() =~= before);
            if has_checksum(dst, f.checksum) {
                assert(matched_paths(after, dst) =~= matched_paths(before, dst).push(f.path));
                to_multiset_build(matched_paths(before, dst), f.path);
            } else {
                assert(unmatched_paths(after, dst) =~= unmatched_paths(before, dst).push(f.path));
                to_multiset_build(unmatched_paths(before, dst), f.path);
            }
        }
    }
}

/// Every bucket of the source is matched exactly when every source file has a
/// copy.
pub proof fn lemma_all_matched_is_all_copied(src: Seq<Hashed>, dst: Seq<Hashed>)
    ensures
        all_matched(source_buckets(src), dst) <==> forall|i: int|
            0 <= i < src.len() ==> has_checksum(dst, (#[trigger] src[i]).checksum),
{
    lemma_checksums(src);
    let cs = checksums(src);
    let buckets = source_buckets(src);
    if all_matched(buckets, dst) {
        assert forall|i: int| 0 <= i < src.len() implies has_checksum(
            dst,
            (#[trigger] src[i]).checksum,
        ) by {
            assert(cs.contains(src[i].checksum));
            let k = choose|k: int| 0 <= k < cs.len() && cs[k] == src[i].checksum;
            assert(buckets[k].checksum == src[i].checksum);
        }
    }
    if forall|i: int| 0 <= i < src.len() ==> has_checksum(dst, (#[trigger] src[i]).checksum) {
        assert forall|k: int| 0 <= k < buckets.len() implies has_checksum(
            dst,
            (#[trigger] buckets[k]).checksum,
        ) by {
            assert(cs.contains(cs[k]));
            let i = choose|i: int| 0 <= i < src.len() && (#[trigger] src[i]).checksum == cs[k];
        }
    }
}

} // verus!
