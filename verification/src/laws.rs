//! What holds of every comparison: the laws of the library, each proved from the
//! definitions that the contracts of the library use.

use crate::model::{
    all_matched, all_paths, checksums, found_entry, found_index, has_checksum, has_file,
    lemma_buckets_hold_every_file, lemma_checksums, lemma_count_with_checksums,
    lemma_matched_or_unmatched, lemma_paths_with_keeps_both, lemma_paths_with_members,
    lemma_paths_with_nonempty, lemma_total_src_paths, lemma_unmatched_comes_from_bucket,
    lemma_unmatched_holds_bucket, matched_paths, outcome, paths_of, paths_with, pending_index,
    source_buckets, total_src_paths, unmatched_paths, Bucket, ConfirmerResultView, FileFoundView,
    Hashed,
};
use crate::checksum::checksum_of;
use crate::confirmer::{comparison, CopyConfirmer};
use crate::exclusion::{excluded, ExcludePattern};
use crate::index::{first_failure, hashed, lemma_hashed_all};
use crate::order::{
    lemma_all_matched_is_all_copied, lemma_has_checksum_permuted, lemma_matched_are_copied,
    lemma_paths_where_permuted, lemma_paths_where_same, lemma_paths_with_is_paths_where,
    paths_where, with_checksum, with_copy, without_copy,
};
use crate::walk::{
    all_items, excluded_of, file_paths, file_result, hash_results, is_admitted_file,
    is_excluded_file, lemma_excluded_files_are_listed, lemma_excluded_or_hashed,
    lemma_files_have_results, lemma_listed_files_are_excluded, lemma_results_come_from_files,
    path_of, walk_failure, WalkItem,
};
use vstd::prelude::*;

verus! {

/// The bucket of checksum `c` in the index of the source files: its place among
/// the buckets.
pub open spec fn bucket_of(src: Seq<Hashed>, c: Seq<char>) -> int {
    checksums(src).index_of(c)
}

/// Whether `paths` holds `first` and, somewhere behind it, `second`.
pub open spec fn holds_in_order(paths: Seq<Seq<char>>, first: Seq<char>, second: Seq<char>) -> bool {
    exists|a: int, b: int|
        0 <= a < b < paths.len() && #[trigger] paths[a] == first && #[trigger] paths[b] == second
}

/// Whether `path` stands among the source paths of some entry.
pub open spec fn found_as_source(entries: Seq<(Seq<char>, FileFoundView)>, path: Seq<char>) -> bool {
    exists|k: int|
        0 <= k < entries.len() && (#[trigger] entries[k]).1.src_paths.contains(path)
}

/// Whether `path` is the path of a source file whose checksum no destination file
/// has.
pub open spec fn is_uncopied(src: Seq<Hashed>, dst: Seq<Hashed>, path: Seq<char>) -> bool {
    exists|i: int|
        0 <= i < src.len() && !has_checksum(dst, (#[trigger] src[i]).checksum) && src[i].path
            == path
}

/// The index of the source has one bucket for each checksum of the source, and
/// the bucket of a checksum holds the paths of the files that have it.
pub proof fn law_one_bucket_per_checksum(src: Seq<Hashed>, c: Seq<char>)
    requires
        has_checksum(src, c),
    ensures
        0 <= bucket_of(src, c) < source_buckets(src).len(),
        source_buckets(src)[bucket_of(src, c)] == (Bucket {
            checksum: c,
            src_paths: paths_with(src, c),
        }),
        forall|k: int|
            0 <= k < source_buckets(src).len() && (#[trigger] source_buckets(src)[k]).checksum == c
                ==> k == bucket_of(src, c),
{
    lemma_checksums(src);
    let cs = checksums(src);
    assert(cs.contains(c));
    cs.index_of_first_ensures(c);
    let at = bucket_of(src, c);
    assert(0 <= at < cs.len() && cs[at] == c);
    assert forall|k: int|
        0 <= k < source_buckets(src).len() && (#[trigger] source_buckets(src)[k]).checksum
            == c implies k == at by {
        assert(cs[k] == cs[at]);
    }
}

/// If every source file has the checksum of some destination file, the run ends
/// in `AllPresent`, and the entries hold as many source paths as there are source
/// files.
pub proof fn law_copied_files_are_all_present(src: Seq<Hashed>, dst: Seq<Hashed>)
    requires
        forall|i: int| 0 <= i < src.len() ==> has_checksum(dst, (#[trigger] src[i]).checksum),
    ensures
        outcome(src, dst) matches ConfirmerResultView::AllPresent(found) && total_src_paths(found)
            == src.len(),
{
    lemma_checksums(src);
    let cs = checksums(src);
    let buckets = source_buckets(src);
    assert forall|k: int| 0 <= k < buckets.len() implies has_checksum(
        dst,
        (#[trigger] buckets[k]).checksum,
    ) by {
        assert(cs.contains(cs[k]));
        let i = choose|i: int| 0 <= i < src.len() && (#[trigger] src[i]).checksum == cs[k];
    }
    let found = Seq::new(buckets.len(), |k: int| found_entry(buckets[k], dst));
    lemma_total_src_paths(found, cs, src);
    lemma_count_with_checksums(src);
}

/// A source file whose checksum no destination file has is missing: the run ends
/// in `MissingFiles`, the file's path is among the missing, and its checksum is
/// not in the index of the found files but in that of the pending ones.
pub proof fn law_uncopied_file_is_missing(src: Seq<Hashed>, dst: Seq<Hashed>, i: int)
    requires
        0 <= i < src.len(),
        !has_checksum(dst, src[i].checksum),
    ensures
        outcome(src, dst) matches ConfirmerResultView::MissingFiles(missing) && missing.contains(
            src[i].path,
        ),
        !found_index(src, dst).contains_key(src[i].checksum),
        pending_index(src, dst).contains_key(src[i].checksum),
        pending_index(src, dst)[src[i].checksum].contains(src[i].path),
{
    let c = src[i].checksum;
    let buckets = source_buckets(src);
    law_one_bucket_per_checksum(src, c);
    let k = bucket_of(src, c);
    assert(buckets[k].checksum == c);
    assert(!all_matched(buckets, dst));
    lemma_paths_with_members(src, c);
    let a = choose|a: int| 0 <= a < paths_with(src, c).len() && paths_with(src, c)[a] == src[i].path;
    lemma_unmatched_holds_bucket(buckets, dst, k);
    assert(buckets[k].src_paths[a] == src[i].path);
}

/// The run ends in `MissingFiles` exactly when some source file has a checksum
/// that no destination file has; and every missing path is the path of such a
/// file.
pub proof fn law_missing_files_are_uncopied(src: Seq<Hashed>, dst: Seq<Hashed>)
    ensures
        outcome(src, dst) is MissingFiles <==> exists|i: int|
            0 <= i < src.len() && !has_checksum(dst, (#[trigger] src[i]).checksum),
        outcome(src, dst) matches ConfirmerResultView::MissingFiles(missing) ==> forall|n: int|
            0 <= n < missing.len() ==> is_uncopied(src, dst, #[trigger] missing[n]),
{
    lemma_checksums(src);
    let cs = checksums(src);
    let buckets = source_buckets(src);
    if exists|i: int| 0 <= i < src.len() && !has_checksum(dst, (#[trigger] src[i]).checksum) {
        let i = choose|i: int| 0 <= i < src.len() && !has_checksum(dst, (#[trigger] src[i]).checksum);
        law_uncopied_file_is_missing(src, dst, i);
    } else {
        law_copied_files_are_all_present(src, dst);
    }
    if outcome(src, dst) is MissingFiles {
        let missing = unmatched_paths(buckets, dst);
        assert forall|n: int| 0 <= n < missing.len() implies is_uncopied(
            src,
            dst,
            #[trigger] missing[n],
        ) by {
            lemma_unmatched_comes_from_bucket(buckets, dst, n);
            let (k, a) = choose|k: int, a: int|
                0 <= k < buckets.len() && 0 <= a < (#[trigger] buckets[k]).src_paths.len()
                    && !has_checksum(dst, buckets[k].checksum) && #[trigger] buckets[k].src_paths[a]
                    == missing[n];
            lemma_paths_with_members(src, cs[k]);
            assert(has_file(src, cs[k], paths_with(src, cs[k])[a]));
            let i = choose|i: int|
                0 <= i < src.len() && #[trigger] src[i] == (Hashed {
                    path: missing[n],
                    checksum: cs[k],
                });
            assert(!has_checksum(dst, src[i].checksum) && src[i].path == missing[n]);
        }
    }
}

/// Two source files with one checksum share one bucket, and stand in it as two
/// entries, in the order they arrived.
pub proof fn law_same_content_shares_a_bucket(src: Seq<Hashed>, i: int, j: int)
    requires
        0 <= i < j < src.len(),
        src[i].checksum == src[j].checksum,
    ensures
        0 <= bucket_of(src, src[i].checksum) < source_buckets(src).len(),
        source_buckets(src)[bucket_of(src, src[i].checksum)].checksum == src[i].checksum,
        holds_in_order(
            source_buckets(src)[bucket_of(src, src[i].checksum)].src_paths,
            src[i].path,
            src[j].path,
        ),
        forall|k: int|
            0 <= k < source_buckets(src).len() && (#[trigger] source_buckets(src)[k]).checksum
                == src[i].checksum ==> k == bucket_of(src, src[i].checksum),
{
    let c = src[i].checksum;
    law_one_bucket_per_checksum(src, c);
    lemma_paths_with_keeps_both(src, i, j);
    let paths = paths_with(src, c);
    let (a, b) = choose|a: int, b: int|
        0 <= a < b < paths.len() && #[trigger] paths[a] == src[i].path && #[trigger] paths[b]
            == src[j].path;
    assert(paths[a] == src[i].path && paths[b] == src[j].path);
}

/// Where the run ends in `AllPresent`, the entries are the index of the found
/// files, written out: one entry for each checksum of the source, no checksum
/// twice, each with all the source files that have it. Of the destination files
/// that have it, an entry holds the first one and no other.
pub proof fn law_found_entries_are_the_found_index(src: Seq<Hashed>, dst: Seq<Hashed>)
    requires
        outcome(src, dst) is AllPresent,
    ensures
        outcome(src, dst) matches ConfirmerResultView::AllPresent(found) && {
            &&& found.len() == checksums(src).len()
            &&& forall|k: int|
                0 <= k < found.len() ==> found_index(src, dst).contains_key(
                    (#[trigger] found[k]).0,
                ) && found_index(src, dst)[found[k].0] == found[k].1
            &&& forall|c: Seq<char>| #[trigger]
                found_index(src, dst).contains_key(c) ==> 0 <= bucket_of(src, c) < found.len()
                    && found[bucket_of(src, c)].0 == c
            &&& forall|k: int, l: int|
                0 <= k < l < found.len() ==> (#[trigger] found[k]).0 != (#[trigger] found[l]).0
            &&& forall|k: int|
                0 <= k < found.len() ==> (#[trigger] found[k]).1.src_paths == paths_with(
                    src,
                    found[k].0,
                ) && found[k].1.dest_paths == seq![paths_with(dst, found[k].0)[0]]
        },
        pending_index(src, dst).dom() == Set::<Seq<char>>::empty(),
{
    lemma_checksums(src);
    let cs = checksums(src);
    let buckets = source_buckets(src);
    let found = Seq::new(buckets.len(), |k: int| found_entry(buckets[k], dst));
    assert forall|k: int| 0 <= k < found.len() implies found_index(src, dst).contains_key(
        (#[trigger] found[k]).0,
    ) && found_index(src, dst)[found[k].0] == found[k].1 && found[k].1.src_paths == paths_with(
        src,
        found[k].0,
    ) && found[k].1.dest_paths == seq![paths_with(dst, found[k].0)[0]] by {
        assert(cs.contains(cs[k]));
        assert(has_checksum(dst, buckets[k].checksum));
        lemma_paths_with_nonempty(dst, cs[k]);
    }
    assert forall|c: Seq<char>| #[trigger] found_index(src, dst).contains_key(c) implies 0
        <= bucket_of(src, c) < found.len() && found[bucket_of(src, c)].0 == c by {
        law_one_bucket_per_checksum(src, c);
    }
    assert forall|c: Seq<char>| !pending_index(src, dst).dom().contains(c) by {
        if has_checksum(src, c) {
            law_one_bucket_per_checksum(src, c);
            assert(has_checksum(dst, buckets[bucket_of(src, c)].checksum));
        }
    }
    assert(pending_index(src, dst).dom() =~= Set::<Seq<char>>::empty());
}

/// A path stands among the found source paths or among the missing ones only if
/// it is the path of a source file.
pub proof fn law_results_hold_source_paths_only(src: Seq<Hashed>, dst: Seq<Hashed>, path: Seq<char>)
    requires
        forall|i: int| 0 <= i < src.len() ==> (#[trigger] src[i]).path != path,
    ensures
        match outcome(src, dst) {
            ConfirmerResultView::AllPresent(found) => !found_as_source(found, path),
            ConfirmerResultView::MissingFiles(missing) => !missing.contains(path),
        },
{
    lemma_checksums(src);
    let cs = checksums(src);
    let buckets = source_buckets(src);
    match outcome(src, dst) {
        ConfirmerResultView::AllPresent(found) => {
            if found_as_source(found, path) {
                let k = choose|k: int|
                    0 <= k < found.len() && (#[trigger] found[k]).1.src_paths.contains(path);
                let a = choose|a: int|
                    0 <= a < found[k].1.src_paths.len() && found[k].1.src_paths[a] == path;
                lemma_paths_with_members(src, cs[k]);
                assert(has_file(src, cs[k], paths_with(src, cs[k])[a]));
            }
        },
        ConfirmerResultView::MissingFiles(missing) => {
            if missing.contains(path) {
                let n = choose|n: int| 0 <= n < missing.len() && missing[n] == path;
                law_missing_files_are_uncopied(src, dst);
                assert(is_uncopied(src, dst, missing[n]));
            }
        },
    }
}

/// Whether the walk holds a regular file that reads as `bytes`.
pub open spec fn has_content(walk: Seq<WalkItem>, bytes: Seq<u8>) -> bool {
    exists|j: int|
        0 <= j < walk.len() && (#[trigger] walk[j] matches WalkItem::File(_, Ok(content))
            && content@ == bytes)
}

/// Whether the walk holds a regular file whose content has checksum `c`.
pub open spec fn has_checksum_of(walk: Seq<WalkItem>, c: Seq<char>) -> bool {
    exists|j: int|
        0 <= j < walk.len() && (#[trigger] walk[j] matches WalkItem::File(_, Ok(content))
            && checksum_of(content@) == c)
}

/// Whether `item` is a regular file whose content some file of `walk` has too.
pub open spec fn is_copied(item: WalkItem, walk: Seq<WalkItem>) -> bool {
    item matches WalkItem::File(_, Ok(content)) && has_content(walk, content@)
}

/// The hashed files of a walk that went through: each is an admitted file of the
/// walk with the checksum of its content.
proof fn lemma_hashed_files(patterns: Seq<ExcludePattern>, walk: Seq<WalkItem>, k: int)
    requires
        first_failure(hash_results(patterns, walk)) is None,
        0 <= k < hashed(hash_results(patterns, walk)).len(),
    ensures
        exists|i: int|
            0 <= i < walk.len() && is_admitted_file(patterns, #[trigger] walk[i]) && (
            walk[i] matches WalkItem::File(path, Ok(content)) && hashed(
                hash_results(patterns, walk),
            )[k] == (Hashed { path: path@, checksum: checksum_of(content@) })),
{
    let results = hash_results(patterns, walk);
    lemma_hashed_all(results);
    lemma_results_come_from_files(patterns, walk, k);
    let i = choose|i: int|
        0 <= i < walk.len() && is_admitted_file(patterns, #[trigger] walk[i]) && (
        walk[i] matches WalkItem::File(path, content) && file_result(path@, content)
            == results[k]);
    assert(is_admitted_file(patterns, walk[i]));
}

/// An admitted file of a walk that went through is among the hashed files, with
/// the checksum of its content.
proof fn lemma_file_is_hashed(patterns: Seq<ExcludePattern>, walk: Seq<WalkItem>, i: int) -> (k: int)
    requires
        first_failure(hash_results(patterns, walk)) is None,
        0 <= i < walk.len(),
        is_admitted_file(patterns, walk[i]),
    ensures
        0 <= k < hashed(hash_results(patterns, walk)).len(),
        walk[i] matches WalkItem::File(path, Ok(content)) && hashed(
            hash_results(patterns, walk),
        )[k] == (Hashed { path: path@, checksum: checksum_of(content@) }),
{
    let results = hash_results(patterns, walk);
    lemma_hashed_all(results);
    lemma_files_have_results(patterns, walk, i);
    if let WalkItem::File(path, content) = walk[i] {
        let k = choose|k: int| 0 <= k < results.len() && results[k] == file_result(path@, content);
        k
    } else {
        0
    }
}

/// If source and destinations are identical copies, whatever the files are called,
/// the comparison ends in `AllPresent`, and the entries hold as many source paths
/// as the source has files that no pattern excludes: with no pattern, as many as
/// the source has files.
///
/// That is: if nothing fails, and every source file that no pattern excludes
/// reads as some destination file does.
pub proof fn law_identical_copies_are_all_present(
    patterns: Seq<ExcludePattern>,
    source: Seq<WalkItem>,
    destinations: Seq<Vec<WalkItem>>,
)
    requires
        comparison(patterns, source, destinations) is Ok,
        forall|i: int|
            0 <= i < source.len() && is_admitted_file(patterns, #[trigger] source[i]) ==> is_copied(
                source[i],
                all_items(destinations),
            ),
    ensures
        comparison(patterns, source, destinations) matches Ok(
            ConfirmerResultView::AllPresent(found),
        ) && total_src_paths(found) == hash_results(patterns, source).len(),
{
    let none = Seq::<ExcludePattern>::empty();
    let walk = all_items(destinations);
    let src = hashed(hash_results(patterns, source));
    let dst = hashed(hash_results(none, walk));
    lemma_hashed_all(hash_results(patterns, source));
    assert forall|k: int| 0 <= k < src.len() implies has_checksum(
        dst,
        (#[trigger] src[k]).checksum,
    ) by {
        lemma_hashed_files(patterns, source, k);
        let i = choose|i: int|
            0 <= i < source.len() && is_admitted_file(patterns, #[trigger] source[i]) && (
            source[i] matches WalkItem::File(path, Ok(content)) && src[k] == (Hashed {
                path: path@,
                checksum: checksum_of(content@),
            }));
        assert(is_copied(source[i], walk));
        if let WalkItem::File(path, Ok(content)) = source[i] {
            let j = choose|j: int|
                0 <= j < walk.len() && (#[trigger] walk[j] matches WalkItem::File(_, Ok(copy))
                    && copy@ == content@);
            assert(is_admitted_file(none, walk[j]));
            let m = lemma_file_is_hashed(none, walk, j);
            assert(dst[m].checksum == src[k].checksum);
        }
    }
    law_copied_files_are_all_present(src, dst);
}

/// If the checksum of a source file that no pattern excludes is the checksum of no
/// destination file, and nothing fails, the comparison ends in `MissingFiles`,
/// the file's path is among the missing, and its checksum is not in the index of
/// the found files.
///
/// The law speaks of checksums, as the comparison does: two contents with one
/// checksum are one content to it.
pub proof fn law_file_without_copy_is_missing(
    patterns: Seq<ExcludePattern>,
    source: Seq<WalkItem>,
    destinations: Seq<Vec<WalkItem>>,
    i: int,
)
    requires
        comparison(patterns, source, destinations) is Ok,
        0 <= i < source.len(),
        is_admitted_file(patterns, source[i]),
        source[i] matches WalkItem::File(_, Ok(content)) && !has_checksum_of(
            all_items(destinations),
            checksum_of(content@),
        ),
    ensures
        comparison(patterns, source, destinations) matches Ok(
            ConfirmerResultView::MissingFiles(missing),
        ) && missing.contains(path_of(source[i])),
        source[i] matches WalkItem::File(_, Ok(content)) && !found_index(
            hashed(hash_results(patterns, source)),
            hashed(hash_results(Seq::empty(), all_items(destinations))),
        ).contains_key(checksum_of(content@)),
{
    let none = Seq::<ExcludePattern>::empty();
    let walk = all_items(destinations);
    let src = hashed(hash_results(patterns, source));
    let dst = hashed(hash_results(none, walk));
    let k = lemma_file_is_hashed(patterns, source, i);
    if has_checksum(dst, src[k].checksum) {
        let m = choose|m: int| 0 <= m < dst.len() && (#[trigger] dst[m]).checksum == src[k].checksum;
        lemma_hashed_files(none, walk, m);
        let j = choose|j: int|
            0 <= j < walk.len() && is_admitted_file(none, #[trigger] walk[j]) && (
            walk[j] matches WalkItem::File(path, Ok(content)) && dst[m] == (Hashed {
                path: path@,
                checksum: checksum_of(content@),
            }));
        assert(walk[j] matches WalkItem::File(_, Ok(content)) && checksum_of(content@)
            == src[k].checksum);
        assert(has_checksum_of(walk, src[k].checksum));
    }
    law_uncopied_file_is_missing(src, dst, k);
}

/// Comparing again gives the same: an engine that has compared before, whatever
/// it excluded then, compares the same trees as it did the first time, and
/// excludes the same paths.
///
/// `compare` leaves the patterns of the engine as they are, and how it ends and
/// which paths it excludes depends on the patterns and the trees alone. Here
/// `before` is the engine as it was before the first comparison and `after` the
/// engine as that comparison left it.
pub proof fn law_comparison_repeats(
    before: CopyConfirmer,
    after: CopyConfirmer,
    source: Seq<WalkItem>,
    destinations: Seq<Vec<WalkItem>>,
)
    requires
        after.patterns() == before.patterns(),
    ensures
        comparison(after.patterns(), source, destinations) == comparison(
            before.patterns(),
            source,
            destinations,
        ),
        excluded_of(after.patterns(), source) == excluded_of(before.patterns(), source),
{
}

/// A source file that a pattern excludes is among the excluded paths once the
/// source is walked, and its path stands neither among the missing files nor
/// among the source paths of the found ones.
pub proof fn law_excluded_paths_stay_out(
    patterns: Seq<ExcludePattern>,
    source: Seq<WalkItem>,
    destinations: Seq<Vec<WalkItem>>,
    i: int,
)
    requires
        walk_failure(source) is None,
        0 <= i < source.len(),
        is_excluded_file(patterns, source[i]),
    ensures
        excluded_of(patterns, source).contains(path_of(source[i])),
        match comparison(patterns, source, destinations) {
            Ok(ConfirmerResultView::AllPresent(found)) => !found_as_source(
                found,
                path_of(source[i]),
            ),
            Ok(ConfirmerResultView::MissingFiles(missing)) => !missing.contains(path_of(source[i])),
            Err(_) => true,
        },
{
    let none = Seq::<ExcludePattern>::empty();
    let path = path_of(source[i]);
    lemma_excluded_files_are_listed(patterns, source, i);
    if comparison(patterns, source, destinations) is Ok {
        let src = hashed(hash_results(patterns, source));
        let dst = hashed(hash_results(none, all_items(destinations)));
        assert forall|k: int| 0 <= k < src.len() implies (#[trigger] src[k]).path != path by {
            lemma_hashed_files(patterns, source, k);
        }
        law_results_hold_source_paths_only(src, dst, path);
    }
}

/// The excluded paths are the paths of the source files that a pattern excludes,
/// and of no others.
pub proof fn law_excluded_paths_are_excluded(patterns: Seq<ExcludePattern>, source: Seq<WalkItem>)
    ensures
        forall|k: int|
            0 <= k < excluded_of(patterns, source).len() ==> excluded(
                #[trigger] excluded_of(patterns, source)[k],
                patterns,
            ),
{
    assert forall|k: int| 0 <= k < excluded_of(patterns, source).len() implies excluded(
        #[trigger] excluded_of(patterns, source)[k],
        patterns,
    ) by {
        lemma_listed_files_are_excluded(patterns, source, k);
    }
}

/// The source paths of found entries: entry by entry, and within an entry in
/// arrival order.
pub open spec fn found_paths(entries: Seq<(Seq<char>, FileFoundView)>) -> Seq<Seq<char>>
    decreases entries.len(),
{
    if entries.len() == 0 {
        Seq::empty()
    } else {
        found_paths(entries.drop_last()) + entries.last().1.src_paths
    }
}

/// Where every bucket is matched, the found entries hold the paths of all
/// buckets, and no path is unmatched.
proof fn lemma_all_matched_paths(buckets: Seq<Bucket>, dst: Seq<Hashed>)
    requires
        all_matched(buckets, dst),
    ensures
        found_paths(Seq::new(buckets.len(), |k: int| found_entry(buckets[k], dst))) == all_paths(
            buckets,
        ),
        matched_paths(buckets, dst) == all_paths(buckets),
        unmatched_paths(buckets, dst) == Seq::<Seq<char>>::empty(),
    decreases buckets.len(),
{
    let found = Seq::new(buckets.len(), |k: int| found_entry(buckets[k], dst));
    if buckets.len() > 0 {
        let rest = buckets.drop_last();
        assert forall|k: int| 0 <= k < rest.len() implies has_checksum(
            dst,
            (#[trigger] rest[k]).checksum,
        ) by {
            assert(rest[k] == buckets[k]);
        }
        lemma_all_matched_paths(rest, dst);
        assert(found.drop_last() =~= Seq::new(rest.len(), |k: int| found_entry(rest[k], dst)));
        assert(has_checksum(dst, buckets[buckets.len() - 1].checksum));
    }
}

/// At the end of a comparison that did not fail, every source file has exactly
/// one place: among the excluded paths, among the source paths of the found
/// files, or among the missing files. Taken together, these hold each path as
/// often as the source has a file with it.
///
/// Where the comparison ends in `AllPresent`, its entries hold the found paths
/// and nothing is missing. Where it ends in `MissingFiles`, it hands out the
/// missing paths, and the found ones are those of the buckets that a destination
/// file matches.
pub proof fn law_every_source_file_has_one_place(
    patterns: Seq<ExcludePattern>,
    source: Seq<WalkItem>,
    destinations: Seq<Vec<WalkItem>>,
)
    requires
        comparison(patterns, source, destinations) is Ok,
    ensures
        ({
            let src = hashed(hash_results(patterns, source));
            let dst = hashed(hash_results(Seq::empty(), all_items(destinations)));
            let excluded_paths = excluded_of(patterns, source);
            let found = matched_paths(source_buckets(src), dst);
            let missing = unmatched_paths(source_buckets(src), dst);
            &&& file_paths(source).to_multiset() == excluded_paths.to_multiset().add(
                found.to_multiset(),
            ).add(missing.to_multiset())
            &&& match comparison(patterns, source, destinations) {
                Ok(ConfirmerResultView::AllPresent(entries)) => found_paths(entries) == found
                    && missing == Seq::<Seq<char>>::empty(),
                Ok(ConfirmerResultView::MissingFiles(paths)) => paths == missing,
                Err(_) => true,
            }
        }),
{
    let src = hashed(hash_results(patterns, source));
    let dst = hashed(hash_results(Seq::empty(), all_items(destinations)));
    let buckets = source_buckets(src);
    lemma_excluded_or_hashed(patterns, source);
    lemma_buckets_hold_every_file(src);
    lemma_matched_or_unmatched(buckets, dst);
    if all_matched(buckets, dst) {
        lemma_all_matched_paths(buckets, dst);
    }
    assert(file_paths(source).to_multiset() =~= excluded_of(patterns, source).to_multiset().add(
        matched_paths(buckets, dst).to_multiset(),
    ).add(unmatched_paths(buckets, dst).to_multiset()));
}

/// The missing files are the source files that have no copy, and the found ones
/// are those that have one: each path stands there as often as the source has
/// such a file with it, wherever in the order of arrival the file stood.
pub proof fn law_each_file_is_counted_once(src: Seq<Hashed>, dst: Seq<Hashed>)
    ensures
        match outcome(src, dst) {
            ConfirmerResultView::AllPresent(found) => found_paths(found).to_multiset()
                == paths_of(src).to_multiset(),
            ConfirmerResultView::MissingFiles(missing) => missing.to_multiset() == paths_where(
                src,
                without_copy(dst),
            ).to_multiset(),
        },
        matched_paths(source_buckets(src), dst).to_multiset() == paths_where(
            src,
            with_copy(dst),
        ).to_multiset(),
{
    let buckets = source_buckets(src);
    lemma_matched_are_copied(src, dst);
    if all_matched(buckets, dst) {
        lemma_all_matched_paths(buckets, dst);
        lemma_buckets_hold_every_file(src);
    }
}

/// The order in which the results arrive does not matter to what is found and
/// what is missing.
///
/// Take the same source files in two orders, and the same destination files in
/// two orders. Then both runs end in `AllPresent` or both in `MissingFiles`; the
/// same paths are missing, each as often; the same paths are found, each as
/// often; and each checksum has the same paths in its bucket, each as often.
/// What the order does decide is the order of the buckets, the order of the paths
/// in a bucket, and which destination file stands for a checksum that several of
/// them have: the first to arrive.
pub proof fn law_arrival_order_does_not_matter(
    src: Seq<Hashed>,
    dst: Seq<Hashed>,
    src_again: Seq<Hashed>,
    dst_again: Seq<Hashed>,
)
    requires
        src.to_multiset() == src_again.to_multiset(),
        dst.to_multiset() == dst_again.to_multiset(),
    ensures
        outcome(src, dst) is AllPresent <==> outcome(src_again, dst_again) is AllPresent,
        unmatched_paths(source_buckets(src), dst).to_multiset() == unmatched_paths(
            source_buckets(src_again),
            dst_again,
        ).to_multiset(),
        matched_paths(source_buckets(src), dst).to_multiset() == matched_paths(
            source_buckets(src_again),
            dst_again,
        ).to_multiset(),
        forall|c: Seq<char>|
            found_index(src, dst).contains_key(c) <==> #[trigger] found_index(
                src_again,
                dst_again,
            ).contains_key(c),
        forall|c: Seq<char>|
            pending_index(src, dst).contains_key(c) <==> #[trigger] pending_index(
                src_again,
                dst_again,
            ).contains_key(c),
        forall|c: Seq<char>|
            paths_with(src, c).to_multiset() == #[trigger] paths_with(src_again, c).to_multiset(),
{
    assert forall|c: Seq<char>| has_checksum(dst, c) == has_checksum(dst_again, c) by {
        lemma_has_checksum_permuted(dst, dst_again, c);
    }
    assert forall|c: Seq<char>| has_checksum(src, c) == has_checksum(src_again, c) by {
        lemma_has_checksum_permuted(src, src_again, c);
    }
    lemma_all_matched_is_all_copied(src, dst);
    lemma_all_matched_is_all_copied(src_again, dst_again);
    assert((forall|i: int| 0 <= i < src.len() ==> has_checksum(dst, (#[trigger] src[i]).checksum))
        <==> (forall|i: int|
        0 <= i < src_again.len() ==> has_checksum(dst_again, (#[trigger] src_again[i]).checksum)))
        by {
        if exists|i: int| 0 <= i < src.len() && !has_checksum(dst, (#[trigger] src[i]).checksum) {
            let i = choose|i: int|
                0 <= i < src.len() && !has_checksum(dst, (#[trigger] src[i]).checksum);
            lemma_has_checksum_permuted(src, src_again, src[i].checksum);
            let j = choose|j: int|
                0 <= j < src_again.len() && (#[trigger] src_again[j]).checksum == src[i].checksum;
            assert(!has_checksum(dst_again, src_again[j].checksum));
        }
        if exists|i: int|
            0 <= i < src_again.len() && !has_checksum(
                dst_again,
                (#[trigger] src_again[i]).checksum,
            ) {
            let i = choose|i: int|
                0 <= i < src_again.len() && !has_checksum(
                    dst_again,
                    (#[trigger] src_again[i]).checksum,
                );
            lemma_has_checksum_permuted(src, src_again, src_again[i].checksum);
            let j = choose|j: int|
                0 <= j < src.len() && (#[trigger] src[j]).checksum == src_again[i].checksum;
            assert(!has_checksum(dst, src[j].checksum));
        }
    }
    lemma_matched_are_copied(src, dst);
    lemma_matched_are_copied(src_again, dst_again);
    lemma_paths_where_same(src_again, with_copy(dst), with_copy(dst_again));
    lemma_paths_where_same(src_again, without_copy(dst), without_copy(dst_again));
    lemma_paths_where_permuted(src, src_again, with_copy(dst));
    lemma_paths_where_permuted(src, src_again, without_copy(dst));
    assert forall|c: Seq<char>|
        paths_with(src, c).to_multiset() == #[trigger] paths_with(src_again, c).to_multiset() by {
        lemma_paths_with_is_paths_where(src, c);
        lemma_paths_with_is_paths_where(src_again, c);
        lemma_paths_where_permuted(src, src_again, with_checksum(c));
    }
}

} // verus!
