//! A directory walk as plain values: what the walker met, entry by entry, and
//! what reading each file yields.

use crate::checksum::{checksum_of, get_blake2_checksum};
use crate::error::ConfirmerError;
use crate::exclusion::{excluded, ExcludePattern};
use crate::index::{first_failure, hashed, HashResult, HashResultView};
use crate::model::paths_of;
use vstd::prelude::*;
use vstd::seq_lib::{lemma_multiset_commutative, to_multiset_build};

verus! {

/// One step of a directory walk.
#[derive(Debug)]
pub enum WalkItem {
    /// A regular file: its path, and its content or the failure to read it.
    File(String, Result<Vec<u8>, ConfirmerError>),
    /// Anything else the walk meets, with its path: a directory, a link, a device.
    Other(String),
    /// The walk could not go on: a directory could not be listed, or an entry's
    /// metadata could not be read.
    Failed(ConfirmerError),
}

/// The message of the first failure of the walk, if it failed.
pub open spec fn walk_failure(walk: Seq<WalkItem>) -> Option<Seq<char>>
    decreases walk.len(),
{
    if walk.len() == 0 {
        None
    } else if walk_failure(walk.drop_last()) is Some {
        walk_failure(walk.drop_last())
    } else {
        match walk.last() {
            WalkItem::Failed(error) => Some(error@),
            _ => None,
        }
    }
}

/// What hashing a file yields: the checksum of its content, or the failure to
/// read it.
pub open spec fn file_result(path: Seq<char>, content: Result<Vec<u8>, ConfirmerError>) -> HashResultView {
    HashResultView {
        path,
        checksum: match content {
            Ok(bytes) => Ok(checksum_of(bytes@)),
            Err(error) => Err(error@),
        },
    }
}

/// Whether `item` is a regular file that no pattern excludes.
pub open spec fn is_admitted_file(patterns: Seq<ExcludePattern>, item: WalkItem) -> bool {
    item matches WalkItem::File(path, _) && !excluded(path@, patterns)
}

/// Whether `item` is a regular file that some pattern excludes.
pub open spec fn is_excluded_file(patterns: Seq<ExcludePattern>, item: WalkItem) -> bool {
    item matches WalkItem::File(path, _) && excluded(path@, patterns)
}

/// The path of an entry; a failure of the walk has none.
pub open spec fn path_of(item: WalkItem) -> Seq<char> {
    match item {
        WalkItem::File(path, _) => path@,
        WalkItem::Other(path) => path@,
        WalkItem::Failed(_) => Seq::empty(),
    }
}

/// Whether hashing some admitted file of the walk yields `result`.
pub open spec fn yields(patterns: Seq<ExcludePattern>, walk: Seq<WalkItem>, result: HashResultView) -> bool {
    exists|i: int|
        0 <= i < walk.len() && is_admitted_file(patterns, #[trigger] walk[i]) && (
        walk[i] matches WalkItem::File(path, content) && file_result(path@, content) == result)
}

/// The hash results of a walk: one for each regular file that no pattern
/// excludes, in the order of the walk.
pub open spec fn hash_results(patterns: Seq<ExcludePattern>, walk: Seq<WalkItem>) -> Seq<
    HashResultView,
>
    decreases walk.len(),
{
    if walk.len() == 0 {
        Seq::empty()
    } else {
        match walk.last() {
            WalkItem::File(path, content) => if excluded(path@, patterns) {
                hash_results(patterns, walk.drop_last())
            } else {
                hash_results(patterns, walk.drop_last()).push(file_result(path@, content))
            },
            _ => hash_results(patterns, walk.drop_last()),
        }
    }
}

/// The paths of the regular files that a pattern excludes, in the order of the
/// walk, as far as the walk went before it failed.
pub open spec fn excluded_of(patterns: Seq<ExcludePattern>, walk: Seq<WalkItem>) -> Seq<Seq<char>>
    decreases walk.len(),
{
    if walk.len() == 0 {
        Seq::empty()
    } else if walk_failure(walk.drop_last()) is Some {
        excluded_of(patterns, walk.drop_last())
    } else {
        match walk.last() {
            WalkItem::File(path, _) => if excluded(path@, patterns) {
                excluded_of(patterns, walk.drop_last()).push(path@)
            } else {
                excluded_of(patterns, walk.drop_last())
            },
            _ => excluded_of(patterns, walk.drop_last()),
        }
    }
}

/// The paths of the regular files of a walk, in the order of the walk.
pub open spec fn file_paths(walk: Seq<WalkItem>) -> Seq<Seq<char>>
    decreases walk.len(),
{
    if walk.len() == 0 {
        Seq::empty()
    } else {
        match walk.last() {
            WalkItem::File(path, _) => file_paths(walk.drop_last()).push(path@),
            _ => file_paths(walk.drop_last()),
        }
    }
}

/// The walks of several trees, one after another.
pub open spec fn all_items(trees: Seq<Vec<WalkItem>>) -> Seq<WalkItem>
    decreases trees.len(),
{
    if trees.len() == 0 {
        Seq::empty()
    } else {
        all_items(trees.drop_last()) + trees.last()@
    }
}

/// A walk that failed within its first `n` steps failed there.
pub proof fn lemma_walk_failure_stays(walk: Seq<WalkItem>, n: int)
    requires
        0 <= n <= walk.len(),
        walk_failure(walk.take(n)) is Some,
    ensures
        walk_failure(walk) == walk_failure(walk.take(n)),
    decreases walk.len() - n,
{
    if n < walk.len() {
        assert(walk.take(n + 1).drop_last() =~= walk.take(n));
        lemma_walk_failure_stays(walk, n + 1);
    } else {
        assert(walk.take(n) =~= walk);
    }
}

/// Once a walk has failed, no later step adds an excluded path.
pub proof fn lemma_excluded_stays(patterns: Seq<ExcludePattern>, walk: Seq<WalkItem>, n: int)
    requires
        0 <= n <= walk.len(),
        walk_failure(walk.take(n)) is Some,
    ensures
        excluded_of(patterns, walk) == excluded_of(patterns, walk.take(n)),
    decreases walk.len() - n,
{
    if n < walk.len() {
        assert(walk.take(n + 1).drop_last() =~= walk.take(n));
        lemma_walk_failure_stays(walk.take(n + 1), n);
        assert(walk.take(n + 1).take(n) =~= walk.take(n));
        lemma_excluded_stays(patterns, walk, n + 1);
    } else {
        assert(walk.take(n) =~= walk);
    }
}

/// The failure of two walks in a row is that of the first, or else of the second.
pub proof fn lemma_walk_failure_concat(first: Seq<WalkItem>, second: Seq<WalkItem>)
    ensures
        walk_failure(first + second) == if walk_failure(first) is Some {
            walk_failure(first)
        } else {
            walk_failure(second)
        },
    decreases second.len(),
{
    if second.len() == 0 {
        assert(first + second =~= first);
    } else {
        assert((first + second).drop_last() =~= first + second.drop_last());
        lemma_walk_failure_concat(first, second.drop_last());
    }
}

/// The hash results of two walks in a row are those of the first, then those of
/// the second.
pub proof fn lemma_hash_results_concat(
    patterns: Seq<ExcludePattern>,
    first: Seq<WalkItem>,
    second: Seq<WalkItem>,
)
    ensures
        hash_results(patterns, first + second) == hash_results(patterns, first) + hash_results(
            patterns,
            second,
        ),
    decreases second.len(),
{
    if second.len() == 0 {
        assert(first + second =~= first);
        assert(hash_results(patterns, first) + hash_results(patterns, second) =~= hash_results(
            patterns,
            first,
        ));
    } else {
        assert((first + second).drop_last() =~= first + second.drop_last());
        lemma_hash_results_concat(patterns, first, second.drop_last());
        assert(hash_results(patterns, first + second) =~= hash_results(patterns, first)
            + hash_results(patterns, second));
    }
}

/// Each hash result of a walk is what hashing some admitted file of it yields.
pub proof fn lemma_results_come_from_files(patterns: Seq<ExcludePattern>, walk: Seq<WalkItem>, k: int)
    requires
        0 <= k < hash_results(patterns, walk).len(),
    ensures
        yields(patterns, walk, hash_results(patterns, walk)[k]),
    decreases walk.len(),
{
    let rest = walk.drop_last();
    let result = hash_results(patterns, walk)[k];
    if k < hash_results(patterns, rest).len() {
        lemma_results_come_from_files(patterns, rest, k);
        assert(hash_results(patterns, rest)[k] == result);
        let i = choose|i: int|
            0 <= i < rest.len() && is_admitted_file(patterns, #[trigger] rest[i]) && (
            rest[i] matches WalkItem::File(path, content) && file_result(path@, content)
                == result);
        assert(walk[i] == rest[i]);
    } else {
        assert(is_admitted_file(patterns, walk[walk.len() - 1]));
    }
}

/// Each admitted file of a walk has its hash result among the results.
pub proof fn lemma_files_have_results(patterns: Seq<ExcludePattern>, walk: Seq<WalkItem>, i: int)
    requires
        0 <= i < walk.len(),
        is_admitted_file(patterns, walk[i]),
    ensures
        walk[i] matches WalkItem::File(path, content) && hash_results(patterns, walk).contains(
            file_result(path@, content),
        ),
    decreases walk.len(),
{
    let rest = walk.drop_last();
    let all = hash_results(patterns, walk);
    if i < rest.len() {
        assert(rest[i] == walk[i]);
        lemma_files_have_results(patterns, rest, i);
        if let WalkItem::File(path, content) = walk[i] {
            let k = choose|k: int|
                0 <= k < hash_results(patterns, rest).len() && hash_results(patterns, rest)[k]
                    == file_result(path@, content);
            assert(all[k] == file_result(path@, content));
        }
    } else {
        if let WalkItem::File(path, content) = walk[i] {
            assert(all[all.len() - 1] == file_result(path@, content));
        }
    }
}

/// Where the walk did not fail, each excluded file of it is among the excluded
/// paths.
pub proof fn lemma_excluded_files_are_listed(patterns: Seq<ExcludePattern>, walk: Seq<WalkItem>, i: int)
    requires
        walk_failure(walk) is None,
        0 <= i < walk.len(),
        is_excluded_file(patterns, walk[i]),
    ensures
        excluded_of(patterns, walk).contains(path_of(walk[i])),
    decreases walk.len(),
{
    let rest = walk.drop_last();
    let all = excluded_of(patterns, walk);
    if i < rest.len() {
        assert(rest[i] == walk[i]);
        lemma_excluded_files_are_listed(patterns, rest, i);
        let k = choose|k: int|
            0 <= k < excluded_of(patterns, rest).len() && excluded_of(patterns, rest)[k]
                == path_of(walk[i]);
        assert(all[k] == path_of(walk[i]));
    } else {
        assert(all[all.len() - 1] == path_of(walk[i]));
    }
}

/// Each of the excluded paths is the path of an excluded file of the walk.
pub proof fn lemma_listed_files_are_excluded(patterns: Seq<ExcludePattern>, walk: Seq<WalkItem>, k: int)
    requires
        0 <= k < excluded_of(patterns, walk).len(),
    ensures
        exists|i: int|
            0 <= i < walk.len() && is_excluded_file(patterns, #[trigger] walk[i]) && path_of(
                walk[i],
            ) == excluded_of(patterns, walk)[k],
    decreases walk.len(),
{
    let rest = walk.drop_last();
    let path = excluded_of(patterns, walk)[k];
    if k < excluded_of(patterns, rest).len() {
        lemma_listed_files_are_excluded(patterns, rest, k);
        assert(excluded_of(patterns, rest)[k] == path);
        let i = choose|i: int|
            0 <= i < rest.len() && is_excluded_file(patterns, #[trigger] rest[i]) && path_of(
                rest[i],
            ) == path;
        assert(walk[i] == rest[i]);
    } else {
        assert(is_excluded_file(patterns, walk[walk.len() - 1]));
    }
}

/// Where the walk went through and every admitted file was read, each regular
/// file of the walk is excluded or hashed, and not both.
pub proof fn lemma_excluded_or_hashed(patterns: Seq<ExcludePattern>, walk: Seq<WalkItem>)
    requires
        walk_failure(walk) is None,
        first_failure(hash_results(patterns, walk)) is None,
    ensures
        file_paths(walk).to_multiset() == excluded_of(patterns, walk).to_multiset().add(
            paths_of(hashed(hash_results(patterns, walk))).to_multiset(),
        ),
    decreases walk.len(),
{
    let excluded_paths = excluded_of(patterns, walk);
    let hashed_paths = paths_of(hashed(hash_results(patterns, walk)));
    if walk.len() == 0 {
        let none = Seq::<Seq<char>>::empty();
        assert(hashed_paths =~= none);
        assert(none + none =~= none);
        lemma_multiset_commutative(none, none);
    } else {
        let rest = walk.drop_last();
        let results = hash_results(patterns, rest);
        if let WalkItem::File(path, content) = walk.last() {
            assert(results.push(file_result(path@, content)).drop_last() =~= results);
        }
        lemma_excluded_or_hashed(patterns, rest);
        match walk.last() {
            WalkItem::File(path, content) => {
                to_multiset_build(file_paths(rest), path@);
                if excluded(path@, patterns) {
                    to_multiset_build(excluded_of(patterns, rest), path@);
                } else {
                    let result = file_result(path@, content);
                    assert(results.push(result).drop_last() =~= results);
                    assert(hashed_paths =~= paths_of(hashed(results)).push(path@));
                    to_multiset_build(paths_of(hashed(results)), path@);
                }
            },
            _ => {},
        }
        assert(file_paths(walk).to_multiset() =~= excluded_paths.to_multiset().add(
            hashed_paths.to_multiset(),
        ));
    }
}

/// Hashes one file of a walk.
pub fn hash_file(path: &String, content: &Result<Vec<u8>, ConfirmerError>) -> (result: HashResult)
    ensures
        result@ == file_result(path@, *content),
{
    let checksum = match content {
        Ok(bytes) => Ok(get_blake2_checksum(bytes.as_slice())),
        Err(error) => Err(error.duplicate()),
    };
    HashResult { path: path.clone(), checksum }
}

} // verus!
