use copy_confirmer::{
    get_blake2_checksum, ConfirmerError, ConfirmerResult, CopyConfirmer, ExcludePattern,
    FileFound, WalkItem,
};
use std::collections::HashSet;

fn file(path: &str, content: &str) -> WalkItem {
    WalkItem::File(String::from(path), Ok(content.as_bytes().to_vec()))
}

fn unreadable(path: &str, message: &str) -> WalkItem {
    WalkItem::File(String::from(path), Err(ConfirmerError(String::from(message))))
}

fn directory(path: &str) -> WalkItem {
    WalkItem::Other(String::from(path))
}

fn failed(message: &str) -> WalkItem {
    WalkItem::Failed(ConfirmerError(String::from(message)))
}

fn strings(items: &[&str]) -> Vec<String> {
    items.iter().map(|s| String::from(*s)).collect()
}

fn exclusion_dir_a() -> Vec<WalkItem> {
    vec![
        directory("tests/fixtures/exclusion/dir_A"),
        directory("tests/fixtures/exclusion/dir_A/bar"),
        file("tests/fixtures/exclusion/dir_A/bar/foo.txt", "foo in bar\n"),
        directory("tests/fixtures/exclusion/dir_A/foo"),
        file("tests/fixtures/exclusion/dir_A/foo/bar.txt", "bar\n"),
        file("tests/fixtures/exclusion/dir_A/foo/baz.txt", "baz\n"),
        file("tests/fixtures/exclusion/dir_A/foo/foo.txt", "foo\n"),
    ]
}

fn exclusion_dir_b() -> Vec<WalkItem> {
    vec![
        directory("tests/fixtures/exclusion/dir_B"),
        file("tests/fixtures/exclusion/dir_B/baz.txt", "baz\n"),
    ]
}

#[test]
fn test_exclusion_match_path_start() -> Result<(), ConfirmerError> {
    // Excludes foo subdir
    let excluded_pattern_1 =
        ExcludePattern::MatchPathStart(String::from("tests/fixtures/exclusion/dir_A/foo"));
    // Will not exclude anything
    let excluded_pattern_2 = ExcludePattern::MatchPathStart(String::from("/bar"));
    let mut cc = CopyConfirmer::new(1)
        .add_excluded_pattern(excluded_pattern_1)
        .add_excluded_pattern(excluded_pattern_2);
    let result = cc.compare(&exclusion_dir_a(), &vec![exclusion_dir_b()])?;

    let expected_missing = vec!["tests/fixtures/exclusion/dir_A/bar/foo.txt".into()];
    assert_eq!(result, ConfirmerResult::MissingFiles(expected_missing));

    let excluded = cc.get_excluded_paths();
    let expected_excluded: Vec<String> = vec![
        "tests/fixtures/exclusion/dir_A/foo/bar.txt".into(),
        "tests/fixtures/exclusion/dir_A/foo/baz.txt".into(),
        "tests/fixtures/exclusion/dir_A/foo/foo.txt".into(),
    ];
    assert_eq!(
        HashSet::<String>::from_iter(excluded.into_iter()),
        HashSet::from_iter(expected_excluded.into_iter())
    );
    Ok(())
}

#[test]
fn test_exclusion_match_everywhere() -> Result<(), ConfirmerError> {
    // Excludes foo subdir
    let excluded_pattern = ExcludePattern::MatchEverywhere(String::from("bar"));
    // Will not exclude anything
    let mut cc = CopyConfirmer::new(1).add_excluded_pattern(excluded_pattern);
    let result = cc.compare(&exclusion_dir_a(), &vec![exclusion_dir_b()])?;

    let expected_missing = vec!["tests/fixtures/exclusion/dir_A/foo/foo.txt".into()];
    assert_eq!(result, ConfirmerResult::MissingFiles(expected_missing));

    let excluded = cc.get_excluded_paths();
    let expected_excluded: Vec<String> = vec![
        "tests/fixtures/exclusion/dir_A/foo/bar.txt".into(),
        "tests/fixtures/exclusion/dir_A/bar/foo.txt".into(),
    ];
    assert_eq!(
        HashSet::<String>::from_iter(excluded.into_iter()),
        HashSet::from_iter(expected_excluded.into_iter())
    );
    Ok(())
}

#[test]
fn file_absent_from_the_destination_is_missing() {
    let source = vec![file("tests/fixtures/dir_A/foo.txt", "A"), file("tests/fixtures/dir_A/bar.txt", "B")];
    let destination = vec![file("tests/fixtures/dir_B/foo.txt", "A")];
    let mut cc = CopyConfirmer::new(1);
    let result = cc.compare(&source, &vec![destination]).unwrap();
    assert_eq!(result, ConfirmerResult::MissingFiles(strings(&["tests/fixtures/dir_A/bar.txt"])));
    assert_eq!(cc.get_excluded_paths(), Vec::<String>::new());
}

#[test]
fn renamed_copies_are_all_present() {
    let source = vec![
        directory("source/dir"),
        file("source/dir/foo.txt", "content of foo"),
        directory("source/dir/sub"),
        file("source/dir/sub/bar.txt", "content of bar"),
    ];
    let destination = vec![
        file("dest/one.bin", "content of bar"),
        file("dest/deep/two.bin", "content of foo"),
    ];
    let mut cc = CopyConfirmer::new(2);
    let result = cc.compare(&source, &vec![destination]).unwrap();
    let expected = vec![
        (
            get_blake2_checksum(b"content of foo"),
            FileFound { src_paths: strings(&["source/dir/foo.txt"]), dest_paths: strings(&["dest/deep/two.bin"]) },
        ),
        (
            get_blake2_checksum(b"content of bar"),
            FileFound { src_paths: strings(&["source/dir/sub/bar.txt"]), dest_paths: strings(&["dest/one.bin"]) },
        ),
    ];
    assert_eq!(result, ConfirmerResult::AllPresent(expected));
}

#[test]
fn anchored_pattern_excludes_everything_under_its_prefix() {
    let source = vec![
        file("source/dir/foo/a.txt", "only here 1"),
        file("source/dir/foo/deep/b.txt", "only here 2"),
        file("source/dir/foo.txt", "only here 3"),
        file("source/dir/kept.txt", "copied"),
    ];
    let destination = vec![file("dest/kept.txt", "copied")];
    let mut cc = CopyConfirmer::new(1)
        .add_excluded_pattern(ExcludePattern::MatchPathStart(String::from("source/dir/foo")));
    let result = cc.compare(&source, &vec![destination]).unwrap();
    let expected = vec![(
        get_blake2_checksum(b"copied"),
        FileFound { src_paths: strings(&["source/dir/kept.txt"]), dest_paths: strings(&["dest/kept.txt"]) },
    )];
    assert_eq!(result, ConfirmerResult::AllPresent(expected));
    assert_eq!(
        cc.get_excluded_paths(),
        strings(&["source/dir/foo/a.txt", "source/dir/foo/deep/b.txt", "source/dir/foo.txt"])
    );
}

#[test]
fn identical_trees_are_all_present_with_every_source_path() {
    let tree = |root: &str| {
        vec![
            directory(root),
            file(&format!("{root}/a"), "one"),
            file(&format!("{root}/b"), "two"),
            file(&format!("{root}/c"), "one"),
            file(&format!("{root}/d"), ""),
        ]
    };
    let mut cc = CopyConfirmer::new(1);
    match cc.compare(&tree("src"), &vec![tree("dst")]).unwrap() {
        ConfirmerResult::AllPresent(found) => {
            let total: usize = found.iter().map(|(_, files)| files.src_paths.len()).sum();
            assert_eq!(total, 4);
            assert_eq!(found.len(), 3);
            assert_eq!(found[0].1.src_paths, strings(&["src/a", "src/c"]));
            assert_eq!(found[0].1.dest_paths, strings(&["dst/a"]));
        }
        ConfirmerResult::MissingFiles(missing) => panic!("missing: {missing:?}"),
    }
}

#[test]
fn copies_may_be_spread_over_several_destinations() {
    let source = vec![file("s/a", "1"), file("s/b", "2"), file("s/c", "3")];
    let destinations = vec![
        vec![file("d1/x", "3")],
        vec![],
        vec![file("d2/y", "1"), file("d2/z", "2"), file("d2/again", "3")],
    ];
    let mut cc = CopyConfirmer::new(1);
    let expected = vec![
        (get_blake2_checksum(b"1"), FileFound { src_paths: strings(&["s/a"]), dest_paths: strings(&["d2/y"]) }),
        (get_blake2_checksum(b"2"), FileFound { src_paths: strings(&["s/b"]), dest_paths: strings(&["d2/z"]) }),
        (get_blake2_checksum(b"3"), FileFound { src_paths: strings(&["s/c"]), dest_paths: strings(&["d1/x"]) }),
    ];
    assert_eq!(cc.compare(&source, &destinations).unwrap(), ConfirmerResult::AllPresent(expected));
}

#[test]
fn no_destination_leaves_every_file_missing() {
    let source = vec![file("s/a", "1"), file("s/b", "2")];
    let mut cc = CopyConfirmer::new(1);
    assert_eq!(cc.compare(&source, &vec![]).unwrap(), ConfirmerResult::MissingFiles(strings(&["s/a", "s/b"])));
}

#[test]
fn empty_source_is_all_present() {
    let mut cc = CopyConfirmer::new(1);
    let result = cc.compare(&vec![directory("s")], &vec![vec![file("d/a", "1")]]).unwrap();
    assert_eq!(result, ConfirmerResult::AllPresent(vec![]));
}

#[test]
fn comparing_twice_gives_the_same_result() {
    let source = vec![file("s/a", "1"), file("s/skip/b", "2"), file("s/c", "3")];
    let destinations = vec![vec![file("d/a", "1")]];
    let mut cc = CopyConfirmer::new(1)
        .add_excluded_pattern(ExcludePattern::MatchEverywhere(String::from("skip")));
    let first = cc.compare(&source, &destinations).unwrap();
    let excluded_first = cc.get_excluded_paths();
    let second = cc.compare(&source, &destinations).unwrap();
    assert_eq!(first, second);
    assert_eq!(first, ConfirmerResult::MissingFiles(strings(&["s/c"])));
    assert_eq!(excluded_first, strings(&["s/skip/b"]));
    assert_eq!(cc.get_excluded_paths(), excluded_first);
}

#[test]
fn excluded_paths_are_those_of_the_last_comparison() {
    let mut cc = CopyConfirmer::new(1)
        .add_excluded_pattern(ExcludePattern::MatchEverywhere(String::from("tmp")));
    assert_eq!(cc.get_excluded_paths(), Vec::<String>::new());
    cc.compare(&vec![file("s/tmp/a", "1")], &vec![]).unwrap();
    assert_eq!(cc.get_excluded_paths(), strings(&["s/tmp/a"]));
    cc.compare(&vec![file("s/b", "1")], &vec![]).unwrap();
    assert_eq!(cc.get_excluded_paths(), Vec::<String>::new());
}

#[test]
fn excluded_files_are_not_read() {
    let source = vec![unreadable("s/private/key", "permission denied"), file("s/a", "1")];
    let mut cc = CopyConfirmer::new(1)
        .add_excluded_pattern(ExcludePattern::MatchPathStart(String::from("s/private")));
    let result = cc.compare(&source, &vec![vec![file("d/a", "1")]]).unwrap();
    assert!(matches!(result, ConfirmerResult::AllPresent(_)));
    assert_eq!(cc.get_excluded_paths(), strings(&["s/private/key"]));
}

#[test]
fn exclusions_are_not_applied_to_destinations() {
    let source = vec![file("s/a", "1")];
    let destinations = vec![vec![file("d/bar/a", "1")]];
    let mut cc = CopyConfirmer::new(1)
        .add_excluded_pattern(ExcludePattern::MatchEverywhere(String::from("bar")));
    let expected = vec![(
        get_blake2_checksum(b"1"),
        FileFound { src_paths: strings(&["s/a"]), dest_paths: strings(&["d/bar/a"]) },
    )];
    assert_eq!(cc.compare(&source, &destinations).unwrap(), ConfirmerResult::AllPresent(expected));
    assert_eq!(cc.get_excluded_paths(), Vec::<String>::new());
}

#[test]
fn failed_source_walk_ends_the_comparison() {
    let source = vec![
        unreadable("s/a", "cannot read a"),
        file("s/tmp/b", "2"),
        failed("cannot list s/locked"),
        file("s/tmp/c", "3"),
        failed("later"),
    ];
    let mut cc = CopyConfirmer::new(1)
        .add_excluded_pattern(ExcludePattern::MatchEverywhere(String::from("tmp")));
    let result = cc.compare(&source, &vec![vec![failed("never walked")]]);
    assert_eq!(result, Err(ConfirmerError(String::from("cannot list s/locked"))));
    assert_eq!(cc.get_excluded_paths(), strings(&["s/tmp/b"]));
}

#[test]
fn unreadable_source_file_ends_the_comparison() {
    let source = vec![file("s/a", "1"), unreadable("s/b", "cannot read b"), unreadable("s/c", "cannot read c")];
    let mut cc = CopyConfirmer::new(1);
    let result = cc.compare(&source, &vec![vec![failed("never walked")]]);
    assert_eq!(result, Err(ConfirmerError(String::from("cannot read b"))));
}

#[test]
fn failed_destination_walk_ends_the_comparison() {
    let source = vec![file("s/a", "1")];
    let destinations = vec![
        vec![file("d1/a", "1"), unreadable("d1/b", "cannot read d1/b")],
        vec![file("d2/a", "1"), failed("cannot list d2/sub")],
    ];
    let mut cc = CopyConfirmer::new(1);
    let result = cc.compare(&source, &destinations);
    assert_eq!(result, Err(ConfirmerError(String::from("cannot list d2/sub"))));
}

#[test]
fn unreadable_destination_file_ends_the_comparison() {
    let source = vec![file("s/a", "1")];
    let destinations = vec![vec![file("d/a", "1"), unreadable("d/b", "cannot read d/b")]];
    let mut cc = CopyConfirmer::new(1);
    let result = cc.compare(&source, &destinations);
    assert_eq!(result, Err(ConfirmerError(String::from("cannot read d/b"))));
}

#[test]
fn builders_keep_what_was_set_before() {
    let cc = CopyConfirmer::new(3);
    assert!(!cc.shows_progress());
    let cc = cc
        .add_excluded_pattern(ExcludePattern::MatchEverywhere(String::from("x")))
        .with_progress_bar()
        .add_excluded_pattern(ExcludePattern::MatchPathStart(String::from("s/y")));
    assert!(cc.shows_progress());
    let mut cc = cc;
    cc.compare(&vec![file("s/x", "1"), file("s/y", "2"), file("s/z", "3")], &vec![]).unwrap();
    assert_eq!(cc.get_excluded_paths(), strings(&["s/x", "s/y"]));
    assert_eq!(cc.pool().max_count(), 3);
}

#[test]
fn admitting_by_hand_follows_the_same_rules() {
    let mut cc = CopyConfirmer::new(1)
        .add_excluded_pattern(ExcludePattern::MatchEverywhere(String::from("bar")));
    cc.begin();
    assert!(cc.admit_source("s/foo", true));
    assert!(!cc.admit_source("s/foo", false));
    assert!(!cc.admit_source("s/bar", true));
    assert!(!cc.admit_source("s/bar", false));
    assert!(cc.admit_destination(true));
    assert!(!cc.admit_destination(false));
    assert_eq!(cc.get_excluded_paths(), strings(&["s/bar"]));
    cc.begin();
    assert_eq!(cc.get_excluded_paths(), Vec::<String>::new());
}
