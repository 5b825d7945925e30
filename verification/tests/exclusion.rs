use copy_confirmer::{is_path_excluded, ExcludePattern};

fn start(text: &str) -> ExcludePattern {
    ExcludePattern::MatchPathStart(String::from(text))
}

fn everywhere(text: &str) -> ExcludePattern {
    ExcludePattern::MatchEverywhere(String::from(text))
}

#[test]
fn no_pattern_excludes_nothing() {
    assert!(!is_path_excluded("source/dir/foo.txt", &vec![]));
}

#[test]
fn path_start_matches_a_prefix_only() {
    let patterns = vec![start("source/dir/foo")];
    assert!(is_path_excluded("source/dir/foo", &patterns));
    assert!(is_path_excluded("source/dir/foo/bar.txt", &patterns));
    assert!(is_path_excluded("source/dir/foobar.txt", &patterns));
    assert!(!is_path_excluded("source/dir/bar/foo.txt", &patterns));
    assert!(!is_path_excluded("other/source/dir/foo/bar.txt", &patterns));
    assert!(!is_path_excluded("source/dir/fo", &patterns));
    assert!(!is_path_excluded("", &patterns));
}

#[test]
fn everywhere_matches_any_occurrence() {
    let patterns = vec![everywhere("bar")];
    assert!(is_path_excluded("bar", &patterns));
    assert!(is_path_excluded("dir/bar/foo.txt", &patterns));
    assert!(is_path_excluded("dir/foo/bar.txt", &patterns));
    assert!(is_path_excluded("dir/foo/rebar", &patterns));
    assert!(!is_path_excluded("dir/foo/foo.txt", &patterns));
    assert!(!is_path_excluded("dir/ba/r.txt", &patterns));
    assert!(!is_path_excluded("ba", &patterns));
}

#[test]
fn any_pattern_of_the_list_excludes() {
    let patterns = vec![start("/bar"), everywhere("baz"), start("src/x")];
    assert!(is_path_excluded("src/x/1", &patterns));
    assert!(is_path_excluded("a/baz", &patterns));
    assert!(is_path_excluded("/bar/a", &patterns));
    assert!(!is_path_excluded("a/bar/x", &patterns));
}

#[test]
fn empty_pattern_matches_every_path() {
    assert!(is_path_excluded("anything", &vec![start("")]));
    assert!(is_path_excluded("anything", &vec![everywhere("")]));
    assert!(is_path_excluded("", &vec![everywhere("")]));
}

#[test]
fn patterns_are_matched_character_by_character() {
    let patterns = vec![everywhere("é/ü")];
    assert!(is_path_excluded("dir/é/ü.txt", &patterns));
    assert!(!is_path_excluded("dir/e/u.txt", &patterns));
    assert!(start("数据/").is_match("数据/file"));
    assert!(!start("数据/").is_match("数/据/file"));
}

#[test]
fn a_single_pattern_matches_as_the_list_does() {
    assert!(everywhere("bar").is_match("foo/bar"));
    assert!(!everywhere("bar").is_match("foo/baz"));
    assert!(start("foo").is_match("foo/bar"));
    assert!(!start("bar").is_match("foo/bar"));
}
