use copy_confirmer::{ConfirmerError, ConfirmerResult, FileFound, HashResult, PendingIndex};

fn hashed(path: &str, checksum: &str) -> HashResult {
    HashResult { path: String::from(path), checksum: Ok(String::from(checksum)) }
}

fn failed(path: &str, message: &str) -> HashResult {
    HashResult { path: String::from(path), checksum: Err(ConfirmerError(String::from(message))) }
}

fn strings(items: &[&str]) -> Vec<String> {
    items.iter().map(|s| String::from(*s)).collect()
}

fn resolve(source: Vec<HashResult>, destination: Vec<HashResult>) -> ConfirmerResult {
    PendingIndex::build(&source, 0).unwrap().resolve(&destination, 0).unwrap()
}

#[test]
fn index_of_an_empty_source_is_all_present() {
    assert_eq!(resolve(vec![], vec![hashed("d/x", "1")]), ConfirmerResult::AllPresent(vec![]));
    assert_eq!(resolve(vec![], vec![]), ConfirmerResult::AllPresent(vec![]));
}

#[test]
fn unmatched_source_files_are_missing() {
    let outcome = resolve(
        vec![hashed("s/foo", "A"), hashed("s/bar", "B")],
        vec![hashed("d/foo", "A")],
    );
    assert_eq!(outcome, ConfirmerResult::MissingFiles(strings(&["s/bar"])));
}

#[test]
fn missing_files_come_bucket_by_bucket() {
    let outcome = resolve(
        vec![hashed("s/1", "A"), hashed("s/2", "B"), hashed("s/3", "A"), hashed("s/4", "C"), hashed("s/5", "B")],
        vec![hashed("d/c", "C")],
    );
    assert_eq!(outcome, ConfirmerResult::MissingFiles(strings(&["s/1", "s/3", "s/2", "s/5"])));
}

#[test]
fn matched_files_are_found_by_checksum() {
    let outcome = resolve(
        vec![hashed("s/dir/foo.txt", "A"), hashed("s/dir/sub/bar.txt", "B")],
        vec![hashed("d/one", "B"), hashed("d/extra", "Z"), hashed("d/two", "A")],
    );
    let expected = vec![
        (String::from("A"), FileFound { src_paths: strings(&["s/dir/foo.txt"]), dest_paths: strings(&["d/two"]) }),
        (String::from("B"), FileFound { src_paths: strings(&["s/dir/sub/bar.txt"]), dest_paths: strings(&["d/one"]) }),
    ];
    assert_eq!(outcome, ConfirmerResult::AllPresent(expected));
}

#[test]
fn source_files_with_one_content_share_a_bucket() {
    let outcome = resolve(
        vec![hashed("s/a", "A"), hashed("s/b", "B"), hashed("s/a2", "A")],
        vec![hashed("d/b", "B"), hashed("d/a", "A")],
    );
    let expected = vec![
        (String::from("A"), FileFound { src_paths: strings(&["s/a", "s/a2"]), dest_paths: strings(&["d/a"]) }),
        (String::from("B"), FileFound { src_paths: strings(&["s/b"]), dest_paths: strings(&["d/b"]) }),
    ];
    assert_eq!(outcome, ConfirmerResult::AllPresent(expected));
}

#[test]
fn only_the_first_destination_file_resolves_a_bucket() {
    let outcome = resolve(
        vec![hashed("s/a", "A")],
        vec![hashed("d/first", "A"), hashed("d/second", "A")],
    );
    let expected = vec![
        (String::from("A"), FileFound { src_paths: strings(&["s/a"]), dest_paths: strings(&["d/first"]) }),
    ];
    assert_eq!(outcome, ConfirmerResult::AllPresent(expected));
}

#[test]
fn first_read_failure_of_the_source_ends_the_run() {
    let results = vec![hashed("s/a", "A"), failed("s/b", "first"), failed("s/c", "second")];
    match PendingIndex::build(&results, 0) {
        Err(error) => assert_eq!(error, ConfirmerError(String::from("first"))),
        Ok(_) => panic!("a read failure must fail the source phase"),
    }
}

#[test]
fn first_read_failure_of_the_destinations_ends_the_run() {
    let index = PendingIndex::build(&vec![hashed("s/a", "A")], 0).unwrap();
    let results = vec![hashed("d/a", "A"), failed("d/b", "unreadable"), failed("d/c", "later")];
    assert_eq!(index.resolve(&results, 0), Err(ConfirmerError(String::from("unreadable"))));
}

#[test]
fn worker_fault_fails_either_phase() {
    let fault = ConfirmerError(String::from("A panic occured while calculating hashes."));
    match PendingIndex::build(&vec![hashed("s/a", "A")], 1) {
        Err(error) => assert_eq!(error, fault),
        Ok(_) => panic!("a worker fault must fail the source phase"),
    }
    match PendingIndex::build(&vec![failed("s/a", "unreadable")], 3) {
        Err(error) => assert_eq!(error, fault),
        Ok(_) => panic!("a worker fault must fail the source phase"),
    }
    let index = PendingIndex::build(&vec![hashed("s/a", "A")], 0).unwrap();
    assert_eq!(index.resolve(&vec![hashed("d/a", "A")], 2), Err(fault));
}
