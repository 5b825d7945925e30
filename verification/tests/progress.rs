use copy_confirmer::{
    get_blake2_checksum, track_progress, ConfirmerResult, CopyConfirmer, ExcludePattern, FileFound,
    HashResult, ProgressReport, WalkItem,
};
use std::sync::mpsc::channel;

#[test]
fn progress_is_what_is_not_outstanding() {
    assert_eq!(track_progress(10, 2, 3), ProgressReport { completed: 5, quiescent: false });
    assert_eq!(track_progress(10, 0, 10), ProgressReport { completed: 0, quiescent: false });
    assert_eq!(track_progress(10, 1, 0), ProgressReport { completed: 9, quiescent: false });
}

#[test]
fn pool_without_tasks_is_quiescent() {
    assert_eq!(track_progress(7, 0, 0), ProgressReport { completed: 7, quiescent: true });
    assert_eq!(track_progress(0, 0, 0), ProgressReport { completed: 0, quiescent: true });
}

#[test]
fn more_outstanding_than_submitted_counts_as_none_done() {
    assert_eq!(track_progress(3, 2, 2), ProgressReport { completed: 0, quiescent: false });
    assert_eq!(track_progress(0, usize::MAX, usize::MAX), ProgressReport { completed: 0, quiescent: false });
    assert_eq!(track_progress(u64::MAX, 0, 1), ProgressReport { completed: u64::MAX - 1, quiescent: false });
}

#[test]
fn idle_engine_reports_a_quiescent_pool() {
    let cc = CopyConfirmer::new(2);
    assert_eq!(cc.observe(4), ProgressReport { completed: 4, quiescent: true });
}

#[test]
fn phases_end_well_on_a_pool_without_faults() {
    let cc = CopyConfirmer::new(1);
    let source = vec![HashResult { path: String::from("s/a"), checksum: Ok(String::from("A")) }];
    let index = cc.end_source_phase(&source).unwrap();
    let result = cc.end_destination_phase(index, &vec![]).unwrap();
    assert_eq!(result, ConfirmerResult::MissingFiles(vec![String::from("s/a")]));
}

#[test]
fn panicked_task_fails_the_phase() {
    let cc = CopyConfirmer::new(1);
    cc.pool().execute(|| panic!("task failed"));
    cc.pool().join();
    let source = vec![HashResult { path: String::from("s/a"), checksum: Ok(String::from("A")) }];
    match cc.end_source_phase(&source) {
        Err(error) => assert_eq!(error.message(), "A panic occured while calculating hashes."),
        Ok(_) => panic!("a panicked task must fail the phase"),
    }
}

#[test]
fn run_on_the_pool_ends_as_the_comparison_of_values_does() {
    let source = [("s/a", "1"), ("s/tmp/b", "2"), ("s/c", "3"), ("s/d", "1")];
    let destination = [("d/x", "3"), ("d/y", "1"), ("d/z", "9")];
    let pattern = || ExcludePattern::MatchEverywhere(String::from("tmp"));

    let mut cc = CopyConfirmer::new(4).add_excluded_pattern(pattern());
    let (sender, receiver) = channel::<HashResult>();
    cc.begin();
    let mut submitted = 0;
    for (path, content) in source {
        if cc.admit_source(path, true) {
            let sender = sender.clone();
            cc.pool().execute(move || {
                let checksum = Ok(get_blake2_checksum(content.as_bytes()));
                sender.send(HashResult { path: String::from(path), checksum }).unwrap();
            });
            submitted += 1;
        }
    }
    cc.pool().join();
    assert_eq!(cc.observe(submitted), ProgressReport { completed: 3, quiescent: true });
    let results: Vec<HashResult> = receiver.try_iter().collect();
    assert_eq!(results.len(), 3);
    let index = cc.end_source_phase(&results).unwrap();

    for (path, content) in destination {
        if cc.admit_destination(true) {
            let sender = sender.clone();
            cc.pool().execute(move || {
                let checksum = Ok(get_blake2_checksum(content.as_bytes()));
                sender.send(HashResult { path: String::from(path), checksum }).unwrap();
            });
        }
    }
    cc.pool().join();
    let results: Vec<HashResult> = receiver.try_iter().collect();
    let on_the_pool = cc.end_destination_phase(index, &results).unwrap();
    assert_eq!(cc.get_excluded_paths(), vec![String::from("s/tmp/b")]);

    let walk = |files: &[(&str, &str)]| -> Vec<WalkItem> {
        files.iter().map(|(p, c)| WalkItem::File(String::from(*p), Ok(c.as_bytes().to_vec()))).collect()
    };
    let mut plain = CopyConfirmer::new(1).add_excluded_pattern(pattern());
    let of_values = plain.compare(&walk(&source), &vec![walk(&destination)]).unwrap();
    assert_eq!(plain.get_excluded_paths(), cc.get_excluded_paths());

    // The order of arrival decides the order of the entries and of their paths,
    // and nothing else.
    let sorted = |result: ConfirmerResult| -> Vec<(String, FileFound)> {
        match result {
            ConfirmerResult::AllPresent(mut found) => {
                found.sort_by(|a, b| a.0.cmp(&b.0));
                for entry in found.iter_mut() {
                    entry.1.src_paths.sort();
                }
                found
            }
            ConfirmerResult::MissingFiles(missing) => panic!("missing: {missing:?}"),
        }
    };
    assert_eq!(sorted(on_the_pool), sorted(of_values));
}

#[test]
fn engine_has_a_pool_of_the_size_asked_for() {
    assert_eq!(CopyConfirmer::new(1).pool().max_count(), 1);
    assert_eq!(CopyConfirmer::new(5).pool().max_count(), 5);
}
