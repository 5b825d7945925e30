use copy_confirmer::ConfirmerError;

#[test]
fn error_message_is_the_wrapped_text() {
    let error = ConfirmerError(String::from("boom"));
    assert_eq!(error.message(), "boom");
}

#[test]
fn io_error_becomes_an_error_with_its_text() {
    let error = std::io::Error::new(std::io::ErrorKind::Other, "disk on fire");
    assert_eq!(ConfirmerError::from(error).message(), "disk on fire");
}

#[test]
fn duplicate_carries_the_same_message() {
    let error = ConfirmerError(String::from("boom"));
    assert_eq!(error.duplicate(), error);
}

#[test]
fn worker_fault_has_its_own_message() {
    assert_eq!(ConfirmerError::worker_fault().message(), "A panic occured while calculating hashes.");
}
