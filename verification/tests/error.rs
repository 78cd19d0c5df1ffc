use transit_model::error::Error;

#[test]
fn error_names_the_identifier_it_is_about() {
    assert_eq!(Error::DuplicateId("N1".to_string()).id(), "N1");
    assert_eq!(Error::UnknownId("N9".to_string()).id(), "N9");
    assert_eq!(Error::IntegrityViolation("R7".to_string()).id(), "R7");
    assert_eq!(Error::EmptyResult.id(), "");
}

#[test]
fn errors_of_different_kinds_differ() {
    assert_ne!(Error::DuplicateId("N1".to_string()), Error::UnknownId("N1".to_string()));
    assert_ne!(Error::UnknownId("N1".to_string()), Error::UnknownId("N2".to_string()));
    assert_eq!(Error::EmptyResult.clone(), Error::EmptyResult);
}
