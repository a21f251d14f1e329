use at_runner::error::StatusCode;
use at_runner::validation::{
    invalid_input, validate_file_root, validate_filename, validate_filename_for_io, validate_step_id,
    validate_workspace_filename,
};

#[test]
fn accepts_simple_components() {
    validate_filename("MunkK.env").unwrap();
    validate_file_root("MunkK").unwrap();
    validate_step_id("kraken_1").unwrap();
}

#[test]
fn rejects_path_like_components() {
    for value in ["", ".", "..", "../x", "x/y", "x\\y", "x..y"] {
        assert!(validate_filename(value).is_err(), "{value:?}");
        assert!(validate_file_root(value).is_err(), "{value:?}");
        assert!(validate_step_id(value).is_err(), "{value:?}");
    }
}

#[test]
fn component_errors_name_the_first_broken_rule() {
    let e = validate_filename("").unwrap_err();
    assert_eq!(e.code, StatusCode::InvalidArgument);
    assert_eq!(e.message, "filename must not be empty");

    let e = validate_file_root(".").unwrap_err();
    assert_eq!(e.message, "file_root must be a single path component");
    let e = validate_file_root("..").unwrap_err();
    assert_eq!(e.message, "file_root must be a single path component");
    let e = validate_step_id("a/b").unwrap_err();
    assert_eq!(e.message, "step id must be a single path component");
    let e = validate_step_id("a\\b").unwrap_err();
    assert_eq!(e.message, "step id must be a single path component");
    // ".." inside a name that holds no separator
    let e = validate_filename("x..y").unwrap_err();
    assert_eq!(e.code, StatusCode::InvalidArgument);
    assert_eq!(e.message, "filename must not contain '..'");
    // a separator is reported before the ".."
    let e = validate_filename("../x").unwrap_err();
    assert_eq!(e.message, "filename must be a single path component");
}

#[test]
fn single_dots_inside_names_are_fine() {
    validate_filename(".env").unwrap();
    validate_filename("a.b.c").unwrap();
    validate_step_id("x.y").unwrap();
}

#[test]
fn workspace_filenames_use_their_own_messages() {
    let e = validate_workspace_filename("").unwrap_err();
    assert_eq!(e.code, StatusCode::InvalidArgument);
    assert_eq!(e.message, "filename must not be empty");
    for bad in ["a/b", "a\\b", "..", "x..y"] {
        let e = validate_workspace_filename(bad).unwrap_err();
        assert_eq!(e.message, "filename must not contain '/', '\\', or '..'");
    }
    validate_workspace_filename("Munk.env").unwrap();
    // a lone dot passes this rule
    validate_workspace_filename(".").unwrap();
}

#[test]
fn io_validation_carries_the_message() {
    validate_filename_for_io("pekeris.env").unwrap();
    let e = validate_filename_for_io("../etc").unwrap_err();
    assert_eq!(e.kind(), std::io::ErrorKind::InvalidInput);
    assert_eq!(e.to_string(), "filename must be a single path component");

    let e = invalid_input("bad".to_string());
    assert_eq!(e.kind(), std::io::ErrorKind::InvalidInput);
    assert_eq!(e.to_string(), "bad");
}
