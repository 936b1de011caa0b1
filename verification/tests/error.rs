use pdx_explorer::error::ErrorKind;
use pdx_explorer::Error;

#[test]
fn new_keeps_the_description() {
    let error = Error::new("something broke".to_string());
    assert_eq!(error.description(), "something broke");
    assert_eq!(error.kind(), ErrorKind::Other);
    assert_eq!(error.line_number(), None);
}

#[test]
fn with_kind_sets_the_kind() {
    let error = Error::with_kind(ErrorKind::PathEncoding, "bad path".to_string());
    assert_eq!(error.description(), "bad path");
    assert_eq!(error.kind(), ErrorKind::PathEncoding);
    assert_eq!(error.line_number(), None);
}

#[test]
fn with_file_reference_names_the_place() {
    let error = Error::with_file_reference("dir/loc.yml", 12, "it went wrong");
    assert_eq!(error.description(), "dir/loc.yml:12: it went wrong");
    assert_eq!(error.line_number(), Some(12));
    assert_eq!(error.kind(), ErrorKind::Other);
}

#[test]
fn with_file_reference_writes_every_line_number() {
    assert_eq!(Error::with_file_reference("f", 0, "d").description(), "f:0: d");
    assert_eq!(Error::with_file_reference("f", 9, "d").description(), "f:9: d");
    assert_eq!(Error::with_file_reference("f", 100, "d").description(), "f:100: d");
    assert_eq!(Error::with_file_reference("", 1, "").description(), ":1: ");
    let error = Error::with_file_reference("f", usize::MAX, "d");
    assert_eq!(*error.description(), format!("f:{}: d", usize::MAX));
    assert_eq!(error.line_number(), Some(usize::MAX));
}

#[test]
fn of_kind_changes_the_kind_only() {
    let error = Error::with_file_reference("f", 3, "d").of_kind(ErrorKind::MalformedKeyLine);
    assert_eq!(error.kind(), ErrorKind::MalformedKeyLine);
    assert_eq!(error.description(), "f:3: d");
    assert_eq!(error.line_number(), Some(3));
}

#[test]
fn not_a_directory_names_the_root() {
    let error = Error::not_a_directory("/tmp/file");
    assert_eq!(error.kind(), ErrorKind::NotADirectory);
    assert_eq!(error.description(), "Root path `/tmp/file` doesn't point to a directory");
}

#[test]
fn path_encoding_names_the_path() {
    let error = Error::path_encoding("/tmp/fi\u{fffd}le");
    assert_eq!(error.kind(), ErrorKind::PathEncoding);
    assert_eq!(error.description(), "path `/tmp/fi\u{fffd}le` contains invalid UTF-8");
}

#[test]
fn io_and_persistence_failures_pass_the_text_through() {
    let error = Error::io("disk on fire".to_string());
    assert_eq!(error.kind(), ErrorKind::Io);
    assert_eq!(error.description(), "disk on fire");
    let error = Error::persistence_failure("table is locked".to_string());
    assert_eq!(error.kind(), ErrorKind::PersistenceFailure);
    assert_eq!(error.description(), "table is locked");
}

#[test]
fn an_io_error_becomes_an_error() {
    let source = std::io::Error::new(std::io::ErrorKind::NotFound, "no such directory");
    let expected = source.to_string();
    let error = Error::from(source);
    assert_eq!(error.kind(), ErrorKind::Io);
    assert_eq!(*error.description(), expected);
    assert_eq!(error.description(), "no such directory");
    assert_eq!(error.line_number(), None);
}

#[test]
fn texts_become_errors() {
    let error = Error::from("plain");
    assert_eq!(error.description(), "plain");
    assert_eq!(error.kind(), ErrorKind::Other);
    let error: Error = "owned".to_string().into();
    assert_eq!(error.description(), "owned");
    assert_eq!(error.kind(), ErrorKind::Other);
}

#[test]
fn errors_can_be_cloned() {
    let error = Error::with_file_reference("f", 3, "d").of_kind(ErrorKind::MalformedKeyLine);
    let copy = error.clone();
    assert_eq!(copy.kind(), error.kind());
    assert_eq!(copy.description(), error.description());
    assert_eq!(copy.line_number(), error.line_number());
}

#[test]
fn a_strip_prefix_error_becomes_an_error() {
    let source = std::path::Path::new("/a/b").strip_prefix("/c").unwrap_err();
    let expected = source.to_string();
    let error = Error::from(source);
    assert_eq!(error.kind(), ErrorKind::Other);
    assert_eq!(*error.description(), expected);
    assert_eq!(error.line_number(), None);
}
