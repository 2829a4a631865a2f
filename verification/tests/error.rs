//! Errors and their texts.

use forst_rs::error::ForstError;

#[test]
fn test_display_io() {
    let io_err = std::io::Error::new(std::io::ErrorKind::NotFound, "file missing");
    let err = ForstError::Io(io_err);
    assert!(err.to_string().starts_with("IO error: "));
    assert!(err.to_string().contains("file missing"));
}

#[test]
fn test_display_corruption() {
    let err = ForstError::corruption("bad checksum");
    assert_eq!(err.to_string(), "Data corruption: bad checksum");
}

#[test]
fn test_display_not_found() {
    let err = ForstError::not_found("key abc");
    assert_eq!(err.to_string(), "Not found: key abc");
}

#[test]
fn test_display_not_supported() {
    let err = ForstError::not_supported("merge operator");
    assert_eq!(err.to_string(), "Not supported: merge operator");
}

#[test]
fn test_display_invalid_argument() {
    let err = ForstError::invalid_argument("negative size");
    assert_eq!(err.to_string(), "Invalid argument: negative size");
}

#[test]
fn test_display_incomplete() {
    let err = ForstError::incomplete("partial merge");
    assert_eq!(err.to_string(), "Incomplete: partial merge");
}

#[test]
fn test_display_aborted() {
    let err = ForstError::aborted("write conflict");
    assert_eq!(err.to_string(), "Aborted: write conflict");
}

#[test]
fn test_display_busy() {
    let err = ForstError::busy("compaction in progress");
    assert_eq!(err.to_string(), "Resource busy: compaction in progress");
}

#[test]
fn test_display_timed_out() {
    let err = ForstError::timed_out("lock wait");
    assert_eq!(err.to_string(), "Timed out: lock wait");
}

#[test]
fn test_display_expired() {
    let err = ForstError::expired("ttl exceeded");
    assert_eq!(err.to_string(), "Expired: ttl exceeded");
}

#[test]
fn test_display_internal() {
    let err = ForstError::internal("engine stopped accepting writes");
    assert_eq!(err.to_string(), "Internal: engine stopped accepting writes");
}

#[test]
fn test_from_io_error() {
    let io_err = std::io::Error::new(std::io::ErrorKind::PermissionDenied, "denied");
    let forst_err: ForstError = io_err.into();
    assert!(forst_err.is_io());
    assert!(forst_err.to_string().contains("denied"));
}


#[test]
fn test_is_predicates() {
    assert!(ForstError::corruption("x").is_corruption());
    assert!(!ForstError::corruption("x").is_not_found());

    assert!(ForstError::not_found("x").is_not_found());
    assert!(!ForstError::not_found("x").is_corruption());

    assert!(ForstError::not_supported("x").is_not_supported());
    assert!(ForstError::invalid_argument("x").is_invalid_argument());
    assert!(ForstError::incomplete("x").is_incomplete());
    assert!(ForstError::aborted("x").is_aborted());
    assert!(ForstError::busy("x").is_busy());
    assert!(ForstError::timed_out("x").is_timed_out());
    assert!(ForstError::expired("x").is_expired());
    assert!(ForstError::internal("x").is_internal());
}

#[test]
fn test_is_io_predicate() {
    let io_err = std::io::Error::other("oops");
    let err = ForstError::Io(io_err);
    assert!(err.is_io());
    assert!(!err.is_corruption());
}

#[test]
fn test_constructors_accept_str() {
    let err = ForstError::corruption("msg");
    assert!(err.is_corruption());
}

#[test]
fn test_constructors_accept_string() {
    let err = ForstError::corruption(String::from("msg"));
    assert!(err.is_corruption());
}

#[test]
fn test_constructors_accept_format() {
    let err = ForstError::not_found(format!("key={}", 42));
    assert_eq!(err.to_string(), "Not found: key=42");
}

#[test]
fn an_io_error_shows_its_own_text_after_the_prefix() {
    for code in [1, 2, 13, 17] {
        let own = std::io::Error::from_raw_os_error(code).to_string();
        let err = ForstError::from(std::io::Error::from_raw_os_error(code));
        assert_eq!(err.to_string(), format!("IO error: {own}"));
    }
    let err = ForstError::from(std::io::Error::other("oops"));
    assert_eq!(err.to_string(), "IO error: oops");
}
