use winstow::error::{IoErrorKind, StowError};
use winstow::path_utils::StowPath;

#[test]
fn test_permission_denied_error() {
    let err = StowError::permission_denied("test error");
    assert!(err.to_string().contains("Permission denied"));
    assert!(err.to_string().contains("Developer Mode"));
}

#[test]
fn test_conflict_error() {
    let err = StowError::conflict(StowPath::parse("test/path"));
    assert!(err.to_string().contains("Conflict"));
    assert!(err.to_string().contains("test/path"));
}

#[test]
fn test_package_not_found_error() {
    let err = StowError::package_not_found("mypackage", StowPath::parse("/stow"));
    assert!(err.to_string().contains("mypackage"));
    assert!(err.to_string().contains("/stow"));
}

#[test]
fn test_invalid_path_error() {
    let err = StowError::invalid_path("invalid path");
    assert!(err.to_string().contains("Invalid path"));
}

#[test]
fn test_error_messages_are_exact() {
    assert_eq!(
        StowError::package_not_found("p", StowPath::parse("/s")).to_string(),
        "Package not found: 'p' does not exist in stow directory '/s'"
    );
    assert_eq!(StowError::invalid_path("x").to_string(), "Invalid path: x");
    assert_eq!(
        StowError::symlink_error(StowPath::parse("/a/b"), "no").to_string(),
        "Symlink operation failed at /a/b: no"
    );
    assert_eq!(
        StowError::io_error(StowPath::parse("/a"), IoErrorKind::NotFound).to_string(),
        "I/O error at /a: entity not found"
    );
    assert_eq!(
        StowError::directory_not_empty(StowPath::parse("/d")).to_string(),
        "Directory is not empty: /d"
    );
    assert_eq!(StowError::config_error("bad").to_string(), "Configuration error: bad");
    assert_eq!(StowError::pattern_error("bad").to_string(), "Invalid pattern: bad");
    assert!(StowError::conflict(StowPath::parse("/t/a")).to_string().starts_with(
        "Conflict: /t/a already exists and is not a symlink pointing to the package."
    ));
    assert!(StowError::permission_denied("m").to_string().starts_with("Permission denied: m\n\n"));
}

#[test]
fn test_io_error_kinds_have_words() {
    let kinds = [
        IoErrorKind::NotFound,
        IoErrorKind::AlreadyExists,
        IoErrorKind::NotADirectory,
        IoErrorKind::IsADirectory,
        IoErrorKind::DirectoryNotEmpty,
        IoErrorKind::InvalidInput,
        IoErrorKind::TooManyLinks,
        IoErrorKind::PermissionDenied,
    ];
    for (i, a) in kinds.iter().enumerate() {
        assert!(!a.describe().is_empty());
        for b in kinds.iter().skip(i + 1) {
            assert_ne!(a.describe(), b.describe());
        }
    }
}
