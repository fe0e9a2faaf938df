//! The errors of stow operations and the messages shown for them.

use vstd::prelude::*;
use vstd::string::*;
use crate::path_utils::{PathView, StowPath};

verus! {

/// Why an operation on the file system failed.
#[derive(Debug, Clone, Copy, PartialEq, Eq, Structural)]
pub enum IoErrorKind {
    /// No entry at the path, or at a directory on the way to it.
    NotFound,
    /// An entry is already there.
    AlreadyExists,
    /// A directory was needed and something else was found.
    NotADirectory,
    /// Something other than a directory was needed.
    IsADirectory,
    /// The directory still has entries.
    DirectoryNotEmpty,
    /// The entry is not of the kind the operation works on.
    InvalidInput,
    /// Symbolic links led on more often than the limit allows.
    TooManyLinks,
    /// The privilege that the operation needs is not held.
    PermissionDenied,
}

impl IoErrorKind {
    pub open spec fn text(self) -> Seq<char> {
        match self {
            IoErrorKind::NotFound => "entity not found"@,
            IoErrorKind::AlreadyExists => "entity already exists"@,
            IoErrorKind::NotADirectory => "not a directory"@,
            IoErrorKind::IsADirectory => "is a directory"@,
            IoErrorKind::DirectoryNotEmpty => "directory not empty"@,
            IoErrorKind::InvalidInput => "invalid input parameter"@,
            IoErrorKind::TooManyLinks => "too many levels of symbolic links"@,
            IoErrorKind::PermissionDenied => "permission denied"@,
        }
    }

    /// The words for the error kind.
    pub fn describe(&self) -> (r: String)
        ensures
            r@ == self.text(),
    {
        match self {
            IoErrorKind::NotFound => String::from_str("entity not found"),
            IoErrorKind::AlreadyExists => String::from_str("entity already exists"),
            IoErrorKind::NotADirectory => String::from_str("not a directory"),
            IoErrorKind::IsADirectory => String::from_str("is a directory"),
            IoErrorKind::DirectoryNotEmpty => String::from_str("directory not empty"),
            IoErrorKind::InvalidInput => String::from_str("invalid input parameter"),
            IoErrorKind::TooManyLinks => String::from_str("too many levels of symbolic links"),
            IoErrorKind::PermissionDenied => String::from_str("permission denied"),
        }
    }
}

/// Errors that can occur during stow operations.
#[derive(Debug)]
pub enum StowError {
    /// The system refused to create a symbolic link.
    PermissionDenied(String),
    /// Something that is not a link into the package occupies a needed path.
    Conflict { path: StowPath },
    /// The stow directory holds no package of that name.
    PackageNotFound { package: String, stow_dir: StowPath },
    /// A path of the wrong form or kind was given.
    InvalidPath(String),
    /// A symbolic link could not be created for another reason.
    SymlinkError { path: StowPath, message: String },
    /// An operation on the file system failed.
    IoError { path: StowPath, source: IoErrorKind },
    /// A directory that was to be removed still has entries.
    DirectoryNotEmpty(StowPath),
    /// The configuration could not be read.
    ConfigError(String),
    /// A pattern does not compile.
    PatternError(String),
}

/// The mathematical value of a [`StowError`].
pub enum ErrorView {
    PermissionDenied(Seq<char>),
    Conflict { path: PathView },
    PackageNotFound { package: Seq<char>, stow_dir: PathView },
    InvalidPath(Seq<char>),
    SymlinkError { path: PathView, message: Seq<char> },
    IoError { path: PathView, source: IoErrorKind },
    DirectoryNotEmpty(PathView),
    ConfigError(Seq<char>),
    PatternError(Seq<char>),
}

impl ErrorView {
    /// The message shown to the user.
    pub open spec fn message(self) -> Seq<char> {
        match self {
            ErrorView::PermissionDenied(m) => "Permission denied: "@ + m
                + "\n\nTo create symbolic links on Windows, you need to either:\n  - Enable Developer Mode (Settings > Update & Security > For developers)\n  - Run this program as Administrator"@,
            ErrorView::Conflict { path } => "Conflict: "@ + path.text()
                + " already exists and is not a symlink pointing to the package.\n\nTo resolve this conflict, you can:\n  - Use --adopt to move the existing file into the package\n  - Use --override to replace the existing file (destructive)\n  - Manually remove or relocate the conflicting file"@,
            ErrorView::PackageNotFound { package, stow_dir } => "Package not found: '"@ + package
                + "' does not exist in stow directory '"@ + stow_dir.text() + "'"@,
            ErrorView::InvalidPath(m) => "Invalid path: "@ + m,
            ErrorView::SymlinkError { path, message } => "Symlink operation failed at "@
                + path.text() + ": "@ + message,
            ErrorView::IoError { path, source } => "I/O error at "@ + path.text() + ": "@
                + source.text(),
            ErrorView::DirectoryNotEmpty(path) => "Directory is not empty: "@ + path.text(),
            ErrorView::ConfigError(m) => "Configuration error: "@ + m,
            ErrorView::PatternError(m) => "Invalid pattern: "@ + m,
        }
    }
}

impl View for StowError {
    type V = ErrorView;

    open spec fn view(&self) -> ErrorView {
        match self {
            StowError::PermissionDenied(m) => ErrorView::PermissionDenied(m@),
            StowError::Conflict { path } => ErrorView::Conflict { path: path@ },
            StowError::PackageNotFound { package, stow_dir } => ErrorView::PackageNotFound {
                package: package@,
                stow_dir: stow_dir@,
            },
            StowError::InvalidPath(m) => ErrorView::InvalidPath(m@),
            StowError::SymlinkError { path, message } => ErrorView::SymlinkError {
                path: path@,
                message: message@,
            },
            StowError::IoError { path, source } => ErrorView::IoError {
                path: path@,
                source: *source,
            },
            StowError::DirectoryNotEmpty(path) => ErrorView::DirectoryNotEmpty(path@),
            StowError::ConfigError(m) => ErrorView::ConfigError(m@),
            StowError::PatternError(m) => ErrorView::PatternError(m@),
        }
    }
}

impl StowError {
    pub fn permission_denied(message: &str) -> (e: Self)
        ensures
            e@ == ErrorView::PermissionDenied(message@),
    {
        StowError::PermissionDenied(String::from_str(message))
    }

    pub fn conflict(path: StowPath) -> (e: Self)
        ensures
            e@ == (ErrorView::Conflict { path: path@ }),
    {
        StowError::Conflict { path }
    }

    pub fn package_not_found(package: &str, stow_dir: StowPath) -> (e: Self)
        ensures
            e@ == (ErrorView::PackageNotFound { package: package@, stow_dir: stow_dir@ }),
    {
        StowError::PackageNotFound { package: String::from_str(package), stow_dir }
    }

    pub fn invalid_path(message: &str) -> (e: Self)
        ensures
            e@ == ErrorView::InvalidPath(message@),
    {
        StowError::InvalidPath(String::from_str(message))
    }

    pub fn symlink_error(path: StowPath, message: &str) -> (e: Self)
        ensures
            e@ == (ErrorView::SymlinkError { path: path@, message: message@ }),
    {
        StowError::SymlinkError { path, message: String::from_str(message) }
    }

    pub fn io_error(path: StowPath, source: IoErrorKind) -> (e: Self)
        ensures
            e@ == (ErrorView::IoError { path: path@, source }),
    {
        StowError::IoError { path, source }
    }

    pub fn directory_not_empty(path: StowPath) -> (e: Self)
        ensures
            e@ == ErrorView::DirectoryNotEmpty(path@),
    {
        StowError::DirectoryNotEmpty(path)
    }

    pub fn config_error(message: &str) -> (e: Self)
        ensures
            e@ == ErrorView::ConfigError(message@),
    {
        StowError::ConfigError(String::from_str(message))
    }

    pub fn pattern_error(message: &str) -> (e: Self)
        ensures
            e@ == ErrorView::PatternError(message@),
    {
        StowError::PatternError(String::from_str(message))
    }

    /// The message shown to the user.
    pub fn to_string(&self) -> (r: String)
        ensures
            r@ == self@.message(),
    {
        match self {
            StowError::PermissionDenied(m) => {
                let mut s = String::from_str("Permission denied: ");
                s.append(m.as_str());
                s.append(
                    "\n\nTo create symbolic links on Windows, you need to either:\n  - Enable Developer Mode (Settings > Update & Security > For developers)\n  - Run this program as Administrator",
                );
                s
            },
            StowError::Conflict { path } => {
                let mut s = String::from_str("Conflict: ");
                let p = path.to_string();
                s.append(p.as_str());
                s.append(
                    " already exists and is not a symlink pointing to the package.\n\nTo resolve this conflict, you can:\n  - Use --adopt to move the existing file into the package\n  - Use --override to replace the existing file (destructive)\n  - Manually remove or relocate the conflicting file",
                );
                s
            },
            StowError::PackageNotFound { package, stow_dir } => {
                let mut s = String::from_str("Package not found: '");
                s.append(package.as_str());
                s.append("' does not exist in stow directory '");
                let p = stow_dir.to_string();
                s.append(p.as_str());
                s.append("'");
                s
            },
            StowError::InvalidPath(m) => {
                let mut s = String::from_str("Invalid path: ");
                s.append(m.as_str());
                s
            },
            StowError::SymlinkError { path, message } => {
                let mut s = String::from_str("Symlink operation failed at ");
                let p = path.to_string();
                s.append(p.as_str());
                s.append(": ");
                s.append(message.as_str());
                s
            },
            StowError::IoError { path, source } => {
                let mut s = String::from_str("I/O error at ");
                let p = path.to_string();
                s.append(p.as_str());
                s.append(": ");
                let k = source.describe();
                s.append(k.as_str());
                s
            },
            StowError::DirectoryNotEmpty(path) => {
                let mut s = String::from_str("Directory is not empty: ");
                let p = path.to_string();
                s.append(p.as_str());
                s
            },
            StowError::ConfigError(m) => {
                let mut s = String::from_str("Configuration error: ");
                s.append(m.as_str());
                s
            },
            StowError::PatternError(m) => {
                let mut s = String::from_str("Invalid pattern: ");
                s.append(m.as_str());
                s
            },
        }
    }
}

} // verus!
