use vstd::prelude::*;
use crate::text::{concat3, owned};

verus! {

/// Errors returned by file-system operations and builtins.
///
/// Most messages follow the wording of GNU coreutils.
#[derive(Debug, Clone)]
pub enum ZillError {
    NotFound(String),
    NotADirectory(String),
    IsADirectory(String),
    FileExists(String),
    RmNotFound(String),
    RmIsDirectory(String),
    DirectoryNotEmpty(String),
    PermissionDenied(String),
    FileTooLarge,
    DiskFull,
    InvalidPath(String),
    Generic(String),
}

/// The mathematical value of a [`ZillError`].
pub enum ErrView {
    NotFound(Seq<char>),
    NotADirectory(Seq<char>),
    IsADirectory(Seq<char>),
    FileExists(Seq<char>),
    RmNotFound(Seq<char>),
    RmIsDirectory(Seq<char>),
    DirectoryNotEmpty(Seq<char>),
    PermissionDenied(Seq<char>),
    FileTooLarge,
    DiskFull,
    InvalidPath(Seq<char>),
    Generic(Seq<char>),
}

impl View for ZillError {
    type V = ErrView;

    open spec fn view(&self) -> ErrView {
        match self {
            ZillError::NotFound(s) => ErrView::NotFound(s@),
            ZillError::NotADirectory(s) => ErrView::NotADirectory(s@),
            ZillError::IsADirectory(s) => ErrView::IsADirectory(s@),
            ZillError::FileExists(s) => ErrView::FileExists(s@),
            ZillError::RmNotFound(s) => ErrView::RmNotFound(s@),
            ZillError::RmIsDirectory(s) => ErrView::RmIsDirectory(s@),
            ZillError::DirectoryNotEmpty(s) => ErrView::DirectoryNotEmpty(s@),
            ZillError::PermissionDenied(s) => ErrView::PermissionDenied(s@),
            ZillError::FileTooLarge => ErrView::FileTooLarge,
            ZillError::DiskFull => ErrView::DiskFull,
            ZillError::InvalidPath(s) => ErrView::InvalidPath(s@),
            ZillError::Generic(s) => ErrView::Generic(s@),
        }
    }
}

/// The text of an error, as it is shown to the user.
pub open spec fn error_message(e: ErrView) -> Seq<char> {
    match e {
        ErrView::NotFound(s) => "ls: "@ + s + ": No such file or directory"@,
        ErrView::NotADirectory(s) => "ls: "@ + s + ": Not a directory"@,
        ErrView::IsADirectory(s) => "cat: "@ + s + ": Is a directory"@,
        ErrView::FileExists(s) => "mkdir: cannot create directory ‘"@ + s + "’: File exists"@,
        ErrView::RmNotFound(s) => "rm: cannot remove ‘"@ + s + "’: No such file or directory"@,
        ErrView::RmIsDirectory(s) => "rm: cannot remove ‘"@ + s + "’: Is a directory"@,
        ErrView::DirectoryNotEmpty(s) => "rm: cannot remove ‘"@ + s + "’: Directory not empty"@,
        ErrView::PermissionDenied(s) => "zill: "@ + s + ": permission denied"@,
        ErrView::FileTooLarge => "zill: file too large"@,
        ErrView::DiskFull => "zill: disk full"@,
        ErrView::InvalidPath(s) => "zill: invalid path: "@ + s + ""@,
        ErrView::Generic(s) => "zill: "@ + s + ""@,
    }
}

impl ZillError {
    /// The text of the error, as it is shown to the user.
    pub fn message(&self) -> (r: String)
        ensures
            r@ == error_message(self@),
    {
        match self {
            ZillError::NotFound(s) => concat3("ls: ", s.as_str(), ": No such file or directory"),
            ZillError::NotADirectory(s) => concat3("ls: ", s.as_str(), ": Not a directory"),
            ZillError::IsADirectory(s) => concat3("cat: ", s.as_str(), ": Is a directory"),
            ZillError::FileExists(s) => concat3(
                "mkdir: cannot create directory ‘",
                s.as_str(),
                "’: File exists",
            ),
            ZillError::RmNotFound(s) => concat3(
                "rm: cannot remove ‘",
                s.as_str(),
                "’: No such file or directory",
            ),
            ZillError::RmIsDirectory(s) => concat3(
                "rm: cannot remove ‘",
                s.as_str(),
                "’: Is a directory",
            ),
            ZillError::DirectoryNotEmpty(s) => concat3(
                "rm: cannot remove ‘",
                s.as_str(),
                "’: Directory not empty",
            ),
            ZillError::PermissionDenied(s) => concat3("zill: ", s.as_str(), ": permission denied"),
            ZillError::FileTooLarge => owned("zill: file too large"),
            ZillError::DiskFull => owned("zill: disk full"),
            ZillError::InvalidPath(s) => concat3("zill: invalid path: ", s.as_str(), ""),
            ZillError::Generic(s) => concat3("zill: ", s.as_str(), ""),
        }
    }
}

} // verus!
