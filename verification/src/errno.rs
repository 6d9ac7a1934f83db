//! The errors that file operations report.

use vstd::prelude::*;

verus! {

/// The reason why an operation failed.
#[derive(Clone, Copy, Debug, PartialEq, Eq, Structural)]
pub enum Errno {
    /// A path component, or the entry asked for, does not exist.
    NotFound,
    /// A directory was expected and something else was found.
    NotADirectory,
    /// The caller lacks the permission that the operation needs.
    PermissionDenied,
    /// The entry to create already exists.
    AlreadyExists,
    /// Too many symbolic links were met while resolving a path.
    TooManySymlinks,
    /// A hard link would cross from one mounted filesystem to another.
    CrossDevice,
    /// The filesystem or its mountpoint is read-only.
    ReadOnlyFilesystem,
    /// The file is in use.
    Busy,
    /// An argument is malformed, or no identifier is left to allocate.
    InvalidArgument,
    /// The directory still has entries.
    NotEmpty,
    /// The caller is neither the owner of the file nor the superuser.
    NotPermitted,
    /// A path or one of its components is too long.
    NameTooLong,
    /// The storage behind a filesystem failed.
    IoError,
    /// No space is left on the filesystem.
    NoSpace,
    /// The node has as many links as it can have.
    TooManyLinks,
    /// The process has no such file descriptor.
    BadDescriptor,
}

impl Errno {
    /// The number under which the error is known to user space.
    pub open spec fn spec_as_int(self) -> int {
        match self {
            Errno::NotPermitted => 1,
            Errno::NotFound => 2,
            Errno::IoError => 5,
            Errno::BadDescriptor => 9,
            Errno::PermissionDenied => 13,
            Errno::Busy => 16,
            Errno::AlreadyExists => 17,
            Errno::CrossDevice => 18,
            Errno::NotADirectory => 20,
            Errno::InvalidArgument => 22,
            Errno::NoSpace => 28,
            Errno::ReadOnlyFilesystem => 30,
            Errno::TooManyLinks => 31,
            Errno::NameTooLong => 36,
            Errno::NotEmpty => 39,
            Errno::TooManySymlinks => 40,
        }
    }

    /// Returns the number under which the error is known to user space.
    pub fn as_int(self) -> (n: i32)
        ensures
            n == self.spec_as_int(),
    {
        match self {
            Errno::NotPermitted => 1,
            Errno::NotFound => 2,
            Errno::IoError => 5,
            Errno::BadDescriptor => 9,
            Errno::PermissionDenied => 13,
            Errno::Busy => 16,
            Errno::AlreadyExists => 17,
            Errno::CrossDevice => 18,
            Errno::NotADirectory => 20,
            Errno::InvalidArgument => 22,
            Errno::NoSpace => 28,
            Errno::ReadOnlyFilesystem => 30,
            Errno::TooManyLinks => 31,
            Errno::NameTooLong => 36,
            Errno::NotEmpty => 39,
            Errno::TooManySymlinks => 40,
        }
    }
}

/// Two errors with the same number are the same error.
pub proof fn lemma_as_int_injective(a: Errno, b: Errno)
    requires
        a.spec_as_int() == b.spec_as_int(),
    ensures
        a == b,
{
}

} // verus!
