//! The ways in which a synchronisation can fail.

use vstd::prelude::*;

verus! {

/// Why a synchronisation, or the transfer of one file, failed.
///
/// Each variant carries a text: the reason that the driver reported,
/// or, for `PathMapping`, the local path that could not be mapped.
#[derive(Debug)]
pub enum SyncError {
    /// The server could not be reached.
    Connection(String),
    /// The server refused the credentials.
    Auth(String),
    /// A local directory could not be listed.
    Discovery(String),
    /// A local file does not lie under the local root.
    PathMapping(String),
    /// A local file could not be read.
    LocalRead(String),
    /// The server did not accept a file.
    RemoteUpload(String),
}

/// The kind of a failure, without its text.
#[derive(Clone, Copy, Debug, PartialEq, Eq, Structural)]
pub enum ErrorKind {
    Connection,
    Auth,
    Discovery,
    PathMapping,
    LocalRead,
    RemoteUpload,
}

impl View for SyncError {
    type V = (ErrorKind, Seq<char>);

    /// A failure is read as its kind and its text.
    open spec fn view(&self) -> (ErrorKind, Seq<char>) {
        (self.spec_kind(), self.spec_text())
    }
}

impl SyncError {
    /// The kind of this failure.
    pub open spec fn spec_kind(&self) -> ErrorKind {
        match self {
            SyncError::Connection(_) => ErrorKind::Connection,
            SyncError::Auth(_) => ErrorKind::Auth,
            SyncError::Discovery(_) => ErrorKind::Discovery,
            SyncError::PathMapping(_) => ErrorKind::PathMapping,
            SyncError::LocalRead(_) => ErrorKind::LocalRead,
            SyncError::RemoteUpload(_) => ErrorKind::RemoteUpload,
        }
    }

    /// The text carried by this failure.
    pub open spec fn spec_text(&self) -> Seq<char> {
        match self {
            SyncError::Connection(t) => t@,
            SyncError::Auth(t) => t@,
            SyncError::Discovery(t) => t@,
            SyncError::PathMapping(t) => t@,
            SyncError::LocalRead(t) => t@,
            SyncError::RemoteUpload(t) => t@,
        }
    }

    /// The kind of this failure.
    #[verifier::when_used_as_spec(spec_kind)]
    pub fn kind(&self) -> (k: ErrorKind)
        ensures
            k == self.spec_kind(),
    {
        match self {
            SyncError::Connection(_) => ErrorKind::Connection,
            SyncError::Auth(_) => ErrorKind::Auth,
            SyncError::Discovery(_) => ErrorKind::Discovery,
            SyncError::PathMapping(_) => ErrorKind::PathMapping,
            SyncError::LocalRead(_) => ErrorKind::LocalRead,
            SyncError::RemoteUpload(_) => ErrorKind::RemoteUpload,
        }
    }

    /// The text carried by this failure.
    pub fn text(&self) -> (t: &str)
        ensures
            t@ == self.spec_text(),
    {
        match self {
            SyncError::Connection(t) => t.as_str(),
            SyncError::Auth(t) => t.as_str(),
            SyncError::Discovery(t) => t.as_str(),
            SyncError::PathMapping(t) => t.as_str(),
            SyncError::LocalRead(t) => t.as_str(),
            SyncError::RemoteUpload(t) => t.as_str(),
        }
    }

    /// Whether a failure of this kind ends the whole operation
    /// even when it concerns one file among many.
    pub open spec fn spec_is_fatal(&self) -> bool {
        self.spec_kind() == ErrorKind::Connection || self.spec_kind() == ErrorKind::Auth
            || self.spec_kind() == ErrorKind::Discovery
    }

    /// Whether a failure of this kind ends the whole operation
    /// even when it concerns one file among many.
    #[verifier::when_used_as_spec(spec_is_fatal)]
    pub fn is_fatal(&self) -> (b: bool)
        ensures
            b == self.spec_is_fatal(),
    {
        match self {
            SyncError::Connection(_) => true,
            SyncError::Auth(_) => true,
            SyncError::Discovery(_) => true,
            _ => false,
        }
    }
}

impl Clone for SyncError {
    fn clone(&self) -> (c: Self)
        ensures
            c@ == self@,
    {
        match self {
            SyncError::Connection(t) => SyncError::Connection(t.clone()),
            SyncError::Auth(t) => SyncError::Auth(t.clone()),
            SyncError::Discovery(t) => SyncError::Discovery(t.clone()),
            SyncError::PathMapping(t) => SyncError::PathMapping(t.clone()),
            SyncError::LocalRead(t) => SyncError::LocalRead(t.clone()),
            SyncError::RemoteUpload(t) => SyncError::RemoteUpload(t.clone()),
        }
    }
}

} // verus!
