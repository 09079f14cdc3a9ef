use vstd::prelude::*;

verus! {

/// The category of an asset failure.
#[derive(Debug, Clone, Copy, PartialEq, Eq, Structural)]
pub enum ErrorKind {
    InvalidPath,
    Registration,
    UnsupportedImporter,
    TypeMismatch,
    MissingAsset,
    CpuReleased,
    DependencyCycle,
    InvalidData,
    Cache,
    Io,
    QueueFull,
    Shutdown,
    Import,
}

/// What caused an asset error: another asset error, or the rendered text of a
/// foreign error.
#[derive(Debug)]
pub enum ErrorCause {
    Asset(Box<AssetError>),
    External(String),
}

/// An asset failure: its kind, a message, and an optional cause chain.
#[derive(Debug)]
pub struct AssetError {
    pub kind: ErrorKind,
    pub message: String,
    pub cause: Option<Box<ErrorCause>>,
}

/// The text of an error, rendered as `message: cause`.
pub open spec fn describe_error(e: AssetError) -> Seq<char>
    decreases e,
{
    match e.cause {
        None => e.message@,
        Some(cause) => e.message@ + ": "@ + describe_cause(*cause),
    }
}

pub open spec fn describe_cause(c: ErrorCause) -> Seq<char>
    decreases c,
{
    match c {
        ErrorCause::Asset(inner) => describe_error(*inner),
        ErrorCause::External(text) => text@,
    }
}

impl AssetError {
    pub fn new(kind: ErrorKind, message: &str) -> (e: AssetError)
        ensures
            e.kind == kind,
            e.message@ == message@,
            e.cause is None,
    {
        AssetError { kind, message: message.to_owned(), cause: None }
    }

    /// Wraps `self` as the cause of a new error with the same kind.
    pub fn context(self, message: &str) -> (e: AssetError)
        ensures
            e.kind == self.kind,
            e.message@ == message@,
            e.cause == Some(Box::new(ErrorCause::Asset(Box::new(self)))),
    {
        let kind = self.kind;
        AssetError {
            kind,
            message: message.to_owned(),
            cause: Some(Box::new(ErrorCause::Asset(Box::new(self)))),
        }
    }

    /// An error caused by a foreign failure, given by its rendered text.
    pub fn caused_by(kind: ErrorKind, message: &str, cause: &str) -> (e: AssetError)
        ensures
            e.kind == kind,
            e.message@ == message@,
            e.cause matches Some(c) && *c matches ErrorCause::External(t) && t@ == cause@,
    {
        AssetError {
            kind,
            message: message.to_owned(),
            cause: Some(Box::new(ErrorCause::External(cause.to_owned()))),
        }
    }

    /// The error a failed read or write of asset storage turns into.
    pub fn io(cause: &str) -> (e: AssetError)
        ensures
            e.kind == ErrorKind::Io,
            e.message@ == "asset I/O"@,
            e.cause matches Some(c) && *c matches ErrorCause::External(t) && t@ == cause@,
    {
        Self::caused_by(ErrorKind::Io, "asset I/O", cause)
    }

    /// The error malformed asset metadata turns into.
    pub fn metadata(cause: &str) -> (e: AssetError)
        ensures
            e.kind == ErrorKind::InvalidData,
            e.message@ == "asset metadata"@,
            e.cause matches Some(c) && *c matches ErrorCause::External(t) && t@ == cause@,
    {
        Self::caused_by(ErrorKind::InvalidData, "asset metadata", cause)
    }

    /// An equal copy of the error and its whole cause chain.
    pub fn duplicate(&self) -> (e: AssetError)
        ensures
            e == *self,
        decreases *self,
    {
        let cause = match &self.cause {
            None => None,
            Some(c) => Some(Box::new(match &**c {
                ErrorCause::Asset(inner) => ErrorCause::Asset(Box::new(inner.duplicate())),
                ErrorCause::External(t) => ErrorCause::External(t.clone()),
            })),
        };
        AssetError { kind: self.kind, message: self.message.clone(), cause }
    }

    /// The rendered text of the error and its causes.
    pub fn describe(&self) -> (s: String)
        ensures
            s@ == describe_error(*self),
        decreases *self,
    {
        let mut s = self.message.clone();
        match &self.cause {
            None => {},
            Some(cause) => {
                s.append(": ");
                match &**cause {
                    ErrorCause::Asset(inner) => {
                        let text = inner.describe();
                        s.append(text.as_str());
                    },
                    ErrorCause::External(text) => {
                        s.append(text.as_str());
                    },
                }
            },
        }
        s
    }
}

pub type Result<T> = core::result::Result<T, AssetError>;

} // verus!
