use vstd::prelude::*;

verus! {

/// What went wrong while reading a file.
#[derive(Debug, Clone, Copy, PartialEq, Eq, Structural)]
pub enum ReadErrorKind {
    IO,
    Unsupported,
    BrokenFile,
}

/// What went wrong while writing a file.
#[derive(Debug, Clone, Copy, PartialEq, Eq, Structural)]
pub enum WriteErrorKind {
    IO,
    InvalidParams,
}

/// An error of a read operation: its kind and an optional message.
#[derive(Debug, Clone)]
pub struct ReadError {
    pub kind: ReadErrorKind,
    pub message: Option<&'static str>,
}

impl ReadError {
    pub fn new(kind: ReadErrorKind) -> (r: Self)
        ensures
            r.kind == kind,
            r.message is None,
    {
        ReadError { kind, message: None }
    }

    pub fn with_message(kind: ReadErrorKind, message: &'static str) -> (r: Self)
        ensures
            r.kind == kind,
            r.message == Some(message),
    {
        ReadError { kind, message: Some(message) }
    }

    pub fn kind(&self) -> (r: ReadErrorKind)
        ensures
            r == self.kind,
    {
        self.kind
    }

    pub fn message(&self) -> (r: Option<&'static str>)
        ensures
            r == self.message,
    {
        self.message
    }
}

/// An error of a write operation: its kind and an optional message.
#[derive(Debug, Clone)]
pub struct WriteError {
    pub kind: WriteErrorKind,
    pub message: Option<&'static str>,
}

impl WriteError {
    pub fn new(kind: WriteErrorKind) -> (r: Self)
        ensures
            r.kind == kind,
            r.message is None,
    {
        WriteError { kind, message: None }
    }

    pub fn with_message(kind: WriteErrorKind, message: &'static str) -> (r: Self)
        ensures
            r.kind == kind,
            r.message == Some(message),
    {
        WriteError { kind, message: Some(message) }
    }

    pub fn kind(&self) -> (r: WriteErrorKind)
        ensures
            r == self.kind,
    {
        self.kind
    }

    pub fn message(&self) -> (r: Option<&'static str>)
        ensures
            r == self.message,
    {
        self.message
    }
}

/// A header or format parameter is out of range.
#[derive(Debug, Clone)]
pub struct InvalidParams {
    pub message: Option<&'static str>,
}

impl InvalidParams {
    pub fn with_message(message: &'static str) -> (r: Self)
        ensures
            r.message == Some(message),
    {
        InvalidParams { message: Some(message) }
    }

    pub fn message(&self) -> (r: Option<&'static str>)
        ensures
            r == self.message,
    {
        self.message
    }

    /// The write error that an invalid parameter becomes.
    pub fn into_write_error(self) -> (r: WriteError)
        ensures
            r.kind == WriteErrorKind::InvalidParams,
            r.message == self.message,
    {
        WriteError { kind: WriteErrorKind::InvalidParams, message: self.message }
    }
}

/// A date that does not have the form `YYYY-MM-DD`.
#[derive(Debug, Clone)]
pub struct IllegalDate {
    pub message: Option<&'static str>,
}

impl IllegalDate {
    pub fn with_message(message: &'static str) -> (r: Self)
        ensures
            r.message == Some(message),
    {
        IllegalDate { message: Some(message) }
    }
}

/// A META record key outside the known set.
#[derive(Debug, Clone)]
pub struct IllegalMetaKey {
    pub key: u8,
    pub message: Option<&'static str>,
}

impl IllegalMetaKey {
    pub fn with_message(key: u8, message: &'static str) -> (r: Self)
        ensures
            r.key == key,
            r.message == Some(message),
    {
        IllegalMetaKey { key, message: Some(message) }
    }

    pub fn key(&self) -> (r: u8)
        ensures
            r == self.key,
    {
        self.key
    }
}

} // verus!
