use vstd::prelude::*;

verus! {

pub type Permissions = u16;

pub const BLOCK_DEVICE_PREAMBLE: &'static str = "BLOCK_DEVICE_PREAMBLE";

pub const HEADER_TAIL: &'static str = "HEADER_END";

/// Bytes held by one data block.
pub const BLOCK_CAPACITY: usize = 1024 * 8;

pub const MAX_PROCESS_CAPACITY: usize = BLOCK_CAPACITY;

/// Bytes moved by one buffered read; a multiple of `BLOCK_CAPACITY`.
pub const BUFFERED_IO_LIMIT: usize = BLOCK_CAPACITY * 64;

/// A buffered read covers whole blocks.
pub proof fn lemma_buffered_limit_is_whole_blocks()
    ensures
        BUFFERED_IO_LIMIT % BLOCK_CAPACITY == 0,
        BUFFERED_IO_LIMIT / BLOCK_CAPACITY == 64,
{
}

pub const READ_TO_STRING_LIMIT: usize = 16 * 1024;

/// Bytes reserved for the header at the start of the image.
pub const HEADER_SIZE: usize = 1024;

#[derive(Debug)]
pub enum Error {
    InvalidPreamble(String),
    InvalidStringBuffer(String),
    EmptyPath(String),
    InvalidPath(String),
    InvalidDirective(String),
    BadDeser(String),
    Unreachable(String),
    FileOps(String),
    BadCall(String),
}

/// The variant of an `Error`, without its text.
#[derive(PartialEq, Eq, Structural, Clone, Copy, Debug)]
pub enum ErrorKind {
    InvalidPreamble,
    InvalidStringBuffer,
    EmptyPath,
    InvalidPath,
    InvalidDirective,
    BadDeser,
    Unreachable,
    FileOps,
    BadCall,
}

impl Error {
    pub open spec fn kind(&self) -> ErrorKind {
        match self {
            Error::InvalidPreamble(_) => ErrorKind::InvalidPreamble,
            Error::InvalidStringBuffer(_) => ErrorKind::InvalidStringBuffer,
            Error::EmptyPath(_) => ErrorKind::EmptyPath,
            Error::InvalidPath(_) => ErrorKind::InvalidPath,
            Error::InvalidDirective(_) => ErrorKind::InvalidDirective,
            Error::BadDeser(_) => ErrorKind::BadDeser,
            Error::Unreachable(_) => ErrorKind::Unreachable,
            Error::FileOps(_) => ErrorKind::FileOps,
            Error::BadCall(_) => ErrorKind::BadCall,
        }
    }

    /// The text that the error carries.
    pub open spec fn text(&self) -> Seq<char> {
        match self {
            Error::InvalidPreamble(e) => e@,
            Error::InvalidStringBuffer(e) => e@,
            Error::EmptyPath(e) => e@,
            Error::InvalidPath(e) => e@,
            Error::InvalidDirective(e) => e@,
            Error::BadDeser(e) => e@,
            Error::Unreachable(e) => e@,
            Error::FileOps(e) => e@,
            Error::BadCall(e) => e@,
        }
    }

    /// The heading that `message` puts before the error's text.
    pub open spec fn heading(kind: ErrorKind) -> Seq<char> {
        match kind {
            ErrorKind::InvalidPreamble => "Invalid preamble: "@,
            ErrorKind::InvalidStringBuffer => "Invalid string buffer: "@,
            ErrorKind::EmptyPath => "Empty path: "@,
            ErrorKind::InvalidPath => "Invalid path: "@,
            ErrorKind::InvalidDirective => "Invalid directive: "@,
            ErrorKind::BadDeser => "Deserialization error: "@,
            ErrorKind::Unreachable => "Encountered unreachable code: "@,
            ErrorKind::FileOps => "File operation error: "@,
            ErrorKind::BadCall => "Bad call: "@,
        }
    }

    /// The human-readable form of the error: a heading for its kind, then its text.
    pub fn message(&self) -> (res: String)
        ensures
            res@ == Self::heading(self.kind()) + self.text(),
    {
        let (head, e): (&str, &String) = match self {
            Error::InvalidPreamble(e) => ("Invalid preamble: ", e),
            Error::InvalidStringBuffer(e) => ("Invalid string buffer: ", e),
            Error::EmptyPath(e) => ("Empty path: ", e),
            Error::InvalidPath(e) => ("Invalid path: ", e),
            Error::InvalidDirective(e) => ("Invalid directive: ", e),
            Error::BadDeser(e) => ("Deserialization error: ", e),
            Error::Unreachable(e) => ("Encountered unreachable code: ", e),
            Error::FileOps(e) => ("File operation error: ", e),
            Error::BadCall(e) => ("Bad call: ", e),
        };
        let res = head.to_owned().concat(e.as_str());
        res
    }
}

} // verus!
