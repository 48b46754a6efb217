use vstd::prelude::*;

verus! {

/// Everything that can go wrong in a download task.
#[derive(Debug, Clone, PartialEq, Eq)]
pub enum Error {
    // Arguments
    InvalidPath(String),
    InvaildUri(String),
    InvalidHeader(String),
    NoFilename,
    NotFoundDirectory,
    FileExists,
    PathIsDirectory,
    IsNotNumber(String),
    UnsupportedTask(String),
    UnsupportedMethod(String),
    // I/O
    Io(String),
    UnexpectedEof,
    Timeout,
    // Network
    NetError(String),
    UncompletedRead,
    HeaderParseError(String),
    UrlParseError,
    NoContentLength,
    InvaildHeader(String),
    Unsuccess(u16),
    Redirect(String),
    NoLocation(String),
    // Protocol
    ContentLengthIsNotConsistent,
    M3U8ParseFail,
    PartsAreNotConsistent,
    // Crypto
    AES128DecryptFail,
    // Internal
    Bug(String),
    InnerError(String),
    // Torrent
    BitTorrentError(String),
}

} // verus!
