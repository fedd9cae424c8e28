//! The errors of the download manager.
use vstd::prelude::*;

verus! {

/// Everything that can make a download fail.
#[derive(Debug)]
pub enum Error {
    InvalidArguments,
    InvalidFilePath,
    InsufficientSpace,
    Network(reqwest::Error),
    InvalidUrl,
    UnsupportedDownloadUrl(String),
    TempNotFound,
    TerminalSize,
    File(std::io::Error),
    /// The server answered with this HTTP status code.
    NetworkStatus(u16),
    Channel,
    NoRangeSupport,
    /// The server kept answering "429 Too Many Requests".
    RateLimited,
}

} // verus!
