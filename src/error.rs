use vstd::prelude::*;

verus! {

/// Every failure the library reports.
#[derive(Debug, Clone, PartialEq, Eq)]
pub enum Error {
    /// A remote exchange call failed; the message comes from the transport.
    Transport(String),
    /// The key-value store failed.
    Database(String),
    /// A value could not be encoded or decoded.
    Encoding(String),
    /// A required environment variable is absent.
    MissingEnviron(String),
    /// No exchange is registered under this name.
    ExchangeNotFound(String),
    /// A lookup or a range found nothing.
    NoData,
    /// The market catalog does not hold the pair.
    PairNotLoaded,
    /// Program or argument text is malformed; the range is in characters.
    Parsing(String, usize, usize),
    /// No enclosing scope binds the name.
    ReferenceNotFound(String),
    /// The scope id is not allocated.
    ScoopNotFound(usize),
    /// A decimal number could not be read.
    ParseInt,
    /// The minute count is not one of the sampling periods.
    InvalidInterval(i64),
    /// Command-line arguments were rejected.
    Arguments(String),
}

} // verus!
