//! Errors of the prefix-postings build. Decoding failures are always fatal to
//! the operation; the caller aborts the surrounding transaction, so no
//! partially applied state is ever observable.

use vstd::prelude::*;

verus! {

/// Which database or stream held the malformed bytes.
#[derive(Clone, Copy, Debug, PartialEq, Eq, Structural)]
pub enum Source {
    /// The sorted change stream of word postings.
    ChangedPostings,
    /// The word-postings database.
    WordPostings,
    /// The prefix-postings database being maintained.
    PrefixPostings,
}

/// A fatal error of the build.
#[derive(Clone, Copy, Debug, PartialEq, Eq, Structural)]
pub enum Error {
    /// A stored key could not be decoded as `word ++ 0x00 ++ be16(position)`.
    Decoding(Source),
}

} // verus!
