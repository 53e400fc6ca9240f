use vstd::prelude::*;

verus! {

/// The error taxonomy of the pagination core and the write path.
#[derive(Debug, PartialEq, Eq)]
pub enum CategoryError {
    /// Neither a cursor nor an index selector was supplied: a caller error.
    MissingPaginationIndex,
    /// The cursor token could not be decoded, or its timestamp could not be
    /// parsed: a caller error.
    InvalidCursor,
    /// A range scan, count query or write failed at the store. The payload
    /// carries the store's own message.
    StorageError(String),
    /// The row aggregator produced no entity where one was required.
    AmbiguousAggregation,
    /// A write would duplicate an identifier that the store keeps unique.
    UniqueConstraintViolation,
    /// An incoming write carried a reference that is not a valid URL.
    InvalidUrl,
}

impl CategoryError {
    /// True for errors caused by the caller's input, as opposed to store or
    /// internal failures.
    pub fn is_caller_error(&self) -> (r: bool)
        ensures
            r == (self is MissingPaginationIndex || self is InvalidCursor
                || self is InvalidUrl || self is UniqueConstraintViolation),
    {
        match self {
            CategoryError::MissingPaginationIndex => true,
            CategoryError::InvalidCursor => true,
            CategoryError::InvalidUrl => true,
            CategoryError::UniqueConstraintViolation => true,
            CategoryError::StorageError(_) => false,
            CategoryError::AmbiguousAggregation => false,
        }
    }
}

} // verus!
