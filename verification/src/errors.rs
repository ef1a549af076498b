use vstd::prelude::*;

verus! {

/// The failure modes of the library's grid construction and path search.
#[derive(Debug, PartialEq, Eq, Clone, Copy, Structural)]
pub enum SearchError {
    /// A grid line contained a character other than an ASCII digit.
    ParseError,
    /// Grid rows were not all the same length, or the grid was empty.
    InvalidDimensions,
    /// A position lookup fell outside the grid bounds.
    OutOfBounds,
    /// The frontier was exhausted without satisfying the goal condition.
    NoPathFound,
}

impl SearchError {
    /// A short human-readable name for the error.
    pub fn describe(&self) -> (r: &'static str)
        ensures
            r@ == match self {
                SearchError::ParseError => "grid line holds a non-digit character"@,
                SearchError::InvalidDimensions => "grid rows differ in length or grid is empty"@,
                SearchError::OutOfBounds => "position lookup outside grid bounds"@,
                SearchError::NoPathFound => "no route satisfies the movement rules"@,
            },
    {
        match self {
            SearchError::ParseError => "grid line holds a non-digit character",
            SearchError::InvalidDimensions => "grid rows differ in length or grid is empty",
            SearchError::OutOfBounds => "position lookup outside grid bounds",
            SearchError::NoPathFound => "no route satisfies the movement rules",
        }
    }
}

} // verus!
