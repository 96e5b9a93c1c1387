//! What the host reports of a file, and the ways in which loading and
//! rebuilding an index fail.

use vstd::prelude::*;

verus! {

/// What came of reading a file.
pub enum FileRead<T> {
    /// There is no such file.
    Missing,
    /// The file is there and could not be read.
    Failed,
    /// What the file holds.
    Contents(T),
}

/// Why an index could not be loaded or rebuilt.
#[derive(Clone, Copy, Debug, PartialEq, Eq, Structural)]
pub enum FilterError {
    /// The dictionary or the index file is missing.
    NotFound,
    /// The dictionary holds no word.
    EmptyDictionary,
    /// The persisted bytes are no record of a word list.
    Decode,
    /// A file could not be read or written.
    Io,
    /// The word list exceeds a limit of the matcher, which could not be
    /// compiled.
    NotBuilt,
}

/// What a failure is called in messages.
pub open spec fn message_of(error: FilterError) -> Seq<char> {
    match error {
        FilterError::NotFound => "Dictionary or index file not found"@,
        FilterError::EmptyDictionary => "No words found in dictionary file"@,
        FilterError::Decode => "Persisted index is malformed"@,
        FilterError::Io => "File could not be read or written"@,
        FilterError::NotBuilt => "Word list exceeds the limits of the matcher"@,
    }
}

impl FilterError {
    /// What the failure is called in messages.
    pub fn message(&self) -> (text: &'static str)
        ensures
            text@ == message_of(*self),
    {
        match self {
            FilterError::NotFound => "Dictionary or index file not found",
            FilterError::EmptyDictionary => "No words found in dictionary file",
            FilterError::Decode => "Persisted index is malformed",
            FilterError::Io => "File could not be read or written",
            FilterError::NotBuilt => "Word list exceeds the limits of the matcher",
        }
    }
}

} // verus!
