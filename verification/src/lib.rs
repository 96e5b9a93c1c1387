//! Detection and masking of a configured list of sensitive words.
//!
//! An index (`ac`) holds a word list and the matcher compiled from it. It
//! finds the occurrences of its words in a text by one leftmost-first scan
//! (`scan`) and masks them with asterisks (`mask`). Its word list is
//! persisted as a record (`record`) and rebuilt from a dictionary text
//! (`dictionary`). The service (`filter`) owns the one live index and
//! decides how it is loaded and replaced; the files themselves are read and
//! written by its host. What holds of all of this is stated in `laws`.

pub mod scan;
pub mod words;
pub mod boundary;
pub mod mask;
pub mod error;
pub mod record;
pub mod dictionary;
pub mod ac;
pub mod filter;
pub mod laws;
