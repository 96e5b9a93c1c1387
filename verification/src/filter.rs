//! The filter service: one live index, and the steps by which it is loaded
//! at startup and replaced by a rebuild.
//!
//! The service reads and writes no file. Its host reads the index file and
//! the dictionary, writes the record of a rebuilt index, and tells the
//! service what came of each; the service decides what follows. A rebuild
//! prepares the new index apart from the live one, which it replaces as a
//! whole, and only once the record has been written.

use vstd::prelude::*;
use vstd::string::StringSliceAdditionalSpecFns;
use vstd::utf8::encode_utf8;
use crate::ac::{automaton_fits, buildable, load_outcome, reports, AcMachine};
use crate::dictionary::{dictionary_words, parse_dictionary};
use crate::error::{FileRead, FilterError};
use crate::mask::{masked, ranges};
use crate::record::is_record;
use crate::scan::Span;
use crate::words::utf8_words;

verus! {

/// What startup does next.
#[derive(Clone, Copy, Debug, PartialEq, Eq, Structural)]
pub enum Startup {
    /// The persisted index is live: the service is ready.
    Ready,
    /// There is no usable persisted index: the index has to be rebuilt from
    /// the dictionary.
    Rebuild,
}

/// What a rebuild comes to, given what came of reading the dictionary: the
/// new word list, or why there is none.
pub open spec fn rebuild_outcome(dictionary: FileRead<String>) -> Result<
    Seq<Seq<char>>,
    FilterError,
> {
    match dictionary {
        FileRead::Missing => Err(FilterError::NotFound),
        FileRead::Failed => Err(FilterError::Io),
        FileRead::Contents(text) => {
            let words = dictionary_words(text@);
            if words.len() == 0 {
                Err(FilterError::EmptyDictionary)
            } else if !automaton_fits(utf8_words(words)) {
                Err(FilterError::NotBuilt)
            } else {
                Ok(words)
            }
        },
    }
}

/// The words that `spans` stand for, one for each span.
pub open spec fn words_found(spans: Seq<Span>, words: Seq<Seq<char>>) -> Seq<Seq<char>> {
    Seq::new(spans.len(), |i: int| words[spans[i].word])
}

/// An index that a rebuild has prepared, and the record that persists it.
/// It becomes the live index once the record has been written.
pub struct Rebuilt {
    machine: AcMachine,
    record: Vec<u8>,
}

impl Rebuilt {
    #[verifier::type_invariant]
    spec fn persists(self) -> bool {
        &&& self.machine.built()
        &&& is_record(self.record@, self.machine.words())
    }

    /// The prepared index.
    pub closed spec fn index(&self) -> AcMachine {
        self.machine
    }

    /// The bytes of the record.
    pub closed spec fn record_bytes(&self) -> Seq<u8> {
        self.record@
    }

    /// The record for the host to write to the index file.
    pub fn record(&self) -> (bytes: &Vec<u8>)
        ensures
            bytes@ == self.record_bytes(),
            is_record(bytes@, self.index().words()),
    {
        proof {
            use_type_invariant(self);
        }
        &self.record
    }
}

/// The service: it owns the one live index.
pub struct SensitiveFilter {
    machine: AcMachine,
}

impl SensitiveFilter {
    /// The live index.
    pub closed spec fn index(&self) -> AcMachine {
        self.machine
    }

    /// A service that has not been initialized: its index holds no word and
    /// no matcher.
    pub fn new() -> (service: Self)
        ensures
            service.index().words() == Seq::<Seq<char>>::empty(),
            !service.index().built(),
    {
        SensitiveFilter { machine: AcMachine::new() }
    }

    /// Whether the live index holds a matcher. Where it holds none, `filter`
    /// hands every text back as it is and `find_sensitive_words` finds
    /// nothing.
    pub fn is_built(&self) -> (built: bool)
        ensures
            built == self.index().built(),
    {
        self.machine.is_built()
    }

    /// Startup, given what came of reading the index file. Where the file
    /// holds a record, the index that it restores becomes the live one and
    /// the service is ready. In every other case, a missing file among
    /// them, the live index stays and the index has to be rebuilt.
    pub fn init(&mut self, index_file: FileRead<Vec<u8>>) -> (next: Startup)
        ensures
            match load_outcome(index_file) {
                Ok(words) => {
                    &&& next == Startup::Ready
                    &&& final(self).index().words() == words
                    &&& final(self).index().built() == buildable(words)
                },
                Err(_) => next == Startup::Rebuild && final(self).index() == old(self).index(),
            },
    {
        match AcMachine::load_from_file(index_file) {
            Ok(machine) => {
                self.machine = machine;
                Startup::Ready
            },
            Err(_) => Startup::Rebuild,
        }
    }

    /// The first half of a rebuild, given what came of reading the
    /// dictionary: the new index, compiled from the dictionary's words, and
    /// its record. The live index has no part in it.
    ///
    /// It fails where the dictionary is missing (`NotFound`) or could not be
    /// read (`Io`), where it holds no word (`EmptyDictionary`), and where its
    /// words exceed a limit of the matcher (`NotBuilt`).
    pub fn rebuild_index(dictionary: FileRead<String>) -> (prepared: Result<Rebuilt, FilterError>)
        ensures
            match rebuild_outcome(dictionary) {
                Ok(words) => {
                    &&& prepared matches Ok(rebuilt)
                    &&& rebuilt.index().words() == words
                    &&& rebuilt.index().built()
                    &&& is_record(rebuilt.record_bytes(), words)
                },
                Err(error) => prepared matches Err(other) && other == error,
            },
    {
        let text = match dictionary {
            FileRead::Missing => { return Err(FilterError::NotFound); },
            FileRead::Failed => { return Err(FilterError::Io); },
            FileRead::Contents(text) => text,
        };
        let words = parse_dictionary(text.as_str());
        if words.len() == 0 {
            return Err(FilterError::EmptyDictionary);
        }
        let machine = match AcMachine::from_words(words).usable() {
            Ok(machine) => machine,
            Err(error) => { return Err(error); },
        };
        let record = machine.save_to_file();
        Ok(Rebuilt { machine, record })
    }

    /// The second half of a rebuild, given whether the record was written.
    /// Where it was, the prepared index replaces the live one as a whole.
    /// Where it was not, the live index stays as it is and the rebuild
    /// fails with `Io`.
    pub fn install(&mut self, rebuilt: Rebuilt, persisted: bool) -> (done: Result<(), FilterError>)
        ensures
            persisted ==> done is Ok && final(self).index() == rebuilt.index(),
            !persisted ==> done == Err::<(), FilterError>(FilterError::Io) && final(self).index()
                == old(self).index(),
    {
        if persisted {
            self.machine = rebuilt.machine;
            Ok(())
        } else {
            Err(FilterError::Io)
        }
    }

    /// `text` with every match of the live index masked: see
    /// `AcMachine::filter_text`.
    pub fn filter(&self, text: &str) -> (filtered: String)
        ensures
            encode_utf8(filtered@) == masked(
                text.spec_bytes(),
                ranges(self.index().matches_in(text@)),
            ),
            encode_utf8(filtered@).len() == text.spec_bytes().len(),
            self.index().matches_in(text@).len() == 0 ==> filtered@ == text@,
    {
        self.machine.filter_text(text)
    }

    /// The words that the live index finds in `text`, in the order of their
    /// matches; a word that occurs twice comes twice.
    pub fn find_sensitive_words(&self, text: &str) -> (found: Vec<String>)
        ensures
            found@.len() == self.index().matches_in(text@).len(),
            found.deep_view() == words_found(
                self.index().matches_in(text@),
                self.index().words(),
            ),
    {
        let matches = self.machine.find_matches(text);
        let ghost spans = self.index().matches_in(text@);
        let ghost words = self.index().words();
        let mut found: Vec<String> = Vec::new();
        let mut i: usize = 0;
        while i < matches.len()
            invariant
                i <= matches.len(),
                reports(matches@, spans, words),
                found.deep_view() == words_found(spans, words).take(i as int),
            decreases matches.len() - i,
        {
            let word = matches[i].2.to_owned();
            let ghost before = found.deep_view();
            found.push(word);
            proof {
                assert(found.deep_view() =~= before.push(word@));
                assert(found.deep_view() =~= words_found(spans, words).take(i + 1));
            }
            i += 1;
        }
        proof {
            assert(found.deep_view() =~= words_found(spans, words));
        }
        found
    }
}

} // verus!
