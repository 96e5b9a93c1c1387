//! The index of sensitive words: the word list and the matcher compiled
//! from it.

use vstd::prelude::*;
use vstd::string::{StringExecFns, StringSliceAdditionalSpecFns};
use vstd::utf8::{
    encode_utf8, encode_utf8_decode_utf8, encode_utf8_valid_utf8, is_ascii_chars,
    is_ascii_chars_encode_utf8, is_char_boundary,
};
use crate::boundary::lemma_occurrence_at_boundaries;
use aho_corasick::{AhoCorasick, MatchKind};
use crate::error::{FileRead, FilterError};
use crate::mask::{
    lemma_mask_one_more, lemma_masked_none, lemma_range_at_boundaries, masked, ordered, ranges,
    stars,
};
use crate::scan::{
    all_nonempty, is_scan, is_step, lemma_scan_is, lemma_scan_ordered, lemma_span_bounds, scan,
    Span,
};
use crate::record::{decode_record, encode_record, is_record, restored};
use crate::words::{lemma_utf8_words, no_empty_word, utf8_words};

verus! {

/// The matcher of the `aho_corasick` crate. What is inside it is not read
/// here: the two names below say what it was compiled from.
#[verifier::external_type_specification]
#[verifier::external_body]
pub struct ExAhoCorasick(AhoCorasick);

/// The patterns that a matcher was compiled from, in the order in which they
/// were given.
pub uninterp spec fn automaton_patterns(automaton: AhoCorasick) -> Seq<Seq<u8>>;

/// Whether a matcher was compiled for leftmost-first matching, everything
/// else left as the crate's builder sets it.
pub uninterp spec fn automaton_leftmost_first(automaton: AhoCorasick) -> bool;

/// Whether the `aho_corasick` crate compiles a matcher from these patterns.
/// It refuses where one of its limits is exceeded: the number of patterns,
/// the length of a pattern, or the number of states.
pub uninterp spec fn automaton_fits(patterns: Seq<Seq<u8>>) -> bool;

/// Whether a matcher is compiled from this word list: the list holds a word,
/// and the matcher's limits admit it.
pub open spec fn buildable(words: Seq<Seq<char>>) -> bool {
    words.len() > 0 && automaton_fits(utf8_words(words))
}

/// The spans that the raw triples of a search stand for.
pub open spec fn spans_of(found: Seq<(usize, usize, usize)>) -> Seq<Span> {
    Seq::new(
        found.len(),
        |i: int| Span { start: found[i].0 as int, end: found[i].1 as int, word: found[i].2 as int },
    )
}

/// `AhoCorasickBuilder::build`, on a builder set to `MatchKind::LeftmostFirst`
/// and otherwise untouched. It returns a matcher unless a limit of the crate
/// is exceeded; the matcher stands for the words' bytes in the order given.
#[verifier::external_body]
fn compile(words: &Vec<String>) -> (compiled: Option<AhoCorasick>)
    ensures
        compiled is Some <==> automaton_fits(utf8_words(words.deep_view())),
        compiled matches Some(automaton) ==> {
            &&& automaton_leftmost_first(automaton)
            &&& automaton_patterns(automaton) == utf8_words(words.deep_view())
        },
{
    AhoCorasick::builder().match_kind(MatchKind::LeftmostFirst).build(words).ok()
}

/// `AhoCorasick::find_iter`, collected. On a leftmost-first matcher it
/// yields the non-overlapping matches from left to right: each is the
/// earliest occurrence of a pattern at or after the end of the match before
/// it, and where several patterns occur at that offset, the one given first.
/// Each triple holds the start, the end and the pattern's ordinal.
///
/// Patterns are taken to be non-empty: for an empty match the crate has
/// rules of its own.
#[verifier::external_body]
fn find_all(automaton: &AhoCorasick, text: &str) -> (found: Vec<(usize, usize, usize)>)
    requires
        automaton_leftmost_first(*automaton),
        all_nonempty(automaton_patterns(*automaton)),
    ensures
        is_scan(automaton_patterns(*automaton), text.spec_bytes(), spans_of(found@)),
{
    automaton.find_iter(text).map(|m| (m.start(), m.end(), m.pattern().as_usize())).collect()
}

/// `String::replace_range`: the bytes from `start` to `end` leave and those
/// of `with` take their place. Both offsets lie between two characters.
#[verifier::external_body]
fn replace_range(target: &mut String, start: usize, end: usize, with: &str)
    requires
        start <= end <= encode_utf8(old(target)@).len(),
        is_char_boundary(encode_utf8(old(target)@), start as int),
        is_char_boundary(encode_utf8(old(target)@), end as int),
    ensures
        encode_utf8(final(target)@) == encode_utf8(old(target)@).subrange(0, start as int)
            + with.spec_bytes() + encode_utf8(old(target)@).subrange(
            end as int,
            encode_utf8(old(target)@).len() as int,
        ),
{
    target.replace_range(start..end, with)
}

/// What came of compiling the matcher.
#[derive(Clone, Copy, Debug, PartialEq, Eq, Structural)]
pub enum BuildOutcome {
    /// The matcher stands.
    Built,
    /// The word list is empty: there is nothing to compile. Not a fault; the
    /// index answers as one that finds nothing.
    NoWords,
    /// The word list exceeds a limit of the matcher. The index answers as
    /// one that finds nothing.
    Refused,
}

/// What `build` reports for a word list.
pub open spec fn build_outcome(words: Seq<Seq<char>>) -> BuildOutcome {
    if words.len() == 0 {
        BuildOutcome::NoWords
    } else if automaton_fits(utf8_words(words)) {
        BuildOutcome::Built
    } else {
        BuildOutcome::Refused
    }
}

/// What loading an index from a file comes to: the word list that the
/// file's bytes are the record of, or why there is none.
pub open spec fn load_outcome(contents: FileRead<Vec<u8>>) -> Result<Seq<Seq<char>>, FilterError> {
    match contents {
        FileRead::Missing => Err(FilterError::NotFound),
        FileRead::Failed => Err(FilterError::Io),
        FileRead::Contents(bytes) => match restored(bytes@) {
            None => Err(FilterError::Decode),
            Some(words) => if words.len() > 0 && !automaton_fits(utf8_words(words)) {
                Err(FilterError::NotBuilt)
            } else {
                Ok(words)
            },
        },
    }
}

/// Whether `found` reports `spans`: the same offsets, and for each span the
/// word of that ordinal.
pub open spec fn reports(
    found: Seq<(usize, usize, &str)>,
    spans: Seq<Span>,
    words: Seq<Seq<char>>,
) -> bool {
    &&& found.len() == spans.len()
    &&& forall|i: int|
        0 <= i < found.len() ==> {
            &&& (#[trigger] found[i]).0 == spans[i].start
            &&& found[i].1 == spans[i].end
            &&& found[i].2@ == words[spans[i].word]
        }
}

/// Whether `found` is a list of matches in `text`: each spans the bytes of its
/// word, which is not empty, and they come from left to right without
/// overlap.
pub open spec fn are_matches(found: Seq<(usize, usize, &str)>, text: Seq<u8>) -> bool {
    &&& forall|i: int|
        0 <= i < found.len() ==> {
            &&& (#[trigger] found[i]).0 < found[i].1 <= text.len()
            &&& text.subrange(found[i].0 as int, found[i].1 as int) == encode_utf8(found[i].2@)
        }
    &&& forall|i: int, j: int|
        0 <= i < j < found.len() ==> (#[trigger] found[i]).1 <= (#[trigger] found[j]).0
}

/// The byte ranges of matches: for each its start and its end.
pub open spec fn ranges_found(found: Seq<(usize, usize, &str)>) -> Seq<(int, int)> {
    Seq::new(found.len(), |i: int| (found[i].0 as int, found[i].1 as int))
}

/// The matches that raw triples stand for: each with the word of its
/// ordinal, in place of the ordinal.
pub fn label_matches<'a>(words: &'a Vec<String>, raw: &Vec<(usize, usize, usize)>) -> (found: Vec<
    (usize, usize, &'a str),
>)
    requires
        forall|i: int| 0 <= i < raw@.len() ==> (#[trigger] raw@[i]).2 < words@.len(),
    ensures
        reports(found@, spans_of(raw@), words.deep_view()),
{
    let mut found: Vec<(usize, usize, &'a str)> = Vec::new();
    let mut i: usize = 0;
    while i < raw.len()
        invariant
            i <= raw.len(),
            forall|i: int| 0 <= i < raw@.len() ==> (#[trigger] raw@[i]).2 < words@.len(),
            reports(found@, spans_of(raw@).take(i as int), words.deep_view()),
        decreases raw.len() - i,
    {
        let (start, end, word) = raw[i];
        found.push((start, end, words[word].as_str()));
        i += 1;
    }
    assert(spans_of(raw@).take(i as int) =~= spans_of(raw@));
    found
}

/// A copy of `text` in which an asterisk stands for every byte of every
/// match; the rest, and the length in bytes, stay. The matches are replaced
/// from the last to the first, so that the offsets of those still to come
/// stay good.
pub fn mask_matches(text: &str, found: &Vec<(usize, usize, &str)>) -> (filtered: String)
    requires
        are_matches(found@, text.spec_bytes()),
    ensures
        encode_utf8(filtered@) == masked(text.spec_bytes(), ranges_found(found@)),
        encode_utf8(filtered@).len() == text.spec_bytes().len(),
        found@.len() == 0 ==> filtered@ == text@,
{
    let ghost bytes = text.spec_bytes();
    let ghost spots = ranges_found(found@);
    let mut filtered: String = text.to_owned();
    let mut k: usize = found.len();
    proof {
        lemma_masked_none(bytes);
        assert(spots.subrange(k as int, k as int) =~= Seq::<(int, int)>::empty());
    }
    while k > 0
        invariant
            k <= found.len(),
            bytes == text.spec_bytes(),
            spots == ranges_found(found@),
            are_matches(found@, bytes),
            ordered(spots, bytes.len() as int),
            encode_utf8(filtered@) == masked(bytes, spots.subrange(k as int, found.len() as int)),
        decreases k,
    {
        k -= 1;
        let (start, end, word) = found[k];
        proof {
            broadcast use encode_utf8_valid_utf8;

            assert(spots[k as int] == (start as int, end as int));
            lemma_occurrence_at_boundaries(encode_utf8(word@), bytes, start as int);
            lemma_mask_one_more(bytes, spots, k as int);
            lemma_range_at_boundaries(bytes, spots, k as int, encode_utf8(filtered@));
        }
        let mask = asterisks(end - start);
        replace_range(&mut filtered, start, end, mask.as_str());
    }
    proof {
        assert(spots.subrange(0, found.len() as int) =~= spots);
        if found@.len() == 0 {
            assert(spots =~= Seq::<(int, int)>::empty());
            encode_utf8_decode_utf8(filtered@);
            encode_utf8_decode_utf8(text@);
        }
    }
    filtered
}

/// A list of sensitive words, none of them empty, and the matcher compiled
/// from it. The matcher is absent until `build` has compiled it; while it is
/// absent the index finds nothing and masks nothing. A matcher that is
/// present stands for exactly the words of the list, in their order.
pub struct AcMachine {
    words: Vec<String>,
    ac: Option<AhoCorasick>,
}

impl AcMachine {
    #[verifier::type_invariant]
    spec fn consistent(self) -> bool {
        &&& no_empty_word(self.words.deep_view())
        &&& self.ac matches Some(automaton) ==> {
            &&& buildable(self.words.deep_view())
            &&& automaton_leftmost_first(automaton)
            &&& automaton_patterns(automaton) == utf8_words(self.words.deep_view())
        }
    }

    /// The word list, in its order.
    pub closed spec fn words(&self) -> Seq<Seq<char>> {
        self.words.deep_view()
    }

    /// Whether the matcher is present.
    pub closed spec fn built(&self) -> bool {
        self.ac is Some
    }

    /// The matches that the index finds in `text`: its leftmost-first scan
    /// where the matcher is present, none where it is absent.
    pub open spec fn matches_in(&self, text: Seq<char>) -> Seq<Span> {
        if self.built() {
            scan(utf8_words(self.words()), encode_utf8(text))
        } else {
            Seq::empty()
        }
    }

    /// An index with no word and no matcher.
    pub fn new() -> (machine: Self)
        ensures
            machine.words() == Seq::<Seq<char>>::empty(),
            !machine.built(),
    {
        let machine = AcMachine { words: Vec::new(), ac: None };
        assert(machine.words.deep_view() =~= Seq::<Seq<char>>::empty());
        machine
    }

    /// The index of `words`, without a matcher.
    pub fn with_words(words: Vec<String>) -> (machine: Self)
        requires
            no_empty_word(words.deep_view()),
        ensures
            machine.words() == words.deep_view(),
            !machine.built(),
    {
        AcMachine { words, ac: None }
    }

    /// The index of `words`, with its matcher compiled where `buildable`.
    pub fn from_words(words: Vec<String>) -> (machine: Self)
        requires
            no_empty_word(words.deep_view()),
        ensures
            machine.words() == words.deep_view(),
            machine.built() == buildable(words.deep_view()),
    {
        let mut machine = AcMachine::with_words(words);
        machine.build();
        machine
    }

    /// The index itself, where it can serve: where it has its matcher, or
    /// holds no word to compile one from. `NotBuilt` where it holds words
    /// and no matcher.
    pub fn usable(self) -> (checked: Result<Self, FilterError>)
        ensures
            self.built() || self.words().len() == 0 ==> checked == Ok::<Self, FilterError>(self),
            !self.built() && self.words().len() > 0 ==> (checked matches Err(error) && error
                == FilterError::NotBuilt),
    {
        if self.ac.is_some() || self.words.len() == 0 {
            Ok(self)
        } else {
            Err(FilterError::NotBuilt)
        }
    }

    /// Compiles the matcher from the word list, which stays as it is.
    pub fn build(&mut self) -> (outcome: BuildOutcome)
        ensures
            final(self).words() == old(self).words(),
            final(self).built() == buildable(old(self).words()),
            outcome == build_outcome(old(self).words()),
    {
        proof {
            use_type_invariant(&*self);
        }
        if self.words.len() == 0 {
            return BuildOutcome::NoWords;
        }
        let compiled = compile(&self.words);
        let outcome = if compiled.is_some() {
            BuildOutcome::Built
        } else {
            BuildOutcome::Refused
        };
        self.ac = compiled;
        outcome
    }

    /// Whether the matcher is present. While it is absent, `find_matches`
    /// finds nothing and `filter_text` hands the text back.
    pub fn is_built(&self) -> (built: bool)
        ensures
            built == self.built(),
    {
        self.ac.is_some()
    }

    /// The word list, in its order.
    pub fn word_list(&self) -> (list: &Vec<String>)
        ensures
            list.deep_view() == self.words(),
    {
        &self.words
    }

    /// The record that persists this index: its word list, and nothing of
    /// the matcher. The host writes these bytes to the index file.
    pub fn save_to_file(&self) -> (record: Vec<u8>)
        ensures
            is_record(record@, self.words()),
    {
        proof {
            use_type_invariant(self);
        }
        encode_record(&self.words)
    }

    /// The index that an index file holds, given what came of reading the
    /// file: the word list of the record, with the matcher compiled anew.
    /// A record of no words gives an index without a matcher.
    pub fn load_from_file(contents: FileRead<Vec<u8>>) -> (loaded: Result<Self, FilterError>)
        ensures
            match load_outcome(contents) {
                Ok(words) => loaded matches Ok(machine) && machine.words() == words
                    && machine.built() == buildable(words),
                Err(error) => loaded matches Err(other) && other == error,
            },
    {
        let bytes = match contents {
            FileRead::Missing => { return Err(FilterError::NotFound); },
            FileRead::Failed => { return Err(FilterError::Io); },
            FileRead::Contents(bytes) => bytes,
        };
        let words = match decode_record(bytes.as_slice()) {
            None => { return Err(FilterError::Decode); },
            Some(words) => words,
        };
        AcMachine::from_words(words).usable()
    }

    /// The matches in `text`, from left to right: for each the byte offsets
    /// where it starts and ends, and the word found there. None where the
    /// matcher is absent.
    pub fn find_matches<'a>(&'a self, text: &str) -> (found: Vec<(usize, usize, &'a str)>)
        ensures
            reports(found@, self.matches_in(text@), self.words()),
            are_matches(found@, text.spec_bytes()),
            !self.built() ==> found@.len() == 0,
    {
        proof {
            use_type_invariant(self);
        }
        match &self.ac {
            None => Vec::new(),
            Some(automaton) => {
                let ghost patterns = utf8_words(self.words());
                let ghost bytes = text.spec_bytes();
                proof {
                    lemma_utf8_words(self.words());
                }
                let raw = find_all(automaton, text);
                let ghost spans = spans_of(raw@);
                proof {
                    lemma_scan_is(patterns, bytes, spans);
                    assert forall|i: int| 0 <= i < raw@.len() implies (#[trigger] raw@[i]).2
                        < self.words@.len() by {
                        assert(is_step(patterns, bytes, spans, i));
                    }
                }
                let found = label_matches(&self.words, &raw);
                proof {
                    assert forall|i: int| 0 <= i < found@.len() implies {
                        &&& (#[trigger] found@[i]).0 < found@[i].1 <= bytes.len()
                        &&& bytes.subrange(found@[i].0 as int, found@[i].1 as int) == encode_utf8(
                            found@[i].2@,
                        )
                    } by {
                        lemma_span_bounds(patterns, bytes, spans, i);
                        assert(is_step(patterns, bytes, spans, i));
                    }
                    assert forall|i: int, j: int| 0 <= i < j < found@.len() implies (
                    #[trigger] found@[i]).1 <= (#[trigger] found@[j]).0 by {
                        lemma_scan_ordered(patterns, bytes, spans, i, j);
                    }
                }
                found
            },
        }
    }

    /// A copy of `text` in which an asterisk stands for every byte of every
    /// match that `find_matches` finds; the rest, and the length in bytes,
    /// stay. Where the matcher is absent the copy equals `text`.
    pub fn filter_text(&self, text: &str) -> (filtered: String)
        ensures
            encode_utf8(filtered@) == masked(text.spec_bytes(), ranges(self.matches_in(text@))),
            encode_utf8(filtered@).len() == text.spec_bytes().len(),
            self.matches_in(text@).len() == 0 ==> filtered@ == text@,
    {
        let found = self.find_matches(text);
        proof {
            assert(ranges_found(found@) =~= ranges(self.matches_in(text@)));
        }
        mask_matches(text, &found)
    }
}

/// As many asterisks as `count` says.
fn asterisks(count: usize) -> (mask: String)
    ensures
        encode_utf8(mask@) == stars(count as int),
{
    let mut mask = String::new();
    let mut i: usize = 0;
    proof {
        reveal_strlit("*");
    }
    while i < count
        invariant
            i <= count,
            "*"@ == seq!['*'],
            mask@.len() == i,
            forall|j: int| 0 <= j < mask@.len() ==> mask@[j] == '*',
        decreases count - i,
    {
        mask.append("*");
        i += 1;
    }
    proof {
        assert(is_ascii_chars(mask@));
        is_ascii_chars_encode_utf8(mask@);
        assert(encode_utf8(mask@) =~= stars(count as int));
    }
    mask
}

} // verus!
