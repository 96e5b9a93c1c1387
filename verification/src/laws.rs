//! What holds of every index and every dictionary, stated over the
//! functions that the contracts of the library speak of.

use vstd::prelude::*;
use vstd::utf8::encode_utf8;
use crate::ac::{automaton_fits, buildable, load_outcome, AcMachine};
use crate::dictionary::{dictionary_words, is_whitespace, lemma_blank_dictionary};
use crate::error::{FileRead, FilterError};
use crate::filter::rebuild_outcome;
use crate::mask::{lemma_masked_none, masked, ranges};
use crate::record::{is_record, lemma_record_injective, restored};
use crate::scan::{
    is_step, lemma_scan_exists, lemma_scan_ordered, lemma_span_bounds, occurs_at,
};
use crate::words::{lemma_utf8_words, no_empty_word, utf8_words};

verus! {

/// The matches of an index come from left to right and do not overlap: each
/// ends before or where every later one starts.
pub proof fn lemma_matches_ordered(machine: AcMachine, text: Seq<char>, i: int, j: int)
    requires
        no_empty_word(machine.words()),
        0 <= i < j < machine.matches_in(text).len(),
    ensures
        machine.matches_in(text)[i].end <= machine.matches_in(text)[j].start,
{
    let words = utf8_words(machine.words());
    let bytes = encode_utf8(text);
    lemma_utf8_words(machine.words());
    lemma_scan_exists(words, bytes);
    lemma_scan_ordered(words, bytes, machine.matches_in(text), i, j);
}

/// Every match of an index holds at least one byte, lies within the text,
/// and spans the bytes of its word, of which it has the length.
pub proof fn lemma_match_spans_word(machine: AcMachine, text: Seq<char>, i: int)
    requires
        no_empty_word(machine.words()),
        0 <= i < machine.matches_in(text).len(),
    ensures
        ({
            let span = machine.matches_in(text)[i];
            let bytes = encode_utf8(text);
            &&& 0 <= span.start < span.end <= bytes.len()
            &&& 0 <= span.word < machine.words().len()
            &&& span.end - span.start == encode_utf8(machine.words()[span.word]).len()
            &&& bytes.subrange(span.start, span.end) == encode_utf8(machine.words()[span.word])
        }),
{
    let words = utf8_words(machine.words());
    let bytes = encode_utf8(text);
    let spans = machine.matches_in(text);
    lemma_utf8_words(machine.words());
    lemma_scan_exists(words, bytes);
    lemma_span_bounds(words, bytes, spans, i);
    assert(is_step(words, bytes, spans, i));
    assert(occurs_at(words[spans[i].word], bytes, spans[i].start));
}

/// An index with a matcher overlooks no text: where it finds no match, none
/// of its words occurs anywhere in the text.
pub proof fn lemma_no_match_no_word(machine: AcMachine, text: Seq<char>, word: int, at: int)
    requires
        no_empty_word(machine.words()),
        machine.built(),
        machine.matches_in(text).len() == 0,
        0 <= word < machine.words().len(),
    ensures
        !occurs_at(encode_utf8(machine.words()[word]), encode_utf8(text), at),
{
    let words = utf8_words(machine.words());
    let bytes = encode_utf8(text);
    lemma_utf8_words(machine.words());
    lemma_scan_exists(words, bytes);
    if occurs_at(words[word], bytes, at) {
        assert(0 <= at < bytes.len() + 1);
    }
}

/// Compiling the matcher is deterministic: two indexes built from one word
/// list find the same matches in every text, and mask it alike.
pub proof fn lemma_build_deterministic(first: AcMachine, second: AcMachine, text: Seq<char>)
    requires
        first.words() == second.words(),
        first.built() == buildable(first.words()),
        second.built() == buildable(second.words()),
    ensures
        first.built() == second.built(),
        first.matches_in(text) == second.matches_in(text),
        masked(encode_utf8(text), ranges(first.matches_in(text))) == masked(
            encode_utf8(text),
            ranges(second.matches_in(text)),
        ),
{
}

/// Masking keeps the length of a text, and leaves a text without match as
/// it is.
pub proof fn lemma_masking_keeps_length(machine: AcMachine, text: Seq<char>)
    ensures
        masked(encode_utf8(text), ranges(machine.matches_in(text))).len() == encode_utf8(
            text,
        ).len(),
        machine.matches_in(text).len() == 0 ==> masked(
            encode_utf8(text),
            ranges(machine.matches_in(text)),
        ) == encode_utf8(text),
{
    if machine.matches_in(text).len() == 0 {
        assert(ranges(machine.matches_in(text)) =~= Seq::empty());
        lemma_masked_none(encode_utf8(text));
    }
}

/// Saving and loading give the index back. Where `bytes` are the record of
/// a built index, loading them succeeds unless the word list exceeds a limit
/// of the matcher, and the index that it gives holds the same words and
/// finds the same matches in every text.
pub proof fn lemma_save_load_round_trip(
    saved: AcMachine,
    bytes: Vec<u8>,
    loaded: AcMachine,
    text: Seq<char>,
)
    requires
        saved.built() == buildable(saved.words()),
        is_record(bytes@, saved.words()),
        load_outcome(FileRead::Contents(bytes)) matches Ok(words) ==> loaded.words() == words
            && loaded.built() == buildable(words),
    ensures
        restored(bytes@) == Some(saved.words()),
        load_outcome(FileRead::Contents(bytes)) is Ok <==> saved.words().len() == 0
            || saved.built(),
        load_outcome(FileRead::Contents(bytes)) is Ok ==> {
            &&& loaded.words() == saved.words()
            &&& loaded.built() == saved.built()
            &&& loaded.matches_in(text) == saved.matches_in(text)
        },
        load_outcome(FileRead::Contents(bytes)) matches Err(error) ==> error
            == FilterError::NotBuilt,
{
    let chosen = choose|other: Seq<Seq<char>>| is_record(bytes@, other);
    lemma_record_injective(chosen, saved.words());
}

/// Bytes that are no record are never taken for an index: loading them
/// fails with `Decode`, whatever they hold.
pub proof fn lemma_corrupt_index_is_rejected(bytes: Vec<u8>)
    requires
        forall|words: Seq<Seq<char>>| !is_record(bytes@, words),
    ensures
        load_outcome(FileRead::Contents(bytes)) == Err::<Seq<Seq<char>>, FilterError>(
            FilterError::Decode,
        ),
{
}

/// A dictionary of nothing but blank lines makes a rebuild fail with
/// `EmptyDictionary`.
pub proof fn lemma_blank_dictionary_is_empty(text: String)
    requires
        forall|i: int| 0 <= i < text@.len() ==> is_whitespace(#[trigger] text@[i]),
    ensures
        rebuild_outcome(FileRead::Contents(text)) == Err::<Seq<Seq<char>>, FilterError>(
            FilterError::EmptyDictionary,
        ),
{
    lemma_blank_dictionary(text@);
}

/// A rebuild fails only for the dictionary's sake or the matcher's: where
/// the dictionary holds a word and the matcher admits its words, the rebuild
/// prepares an index of exactly those words.
pub proof fn lemma_rebuild_succeeds(text: String)
    requires
        dictionary_words(text@).len() > 0,
        automaton_fits(utf8_words(dictionary_words(text@))),
    ensures
        rebuild_outcome(FileRead::Contents(text)) == Ok::<Seq<Seq<char>>, FilterError>(
            dictionary_words(text@),
        ),
{
}

} // verus!
