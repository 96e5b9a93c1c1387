//! Where a word occurs in a text, both taken as UTF-8, it starts and ends
//! between two characters of the text.

use vstd::prelude::*;
use vstd::utf8::{
    is_char_boundary, is_char_boundary_iff_not_is_continuation_byte,
    is_char_boundary_start_end_of_seq, length_of_first_scalar, pop_first_scalar, valid_utf8,
    valid_utf8_split,
};
use crate::scan::occurs_at;

verus! {

/// A UTF-8 sequence that opens another UTF-8 sequence ends between two of
/// its characters.
pub proof fn lemma_prefix_ends_at_boundary(head: Seq<u8>, bytes: Seq<u8>)
    requires
        valid_utf8(head),
        valid_utf8(bytes),
        head.len() <= bytes.len(),
        bytes.subrange(0, head.len() as int) == head,
    ensures
        is_char_boundary(bytes, head.len() as int),
    decreases head.len(),
{
    if head.len() > 0 {
        // Both sequences start with the same character: what follows it in
        // the one opens what follows it in the other.
        assert(bytes[0] == bytes.subrange(0, head.len() as int)[0]);
        let width = length_of_first_scalar(head);
        assert(width == length_of_first_scalar(bytes));
        let head_rest = pop_first_scalar(head);
        let bytes_rest = pop_first_scalar(bytes);
        assert(bytes_rest.subrange(0, head_rest.len() as int) =~= head_rest) by {
            assert forall|i: int| 0 <= i < head_rest.len() implies bytes_rest[i] == head_rest[i] by {
                assert(bytes.subrange(0, head.len() as int)[i + width] == head[i + width]);
            }
        }
        lemma_prefix_ends_at_boundary(head_rest, bytes_rest);
    }
}

/// A non-empty UTF-8 word that occurs in a UTF-8 text starts and ends
/// between two characters of the text.
pub proof fn lemma_occurrence_at_boundaries(word: Seq<u8>, text: Seq<u8>, at: int)
    requires
        valid_utf8(word),
        valid_utf8(text),
        word.len() > 0,
        occurs_at(word, text, at),
    ensures
        is_char_boundary(text, at),
        is_char_boundary(text, at + word.len()),
{
    let end = at + word.len();
    // The start: the first byte of a word is no continuation byte.
    assert(text[at] == text.subrange(at, end)[0]);
    is_char_boundary_iff_not_is_continuation_byte(word, 0);
    is_char_boundary_iff_not_is_continuation_byte(text, at);
    // The end: the word opens the text from `at` on and ends between two
    // characters of that tail, so that no continuation byte follows it.
    let tail = text.subrange(at, text.len() as int);
    valid_utf8_split(text, at);
    assert(tail.subrange(0, word.len() as int) =~= word) by {
        assert forall|i: int| 0 <= i < word.len() implies tail[i] == word[i] by {
            assert(text.subrange(at, end)[i] == word[i]);
        }
    }
    lemma_prefix_ends_at_boundary(word, tail);
    if end == text.len() {
        is_char_boundary_start_end_of_seq(text);
    } else {
        is_char_boundary_iff_not_is_continuation_byte(tail, word.len() as int);
        assert(tail[word.len() as int] == text[end]);
        is_char_boundary_iff_not_is_continuation_byte(text, end);
    }
}

} // verus!
