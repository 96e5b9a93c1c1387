//! Word lists and their UTF-8 bytes.

use vstd::prelude::*;
use vstd::utf8::{encode_utf8, encode_utf8_decode_utf8, encode_utf8_valid_utf8, valid_utf8};
use crate::scan::all_nonempty;

verus! {

/// The UTF-8 bytes of each word.
pub open spec fn utf8_words(words: Seq<Seq<char>>) -> Seq<Seq<u8>> {
    Seq::new(words.len(), |j: int| encode_utf8(words[j]))
}

/// Whether no word of the list is the empty string.
pub open spec fn no_empty_word(words: Seq<Seq<char>>) -> bool {
    forall|j: int| 0 <= j < words.len() ==> (#[trigger] words[j]).len() > 0
}

/// Whether every chunk of the list is UTF-8.
pub open spec fn all_utf8(chunks: Seq<Seq<u8>>) -> bool {
    forall|j: int| 0 <= j < chunks.len() ==> valid_utf8(#[trigger] chunks[j])
}

/// The bytes of words are UTF-8, and words that are not empty have bytes.
pub proof fn lemma_utf8_words(words: Seq<Seq<char>>)
    ensures
        all_utf8(utf8_words(words)),
        no_empty_word(words) ==> all_nonempty(utf8_words(words)),
{
    broadcast use encode_utf8_valid_utf8;

    if no_empty_word(words) {
        assert forall|j: int| 0 <= j < words.len() implies (#[trigger] utf8_words(words)[j]).len()
            > 0 by {
            assert(words[j].len() > 0);
        }
    }
}

/// Two word lists with the same bytes are one list.
pub proof fn lemma_utf8_words_injective(a: Seq<Seq<char>>, b: Seq<Seq<char>>)
    requires
        utf8_words(a) == utf8_words(b),
    ensures
        a == b,
{
    assert(a.len() == utf8_words(a).len());
    assert(b.len() == utf8_words(b).len());
    assert forall|j: int| 0 <= j < a.len() implies a[j] == b[j] by {
        assert(utf8_words(a)[j] == utf8_words(b)[j]);
        encode_utf8_decode_utf8(a[j]);
        encode_utf8_decode_utf8(b[j]);
    }
    assert(a =~= b);
}

} // verus!
