//! What a text looks like once every byte inside given ranges is replaced by
//! the mask byte.

use vstd::prelude::*;
use vstd::utf8::{
    is_char_boundary, is_char_boundary_iff_not_is_continuation_byte,
    is_char_boundary_start_end_of_seq, valid_utf8,
};
use crate::scan::Span;

verus! {

/// The byte that stands for every masked byte: an asterisk.
pub open spec fn mask_byte() -> u8 {
    0x2a
}

/// `n` mask bytes.
pub open spec fn stars(n: int) -> Seq<u8> {
    Seq::new(n as nat, |i: int| mask_byte())
}

/// The byte ranges of spans: for each its start and its end.
pub open spec fn ranges(spans: Seq<Span>) -> Seq<(int, int)> {
    Seq::new(spans.len(), |i: int| (spans[i].start, spans[i].end))
}

/// Whether the ranges hold at least one byte each, lie within `len` bytes,
/// and come in ascending order without overlap.
pub open spec fn ordered(ranges: Seq<(int, int)>, len: int) -> bool {
    &&& forall|i: int| 0 <= i < ranges.len() ==> 0 <= (#[trigger] ranges[i]).0 < ranges[i].1 <= len
    &&& forall|i: int, j: int|
        0 <= i < j < ranges.len() ==> (#[trigger] ranges[i]).1 <= (#[trigger] ranges[j]).0
}

/// Whether byte offset `i` lies inside one of the ranges.
pub open spec fn covered(ranges: Seq<(int, int)>, i: int) -> bool {
    exists|k: int| 0 <= k < ranges.len() && (#[trigger] ranges[k]).0 <= i < ranges[k].1
}

/// `text` with the mask byte at every offset that the ranges cover, and its
/// own byte everywhere else. It is as long as `text`.
pub open spec fn masked(text: Seq<u8>, ranges: Seq<(int, int)>) -> Seq<u8> {
    Seq::new(
        text.len(),
        |i: int|
            if covered(ranges, i) {
                mask_byte()
            } else {
                text[i]
            },
    )
}

/// Masking nothing leaves the text as it is.
pub proof fn lemma_masked_none(text: Seq<u8>)
    ensures
        masked(text, Seq::<(int, int)>::empty()) == text,
{
    assert(masked(text, Seq::<(int, int)>::empty()) =~= text);
}

/// Masking the ranges from the `k`-th on is masking those after the `k`-th,
/// and then overwriting the `k`-th with mask bytes. Before the end of the
/// `k`-th range the later ranges change nothing.
pub proof fn lemma_mask_one_more(text: Seq<u8>, ranges: Seq<(int, int)>, k: int)
    requires
        ordered(ranges, text.len() as int),
        0 <= k < ranges.len(),
    ensures
        ({
            let n = ranges.len() as int;
            let later = masked(text, ranges.subrange(k + 1, n));
            let (start, end) = ranges[k];
            &&& masked(text, ranges.subrange(k, n)) == later.subrange(0, start) + stars(end - start)
                + later.subrange(end, text.len() as int)
            &&& forall|i: int| 0 <= i < end ==> later[i] == text[i]
            &&& end < text.len() ==> later[end] == text[end] || later[end] == mask_byte()
        }),
{
    let n = ranges.len() as int;
    let from_k = ranges.subrange(k, n);
    let after_k = ranges.subrange(k + 1, n);
    let later = masked(text, after_k);
    let (start, end) = ranges[k];
    // The later ranges start where the `k`-th ends, or behind.
    assert forall|i: int| 0 <= i < end implies !covered(after_k, i) by {
        if covered(after_k, i) {
            let j = choose|j: int|
                0 <= j < after_k.len() && (#[trigger] after_k[j]).0 <= i < after_k[j].1;
            assert(ranges[k].1 <= ranges[k + 1 + j].0);
        }
    }
    // An offset is covered from the `k`-th range on where the `k`-th or a
    // later range covers it.
    assert forall|i: int| 0 <= i < text.len() implies covered(from_k, i) == (start <= i < end
        || covered(after_k, i)) by {
        if start <= i < end {
            assert(from_k[0].0 <= i < from_k[0].1);
        }
        if covered(after_k, i) {
            let j = choose|j: int|
                0 <= j < after_k.len() && (#[trigger] after_k[j]).0 <= i < after_k[j].1;
            assert(from_k[j + 1].0 <= i < from_k[j + 1].1);
        }
        if covered(from_k, i) {
            let j = choose|j: int|
                0 <= j < from_k.len() && (#[trigger] from_k[j]).0 <= i < from_k[j].1;
            if j > 0 {
                assert(after_k[j - 1].0 <= i < after_k[j - 1].1);
            }
        }
    }
    assert(masked(text, from_k) =~= later.subrange(0, start) + stars(end - start) + later.subrange(
        end,
        text.len() as int,
    ));
}

/// Where a UTF-8 text has been masked from the `k + 1`-th range on and is
/// still UTF-8, a `k`-th range that starts and ends between two characters
/// of the text does so in the masked text too.
pub proof fn lemma_range_at_boundaries(
    text: Seq<u8>,
    ranges: Seq<(int, int)>,
    k: int,
    later: Seq<u8>,
)
    requires
        valid_utf8(text),
        ordered(ranges, text.len() as int),
        0 <= k < ranges.len(),
        is_char_boundary(text, ranges[k].0),
        is_char_boundary(text, ranges[k].1),
        later == masked(text, ranges.subrange(k + 1, ranges.len() as int)),
        valid_utf8(later),
    ensures
        is_char_boundary(later, ranges[k].0),
        is_char_boundary(later, ranges[k].1),
{
    let (start, end) = ranges[k];
    lemma_mask_one_more(text, ranges, k);
    is_char_boundary_iff_not_is_continuation_byte(text, start);
    is_char_boundary_iff_not_is_continuation_byte(later, start);
    if end == text.len() {
        is_char_boundary_start_end_of_seq(later);
    } else {
        is_char_boundary_iff_not_is_continuation_byte(text, end);
        is_char_boundary_iff_not_is_continuation_byte(later, end);
    }
}

} // verus!
