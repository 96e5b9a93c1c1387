//! The persisted record of a word list.
//!
//! A record is a five-byte header, which names the format and its version,
//! and then the word list as `bincode` writes a list of strings in its
//! standard configuration: the number of words, and for each word the number
//! of its UTF-8 bytes and then those bytes. Every number is a variable-length
//! integer. The matcher is never part of a record.

use vstd::prelude::*;
use vstd::slice::slice_subrange;
use crate::words::{
    all_utf8, lemma_utf8_words, lemma_utf8_words_injective, no_empty_word, utf8_words,
};

verus! {

/// The five bytes that open every record: the letters `ACIX`, then the
/// version of the format.
pub open spec fn header() -> Seq<u8> {
    seq![0x41u8, 0x43u8, 0x49u8, 0x58u8, 0x01u8]
}

/// The `width` least significant bytes of a number, the least significant
/// first.
pub open spec fn le_bytes(n: nat, width: nat) -> Seq<u8>
    decreases width,
{
    if width == 0 {
        Seq::empty()
    } else {
        seq![(n % 256) as u8] + le_bytes(n / 256, (width - 1) as nat)
    }
}

/// The variable-length form of a number below 2^64: one byte for a number
/// below 251; else a marker (251, 252 or 253) and the number in two, four
/// or eight bytes, least significant byte first, in the shortest of these
/// forms that holds it.
pub open spec fn varint(n: nat) -> Seq<u8> {
    if n < 251 {
        seq![n as u8]
    } else if n < 0x1_0000 {
        seq![251u8] + le_bytes(n, 2)
    } else if n < 0x1_0000_0000 {
        seq![252u8] + le_bytes(n, 4)
    } else {
        seq![253u8] + le_bytes(n, 8)
    }
}

/// One chunk of bytes behind its length.
pub open spec fn framed(chunk: Seq<u8>) -> Seq<u8> {
    varint(chunk.len()) + chunk
}

/// The chunks one after the other, each behind its length.
pub open spec fn framed_all(chunks: Seq<Seq<u8>>) -> Seq<u8>
    decreases chunks.len(),
{
    if chunks.len() == 0 {
        Seq::empty()
    } else {
        framed(chunks[0]) + framed_all(chunks.drop_first())
    }
}

/// A list of chunks: their number, then the chunks.
pub open spec fn framed_list(chunks: Seq<Seq<u8>>) -> Seq<u8> {
    varint(chunks.len()) + framed_all(chunks)
}

/// Whether the number of chunks and the length of each are below 2^64, so
/// that each has a variable-length form.
pub open spec fn countable(chunks: Seq<Seq<u8>>) -> bool {
    &&& chunks.len() <= u64::MAX
    &&& forall|j: int| 0 <= j < chunks.len() ==> (#[trigger] chunks[j]).len() <= u64::MAX
}

/// The record of a word list.
pub open spec fn record_of(words: Seq<Seq<char>>) -> Seq<u8> {
    header() + framed_list(utf8_words(words))
}

/// Whether `bytes` are the record of `words`, a list without an empty word.
pub open spec fn is_record(bytes: Seq<u8>, words: Seq<Seq<char>>) -> bool {
    &&& no_empty_word(words)
    &&& countable(utf8_words(words))
    &&& bytes == record_of(words)
}

/// The word list that `bytes` are the record of, where they are one.
pub open spec fn restored(bytes: Seq<u8>) -> Option<Seq<Seq<char>>> {
    if exists|words: Seq<Seq<char>>| is_record(bytes, words) {
        Some(choose|words: Seq<Seq<char>>| is_record(bytes, words))
    } else {
        None
    }
}

/// Two numbers below 2^16 with the same two bytes are one number.
proof fn lemma_le_bytes_2(a: nat, b: nat)
    requires
        a < 0x1_0000,
        b < 0x1_0000,
        le_bytes(a, 2) == le_bytes(b, 2),
    ensures
        a == b,
{
    reveal_with_fuel(le_bytes, 3);
    let x = le_bytes(a, 2);
    let y = le_bytes(b, 2);
    assert(x[0] == y[0] && x[1] == y[1]);
}

/// Two numbers below 2^32 with the same four bytes are one number.
proof fn lemma_le_bytes_4(a: nat, b: nat)
    requires
        a < 0x1_0000_0000,
        b < 0x1_0000_0000,
        le_bytes(a, 4) == le_bytes(b, 4),
    ensures
        a == b,
{
    reveal_with_fuel(le_bytes, 5);
    let x = le_bytes(a, 4);
    let y = le_bytes(b, 4);
    assert(x[0] == y[0] && x[1] == y[1] && x[2] == y[2] && x[3] == y[3]);
}

/// Two numbers below 2^64 with the same eight bytes are one number.
proof fn lemma_le_bytes_8(a: nat, b: nat)
    requires
        a <= u64::MAX,
        b <= u64::MAX,
        le_bytes(a, 8) == le_bytes(b, 8),
    ensures
        a == b,
{
    reveal_with_fuel(le_bytes, 9);
    let x = le_bytes(a, 8);
    let y = le_bytes(b, 8);
    assert(x[0] == y[0] && x[1] == y[1] && x[2] == y[2] && x[3] == y[3]);
    assert(x[4] == y[4] && x[5] == y[5] && x[6] == y[6] && x[7] == y[7]);
}

/// The length of a variable-length form: 1, 3, 5 or 9 bytes.
pub proof fn lemma_varint_len(n: nat)
    ensures
        varint(n).len() == if n < 251 {
            1nat
        } else if n < 0x1_0000 {
            3nat
        } else if n < 0x1_0000_0000 {
            5nat
        } else {
            9nat
        },
        varint(n)[0] == if n < 251 {
            n as u8
        } else if n < 0x1_0000 {
            251u8
        } else if n < 0x1_0000_0000 {
            252u8
        } else {
            253u8
        },
{
    reveal_with_fuel(le_bytes, 9);
}

/// A number below 2^64 has one variable-length form, and no such form opens
/// another: two of them that open the same bytes are of the same number.
pub proof fn lemma_varint_unique(a: nat, b: nat, bytes: Seq<u8>)
    requires
        a <= u64::MAX,
        b <= u64::MAX,
        varint(a).is_prefix_of(bytes),
        varint(b).is_prefix_of(bytes),
    ensures
        a == b,
{
    lemma_varint_len(a);
    lemma_varint_len(b);
    assert(varint(a)[0] == bytes[0] && varint(b)[0] == bytes[0]);
    if a >= 251 {
        assert(varint(a) =~= varint(b));
        let width: nat = if a < 0x1_0000 {
            2
        } else if a < 0x1_0000_0000 {
            4
        } else {
            8
        };
        assert(le_bytes(a, width) =~= varint(a).drop_first());
        assert(le_bytes(b, width) =~= varint(b).drop_first());
        if a < 0x1_0000 {
            lemma_le_bytes_2(a, b);
        } else if a < 0x1_0000_0000 {
            lemma_le_bytes_4(a, b);
        } else {
            lemma_le_bytes_8(a, b);
        }
    }
}

/// Framing one more chunk adds its frame at the end.
pub proof fn lemma_framed_all_push(chunks: Seq<Seq<u8>>, chunk: Seq<u8>)
    ensures
        framed_all(chunks.push(chunk)) == framed_all(chunks) + framed(chunk),
    decreases chunks.len(),
{
    let longer = chunks.push(chunk);
    if chunks.len() == 0 {
        reveal_with_fuel(framed_all, 2);
        assert(longer.drop_first() =~= Seq::<Seq<u8>>::empty());
        assert(framed_all(longer) =~= framed_all(chunks) + framed(chunk));
    } else {
        assert(longer.drop_first() =~= chunks.drop_first().push(chunk));
        assert(longer[0] == chunks[0]);
        lemma_framed_all_push(chunks.drop_first(), chunk);
        let first = framed(chunks[0]);
        let rest = framed_all(chunks.drop_first());
        let last = framed(chunk);
        assert(framed_all(longer.drop_first()) == rest + last);
        assert(framed_all(longer) == first + (rest + last));
        assert(framed_all(chunks) == first + rest);
        assert(first + (rest + last) =~= (first + rest) + last);
    }
}

/// The frames of a list are those of its first `k` chunks and then those of
/// the rest.
pub proof fn lemma_framed_all_split(chunks: Seq<Seq<u8>>, k: int)
    requires
        0 <= k <= chunks.len(),
    ensures
        framed_all(chunks) == framed_all(chunks.take(k)) + framed_all(chunks.skip(k)),
    decreases k,
{
    if k == 0 {
        assert(chunks.skip(0) =~= chunks);
        assert(framed_all(chunks) =~= framed_all(chunks.take(k)) + framed_all(chunks.skip(k)));
    } else {
        let rest = chunks.drop_first();
        lemma_framed_all_split(rest, k - 1);
        assert(rest.take(k - 1) =~= chunks.take(k).drop_first());
        assert(rest.skip(k - 1) =~= chunks.skip(k));
        assert(chunks.take(k)[0] == chunks[0]);
        assert(framed_all(chunks) =~= framed_all(chunks.take(k)) + framed_all(chunks.skip(k)));
    }
}

/// Where `bytes` are the framed list `chunks` and the first `at` of them
/// hold the number of chunks and the frames of the first `k`, the frame of
/// the `k`-th chunk comes next.
proof fn lemma_next_frame(bytes: Seq<u8>, chunks: Seq<Seq<u8>>, k: int, at: int)
    requires
        bytes == framed_list(chunks),
        0 <= k < chunks.len(),
        0 <= at <= bytes.len(),
        bytes.take(at) == varint(chunks.len()) + framed_all(chunks.take(k)),
    ensures
        framed(chunks[k]).is_prefix_of(bytes.skip(at)),
{
    lemma_framed_all_split(chunks, k);
    let rest = chunks.skip(k);
    assert(rest[0] == chunks[k]);
    assert(framed_all(rest) == framed(chunks[k]) + framed_all(rest.drop_first()));
    let before = varint(chunks.len()) + framed_all(chunks.take(k));
    assert(bytes =~= before + framed_all(rest));
    assert(bytes.take(at).len() == at);
    assert(bytes.skip(at) =~= framed_all(rest));
    assert(framed(chunks[k]) =~= bytes.skip(at).subrange(0, framed(chunks[k]).len() as int));
}

/// Where `bytes` are the framed list `chunks` and the first `at` of them
/// hold the number of chunks and the frames of all, there are `at` bytes.
proof fn lemma_frames_end(bytes: Seq<u8>, chunks: Seq<Seq<u8>>, at: int)
    requires
        bytes == framed_list(chunks),
        0 <= at <= bytes.len(),
        bytes.take(at) == varint(chunks.len()) + framed_all(chunks),
    ensures
        at == bytes.len(),
{
    assert(bytes.take(at).len() == at);
}

/// A framed list is the list of its chunks only.
pub proof fn lemma_framed_all_injective(a: Seq<Seq<u8>>, b: Seq<Seq<u8>>)
    requires
        countable(a),
        countable(b),
        a.len() == b.len(),
        framed_all(a) == framed_all(b),
    ensures
        a == b,
    decreases a.len(),
{
    if a.len() > 0 {
        let bytes = framed_all(a);
        assert(varint(a[0].len()).is_prefix_of(bytes)) by {
            assert(bytes == (varint(a[0].len()) + a[0]) + framed_all(a.drop_first()));
            assert(varint(a[0].len()) =~= bytes.subrange(0, varint(a[0].len()).len() as int));
        }
        assert(varint(b[0].len()).is_prefix_of(bytes)) by {
            assert(bytes == (varint(b[0].len()) + b[0]) + framed_all(b.drop_first()));
            assert(varint(b[0].len()) =~= bytes.subrange(0, varint(b[0].len()).len() as int));
        }
        lemma_varint_unique(a[0].len(), b[0].len(), bytes);
        let head = varint(a[0].len()).len() as int;
        let size = a[0].len() as int;
        assert(a[0] =~= bytes.subrange(head, head + size));
        assert(b[0] =~= bytes.subrange(head, head + size));
        assert(framed_all(a.drop_first()) =~= bytes.skip(head + size));
        assert(framed_all(b.drop_first()) =~= bytes.skip(head + size));
        assert(countable(a.drop_first())) by {
            assert forall|j: int| 0 <= j < a.drop_first().len() implies (
            #[trigger] a.drop_first()[j]).len() <= u64::MAX by {
                assert(a.drop_first()[j] == a[j + 1]);
            }
        }
        assert(countable(b.drop_first())) by {
            assert forall|j: int| 0 <= j < b.drop_first().len() implies (
            #[trigger] b.drop_first()[j]).len() <= u64::MAX by {
                assert(b.drop_first()[j] == b[j + 1]);
            }
        }
        lemma_framed_all_injective(a.drop_first(), b.drop_first());
        assert(a =~= seq![a[0]] + a.drop_first());
        assert(b =~= seq![b[0]] + b.drop_first());
    } else {
        assert(a =~= b);
    }
}

/// Two lists with one framed form are one list.
pub proof fn lemma_framed_list_injective(a: Seq<Seq<u8>>, b: Seq<Seq<u8>>)
    requires
        countable(a),
        countable(b),
        framed_list(a) == framed_list(b),
    ensures
        a == b,
{
    let bytes = framed_list(a);
    assert(varint(a.len()) =~= bytes.subrange(0, varint(a.len()).len() as int));
    assert(varint(b.len()) =~= bytes.subrange(0, varint(b.len()).len() as int));
    lemma_varint_unique(a.len(), b.len(), bytes);
    let head = varint(a.len()).len() as int;
    assert(framed_all(a) =~= bytes.skip(head));
    assert(framed_all(b) =~= bytes.skip(head));
    lemma_framed_all_injective(a, b);
}

/// The number whose two bytes are these.
proof fn lemma_digits_2(b0: u8, b1: u8)
    ensures
        le_bytes((b0 + 256 * b1) as nat, 2) == seq![b0, b1],
{
    reveal_with_fuel(le_bytes, 3);
    assert(le_bytes((b0 + 256 * b1) as nat, 2) =~= seq![b0, b1]);
}

/// The number whose four bytes are these.
proof fn lemma_digits_4(b0: u8, b1: u8, b2: u8, b3: u8)
    ensures
        le_bytes((b0 + 256 * (b1 + 256 * (b2 + 256 * b3))) as nat, 4) == seq![b0, b1, b2, b3],
{
    reveal_with_fuel(le_bytes, 3);
    let upper = (b2 + 256 * b3) as nat;
    lemma_digits_2(b2, b3);
    let value = (b0 + 256 * (b1 + 256 * upper)) as nat;
    assert(value / 256 / 256 == upper);
    assert(le_bytes(value, 4) =~= seq![b0, b1] + le_bytes(upper, 2));
    assert(le_bytes(value, 4) =~= seq![b0, b1, b2, b3]);
}

/// The number whose eight bytes are these.
proof fn lemma_digits_8(b0: u8, b1: u8, b2: u8, b3: u8, b4: u8, b5: u8, b6: u8, b7: u8)
    ensures
        le_bytes(
            (b0 + 256 * (b1 + 256 * (b2 + 256 * (b3 + 256 * (b4 + 256 * (b5 + 256 * (b6 + 256
                * b7))))))) as nat,
            8,
        ) == seq![b0, b1, b2, b3, b4, b5, b6, b7],
{
    reveal_with_fuel(le_bytes, 3);
    let upper = (b4 + 256 * (b5 + 256 * (b6 + 256 * b7))) as nat;
    lemma_digits_4(b4, b5, b6, b7);
    let mid = (b2 + 256 * (b3 + 256 * upper)) as nat;
    assert(mid / 256 / 256 == upper);
    assert(le_bytes(mid, 6) =~= seq![b2, b3] + le_bytes(upper, 4));
    let value = (b0 + 256 * (b1 + 256 * mid)) as nat;
    assert(value / 256 / 256 == mid);
    assert(le_bytes(value, 8) =~= seq![b0, b1] + le_bytes(mid, 6));
    assert(le_bytes(value, 8) =~= seq![b0, b1, b2, b3, b4, b5, b6, b7]);
}

/// What the first byte says of a variable-length form that opens `rest`.
proof fn lemma_marker(n: nat, rest: Seq<u8>)
    requires
        n <= u64::MAX,
        varint(n).is_prefix_of(rest),
    ensures
        rest.len() > 0,
        rest[0] <= 253,
        rest[0] < 251 ==> n == rest[0],
        rest[0] == 251 ==> 251 <= n < 0x1_0000 && rest.len() >= 3 && le_bytes(n, 2)
            == rest.subrange(1, 3),
        rest[0] == 252 ==> 0x1_0000 <= n < 0x1_0000_0000 && rest.len() >= 5 && le_bytes(n, 4)
            == rest.subrange(1, 5),
        rest[0] == 253 ==> 0x1_0000_0000 <= n && rest.len() >= 9 && le_bytes(n, 8)
            == rest.subrange(1, 9),
{
    lemma_varint_len(n);
    let form = varint(n);
    assert(form[0] == rest[0]);
    if n >= 251 {
        let width = (form.len() - 1) as nat;
        assert(le_bytes(n, width) =~= form.subrange(1, form.len() as int));
        assert(form.subrange(1, form.len() as int) =~= rest.subrange(1, form.len() as int));
    }
}

/// Whether no variable-length form of a number below 2^64 opens `rest`.
spec fn no_form_opens(rest: Seq<u8>) -> bool {
    forall|n: nat| n <= u64::MAX ==> !(#[trigger] varint(n)).is_prefix_of(rest)
}

/// Reads the two bytes behind the marker 251 at `at`. `None` where the
/// number that they hold has a shorter form.
fn read_two(bytes: &[u8], at: usize) -> (read: Option<u64>)
    requires
        at + 3 <= bytes.len(),
        bytes[at as int] == 251,
    ensures
        read matches Some(value) ==> bytes@.subrange(at as int, at + 3) == varint(value as nat),
        read is None ==> no_form_opens(bytes@.skip(at as int)),
{
    let ghost rest = bytes@.skip(at as int);
    let (b0, b1) = (bytes[at + 1], bytes[at + 2]);
    let value: u64 = b0 as u64 + 256 * (b1 as u64);
    proof {
        lemma_digits_2(b0, b1);
        assert(rest.subrange(1, 3) =~= seq![b0, b1]);
    }
    if value < 251 {
        assert forall|n: nat| n <= u64::MAX implies !(#[trigger] varint(n)).is_prefix_of(rest) by {
            if varint(n).is_prefix_of(rest) {
                lemma_marker(n, rest);
                lemma_le_bytes_2(n, value as nat);
            }
        }
        None
    } else {
        assert(bytes@.subrange(at as int, at + 3) =~= varint(value as nat));
        Some(value)
    }
}

/// Reads the four bytes behind the marker 252 at `at`. `None` where the
/// number that they hold has a shorter form.
fn read_four(bytes: &[u8], at: usize) -> (read: Option<u64>)
    requires
        at + 5 <= bytes.len(),
        bytes[at as int] == 252,
    ensures
        read matches Some(value) ==> bytes@.subrange(at as int, at + 5) == varint(value as nat),
        read is None ==> no_form_opens(bytes@.skip(at as int)),
{
    let ghost rest = bytes@.skip(at as int);
    let (b0, b1, b2, b3) = (bytes[at + 1], bytes[at + 2], bytes[at + 3], bytes[at + 4]);
    let value: u64 = b0 as u64 + 256 * (b1 as u64 + 256 * (b2 as u64 + 256 * (b3 as u64)));
    proof {
        lemma_digits_4(b0, b1, b2, b3);
        assert(rest.subrange(1, 5) =~= seq![b0, b1, b2, b3]);
    }
    if value < 0x1_0000 {
        assert forall|n: nat| n <= u64::MAX implies !(#[trigger] varint(n)).is_prefix_of(rest) by {
            if varint(n).is_prefix_of(rest) {
                lemma_marker(n, rest);
                lemma_le_bytes_4(n, value as nat);
            }
        }
        None
    } else {
        assert(bytes@.subrange(at as int, at + 5) =~= varint(value as nat));
        Some(value)
    }
}

/// Reads the eight bytes behind the marker 253 at `at`. `None` where the
/// number that they hold has a shorter form.
fn read_eight(bytes: &[u8], at: usize) -> (read: Option<u64>)
    requires
        at + 9 <= bytes.len(),
        bytes[at as int] == 253,
    ensures
        read matches Some(value) ==> bytes@.subrange(at as int, at + 9) == varint(value as nat),
        read is None ==> no_form_opens(bytes@.skip(at as int)),
{
    let ghost rest = bytes@.skip(at as int);
    let (b0, b1, b2, b3) = (bytes[at + 1], bytes[at + 2], bytes[at + 3], bytes[at + 4]);
    let (b4, b5, b6, b7) = (bytes[at + 5], bytes[at + 6], bytes[at + 7], bytes[at + 8]);
    let upper: u64 = b4 as u64 + 256 * (b5 as u64 + 256 * (b6 as u64 + 256 * (b7 as u64)));
    let value: u64 = b0 as u64 + 256 * (b1 as u64 + 256 * (b2 as u64 + 256 * (b3 as u64 + 256
        * upper)));
    proof {
        lemma_digits_8(b0, b1, b2, b3, b4, b5, b6, b7);
        assert(rest.subrange(1, 9) =~= seq![b0, b1, b2, b3, b4, b5, b6, b7]);
    }
    if value < 0x1_0000_0000 {
        assert forall|n: nat| n <= u64::MAX implies !(#[trigger] varint(n)).is_prefix_of(rest) by {
            if varint(n).is_prefix_of(rest) {
                lemma_marker(n, rest);
                lemma_le_bytes_8(n, value as nat);
            }
        }
        None
    } else {
        assert(bytes@.subrange(at as int, at + 9) =~= varint(value as nat));
        Some(value)
    }
}

/// Reads the variable-length form that starts at `at`: the number, and the
/// offset behind the form. `None` where no such form starts there.
fn read_varint(bytes: &[u8], at: usize) -> (read: Option<(u64, usize)>)
    requires
        at <= bytes.len(),
    ensures
        read matches Some((value, next)) ==> {
            &&& at < next <= bytes.len()
            &&& bytes@.subrange(at as int, next as int) == varint(value as nat)
        },
        read is None ==> no_form_opens(bytes@.skip(at as int)),
{
    let ghost rest = bytes@.skip(at as int);
    let left = bytes.len() - at;
    let marker = if left > 0 {
        bytes[at]
    } else {
        255
    };
    if left > 0 && marker < 251 {
        assert(bytes@.subrange(at as int, at + 1) =~= varint(marker as nat));
        Some((marker as u64, at + 1))
    } else if marker == 251 && left >= 3 {
        match read_two(bytes, at) {
            Some(value) => Some((value, at + 3)),
            None => None,
        }
    } else if marker == 252 && left >= 5 {
        match read_four(bytes, at) {
            Some(value) => Some((value, at + 5)),
            None => None,
        }
    } else if marker == 253 && left >= 9 {
        match read_eight(bytes, at) {
            Some(value) => Some((value, at + 9)),
            None => None,
        }
    } else {
        // The bytes end before the form does, or no form starts with this
        // byte.
        assert forall|n: nat| n <= u64::MAX implies !(#[trigger] varint(n)).is_prefix_of(rest) by {
            if varint(n).is_prefix_of(rest) {
                lemma_marker(n, rest);
            }
        }
        None
    }
}

/// Whether `bytes` are no framed list.
spec fn no_framing(bytes: Seq<u8>) -> bool {
    forall|list: Seq<Seq<u8>>| countable(list) ==> bytes != #[trigger] framed_list(list)
}

/// Whether every framed list that `bytes` are holds `count` chunks, of
/// which the first are `chunks`.
spec fn agrees(bytes: Seq<u8>, count: nat, chunks: Seq<Seq<u8>>) -> bool {
    forall|list: Seq<Seq<u8>>|
        countable(list) && bytes == #[trigger] framed_list(list) ==> list.len() == count
            && list.take(chunks.len() as int) == chunks
}

/// Whether the first `at` of `bytes` hold the number `count` and the frames
/// of `chunks`, the first of `count` chunks, and any framed list that
/// `bytes` are starts like that.
spec fn framed_so_far(bytes: Seq<u8>, count: nat, chunks: Seq<Seq<u8>>, at: int) -> bool {
    &&& 0 <= at <= bytes.len()
    &&& chunks.len() <= count <= u64::MAX
    &&& countable(chunks)
    &&& bytes.take(at) == varint(count) + framed_all(chunks)
    &&& agrees(bytes, count, chunks)
}

/// Bytes that no variable-length form opens are no framed list.
proof fn lemma_no_count(bytes: Seq<u8>)
    requires
        no_form_opens(bytes.skip(0)),
    ensures
        no_framing(bytes),
{
    assert forall|list: Seq<Seq<u8>>| countable(list) implies bytes != #[trigger] framed_list(
        list,
    ) by {
        if bytes == framed_list(list) {
            assert(bytes.skip(0) =~= bytes);
            assert(varint(list.len()).is_prefix_of(bytes));
        }
    }
}

/// Once the number of chunks is read, no chunk is.
proof fn lemma_framed_start(bytes: Seq<u8>, count: nat, start: int)
    requires
        count <= u64::MAX,
        0 <= start <= bytes.len(),
        bytes.subrange(0, start) == varint(count),
    ensures
        framed_so_far(bytes, count, Seq::empty(), start),
{
    let chunks = Seq::<Seq<u8>>::empty();
    assert(bytes.take(start) =~= varint(count) + framed_all(chunks));
    assert forall|list: Seq<Seq<u8>>| countable(list) && bytes == #[trigger] framed_list(
        list,
    ) implies list.len() == count && list.take(0) == chunks by {
        assert(varint(list.len()).is_prefix_of(bytes));
        assert(varint(count).is_prefix_of(bytes));
        lemma_varint_unique(list.len(), count, bytes);
        assert(list.take(0) =~= chunks);
    }
}

/// Where a chunk is still to come and no length can be read, the bytes are
/// no framed list.
proof fn lemma_no_length(bytes: Seq<u8>, count: nat, chunks: Seq<Seq<u8>>, at: int)
    requires
        framed_so_far(bytes, count, chunks, at),
        chunks.len() < count,
        no_form_opens(bytes.skip(at)),
    ensures
        no_framing(bytes),
{
    let k = chunks.len() as int;
    assert forall|list: Seq<Seq<u8>>| countable(list) implies bytes != #[trigger] framed_list(
        list,
    ) by {
        if bytes == framed_list(list) {
            lemma_next_frame(bytes, list, k, at);
            assert(varint(list[k].len()).is_prefix_of(bytes.skip(at)));
        }
    }
}

/// Where a chunk's length is read and fewer bytes follow, the bytes are no
/// framed list.
proof fn lemma_no_chunk(
    bytes: Seq<u8>,
    count: nat,
    chunks: Seq<Seq<u8>>,
    at: int,
    size: nat,
    body: int,
)
    requires
        framed_so_far(bytes, count, chunks, at),
        chunks.len() < count,
        size <= u64::MAX,
        at < body <= bytes.len(),
        bytes.subrange(at, body) == varint(size),
        size > bytes.len() - body,
    ensures
        no_framing(bytes),
{
    let k = chunks.len() as int;
    let rest = bytes.skip(at);
    assert(varint(size) =~= rest.subrange(0, body - at));
    assert forall|list: Seq<Seq<u8>>| countable(list) implies bytes != #[trigger] framed_list(
        list,
    ) by {
        if bytes == framed_list(list) {
            lemma_next_frame(bytes, list, k, at);
            assert(varint(list[k].len()).is_prefix_of(rest));
            lemma_varint_unique(list[k].len(), size, rest);
        }
    }
}

/// Where a chunk's length is read and that many bytes follow, they are the
/// next chunk.
proof fn lemma_next_chunk(
    bytes: Seq<u8>,
    count: nat,
    chunks: Seq<Seq<u8>>,
    at: int,
    size: nat,
    body: int,
)
    requires
        framed_so_far(bytes, count, chunks, at),
        chunks.len() < count,
        size <= u64::MAX,
        at < body <= bytes.len(),
        bytes.subrange(at, body) == varint(size),
        body + size <= bytes.len(),
    ensures
        framed_so_far(bytes, count, chunks.push(bytes.subrange(body, body + size)), body + size),
{
    let k = chunks.len() as int;
    let end = body + size;
    let rest = bytes.skip(at);
    let chunk = bytes.subrange(body, end);
    let longer = chunks.push(chunk);
    lemma_framed_all_push(chunks, chunk);
    assert(varint(size) =~= rest.subrange(0, body - at));
    assert(bytes.take(end) =~= bytes.take(at) + (bytes.subrange(at, body) + chunk));
    assert(bytes.take(end) =~= varint(count) + framed_all(longer));
    assert forall|list: Seq<Seq<u8>>| countable(list) && bytes == #[trigger] framed_list(
        list,
    ) implies list.len() == count && list.take(longer.len() as int) == longer by {
        lemma_next_frame(bytes, list, k, at);
        let frame = framed(list[k]);
        assert(varint(list[k].len()).is_prefix_of(rest));
        lemma_varint_unique(list[k].len(), size, rest);
        assert(frame == rest.subrange(0, end - at));
        assert(list[k] =~= frame.subrange(body - at, end - at));
        assert(list[k] =~= chunk);
        assert(list.take(k + 1) =~= list.take(k).push(list[k]));
    }
}

/// Where all chunks are read, the bytes are a framed list if none is left,
/// and else are none.
proof fn lemma_framed_end(bytes: Seq<u8>, chunks: Seq<Seq<u8>>, at: int)
    requires
        framed_so_far(bytes, chunks.len(), chunks, at),
    ensures
        at == bytes.len() ==> bytes == framed_list(chunks),
        at != bytes.len() ==> no_framing(bytes),
{
    if at == bytes.len() {
        assert(bytes.take(at) =~= bytes);
    } else {
        assert forall|list: Seq<Seq<u8>>| countable(list) implies bytes != #[trigger] framed_list(
            list,
        ) by {
            if bytes == framed_list(list) {
                assert(list.take(chunks.len() as int) =~= list);
                lemma_frames_end(bytes, list, at);
            }
        }
    }
}

/// Tells whether `bytes` are a framed list, and of which chunks.
fn frames(bytes: &[u8]) -> (found: Option<Ghost<Seq<Seq<u8>>>>)
    ensures
        found matches Some(chunks) ==> countable(chunks@) && bytes@ == framed_list(chunks@),
        found is None ==> no_framing(bytes@),
{
    let total = bytes.len();
    let (count, start) = match read_varint(bytes, 0) {
        Some(read) => read,
        None => {
            proof {
                lemma_no_count(bytes@);
            }
            return None;
        },
    };
    let ghost mut chunks: Seq<Seq<u8>> = Seq::empty();
    let mut at: usize = start;
    let mut k: u64 = 0;
    proof {
        lemma_framed_start(bytes@, count as nat, start as int);
    }
    while k < count
        invariant
            total == bytes.len(),
            k <= count,
            chunks.len() == k,
            framed_so_far(bytes@, count as nat, chunks, at as int),
        decreases count - k,
    {
        let (size, body) = match read_varint(bytes, at) {
            Some(read) => read,
            None => {
                proof {
                    lemma_no_length(bytes@, count as nat, chunks, at as int);
                }
                return None;
            },
        };
        if size > (total - body) as u64 {
            proof {
                lemma_no_chunk(bytes@, count as nat, chunks, at as int, size as nat, body as int);
            }
            return None;
        }
        let end = body + size as usize;
        proof {
            lemma_next_chunk(bytes@, count as nat, chunks, at as int, size as nat, body as int);
            chunks = chunks.push(bytes@.subrange(body as int, end as int));
        }
        at = end;
        k = k + 1;
    }
    proof {
        lemma_framed_end(bytes@, chunks, at as int);
    }
    if at != total {
        return None;
    }
    Some(Ghost(chunks))
}

/// `bincode::serde::encode_to_vec` on a list of strings, in the standard
/// configuration (variable-length integers, least significant byte first,
/// no limit). It writes the number of strings, then each string as the
/// number of its bytes and those bytes. Writing a list of known length into
/// a vector does not fail.
#[verifier::external_body]
fn encode_list(words: &Vec<String>) -> (bytes: Vec<u8>)
    ensures
        bytes@ == framed_list(utf8_words(words.deep_view())),
{
    bincode::serde::encode_to_vec(words, bincode::config::standard()).expect(
        "a list of strings has an encoding",
    )
}

/// `bincode::serde::decode_from_slice` for a list of strings, in the
/// standard configuration, on bytes that are a framed list. It hands the
/// chunks back as strings, and fails only where a chunk is no UTF-8.
///
/// On other bytes the call may ask for as much memory as a length in them
/// claims before it looks whether that many bytes are there: they are left
/// out.
#[verifier::external_body]
fn decode_list(bytes: &[u8]) -> (words: Option<Vec<String>>)
    requires
        exists|chunks: Seq<Seq<u8>>| countable(chunks) && bytes@ == framed_list(chunks),
    ensures
        forall|chunks: Seq<Seq<u8>>|
            countable(chunks) && bytes@ == #[trigger] framed_list(chunks) ==> {
                &&& all_utf8(chunks) ==> words is Some
                &&& words matches Some(list) ==> utf8_words(list.deep_view()) == chunks
            },
{
    bincode::serde::decode_from_slice::<Vec<String>, _>(bytes, bincode::config::standard())
        .ok()
        .map(|decoded| decoded.0)
}

/// The record of `words`.
pub fn encode_record(words: &Vec<String>) -> (record: Vec<u8>)
    ensures
        record@ == record_of(words.deep_view()),
        countable(utf8_words(words.deep_view())),
{
    // The length of every word is a `usize`, and so below 2^64.
    let mut i: usize = 0;
    while i < words.len()
        invariant
            i <= words.len(),
            forall|j: int|
                0 <= j < i ==> (#[trigger] utf8_words(words.deep_view())[j]).len() <= u64::MAX,
        decreases words.len() - i,
    {
        let size = words[i].as_str().as_bytes().len();
        assert(utf8_words(words.deep_view())[i as int].len() == size);
        i += 1;
    }
    let mut payload = encode_list(words);
    let mut record: Vec<u8> = Vec::new();
    record.push(0x41);
    record.push(0x43);
    record.push(0x49);
    record.push(0x58);
    record.push(0x01);
    record.append(&mut payload);
    assert(record@ =~= record_of(words.deep_view()));
    record
}

/// Whether `bytes` open with the header.
fn has_header(bytes: &[u8]) -> (opens: bool)
    ensures
        opens == header().is_prefix_of(bytes@),
{
    if bytes.len() < 5 {
        return false;
    }
    let opens = bytes[0] == 0x41 && bytes[1] == 0x43 && bytes[2] == 0x49 && bytes[3] == 0x58
        && bytes[4] == 0x01;
    proof {
        let head = bytes@.subrange(0, 5);
        if opens {
            assert(head =~= header());
        } else {
            assert(header()[0] == 0x41 && header()[1] == 0x43 && header()[2] == 0x49 && header()[3]
                == 0x58 && header()[4] == 0x01);
            if header() =~= head {
                assert(head[0] == bytes[0] && head[1] == bytes[1] && head[2] == bytes[2] && head[3]
                    == bytes[3] && head[4] == bytes[4]);
            }
        }
    }
    opens
}

/// Whether one of `words` is the empty string.
fn has_empty_word(words: &Vec<String>) -> (found: bool)
    ensures
        found == !no_empty_word(words.deep_view()),
{
    let mut i: usize = 0;
    while i < words.len()
        invariant
            i <= words.len(),
            forall|j: int| 0 <= j < i ==> (#[trigger] words.deep_view()[j]).len() > 0,
        decreases words.len() - i,
    {
        if words[i].as_str().is_empty() {
            assert(words.deep_view()[i as int].len() == 0);
            return true;
        }
        assert(words.deep_view()[i as int] == words[i as int]@);
        i += 1;
    }
    false
}

/// The word list that `bytes` are the record of. `None` where they are no
/// record: where the header is missing or of another version, where what
/// follows is not a list of UTF-8 strings written as `record_of` says, with
/// nothing behind it, or where a word is empty.
pub fn decode_record(bytes: &[u8]) -> (words: Option<Vec<String>>)
    ensures
        words matches Some(list) ==> is_record(bytes@, list.deep_view()),
        words is None ==> forall|other: Seq<Seq<char>>| !is_record(bytes@, other),
        words is Some <==> restored(bytes@) is Some,
        words matches Some(list) ==> restored(bytes@) == Some(list.deep_view()),
{
    let decoded = decode_frames(bytes);
    proof {
        if decoded is Some {
            let chosen = choose|other: Seq<Seq<char>>| is_record(bytes@, other);
            lemma_record_injective(chosen, decoded->0.deep_view());
        }
    }
    decoded
}

/// `decode_record`, stated without the choice that `restored` makes.
fn decode_frames(bytes: &[u8]) -> (words: Option<Vec<String>>)
    ensures
        words matches Some(list) ==> is_record(bytes@, list.deep_view()),
        words is None ==> forall|other: Seq<Seq<char>>| !is_record(bytes@, other),
{
    if !has_header(bytes) {
        assert forall|other: Seq<Seq<char>>| !is_record(bytes@, other) by {
            if is_record(bytes@, other) {
                assert(header() =~= bytes@.subrange(0, 5));
            }
        }
        return None;
    }
    let payload = slice_subrange(bytes, 5, bytes.len());
    assert(bytes@ =~= header() + payload@);
    let framing = frames(payload);
    if framing.is_none() {
        assert forall|other: Seq<Seq<char>>| !is_record(bytes@, other) by {
            if is_record(bytes@, other) {
                assert(payload@ =~= framed_list(utf8_words(other)));
                assert(countable(utf8_words(other)));
            }
        }
        return None;
    }
    let ghost chunks = framing->0@;
    let list = match decode_list(payload) {
        Some(list) => list,
        None => {
            assert forall|other: Seq<Seq<char>>| !is_record(bytes@, other) by {
                if is_record(bytes@, other) {
                    assert(payload@ =~= framed_list(utf8_words(other)));
                    lemma_framed_list_injective(chunks, utf8_words(other));
                    lemma_utf8_words(other);
                }
            }
            return None;
        },
    };
    if has_empty_word(&list) {
        assert forall|other: Seq<Seq<char>>| !is_record(bytes@, other) by {
            if is_record(bytes@, other) {
                assert(payload@ =~= framed_list(utf8_words(other)));
                lemma_framed_list_injective(chunks, utf8_words(other));
                lemma_utf8_words_injective(other, list.deep_view());
            }
        }
        return None;
    }
    Some(list)
}

/// A record is the record of one word list only.
pub proof fn lemma_record_injective(a: Seq<Seq<char>>, b: Seq<Seq<char>>)
    requires
        countable(utf8_words(a)),
        countable(utf8_words(b)),
        record_of(a) == record_of(b),
    ensures
        a == b,
{
    let bytes = record_of(a);
    assert(framed_list(utf8_words(a)) =~= bytes.skip(5));
    assert(framed_list(utf8_words(b)) =~= bytes.skip(5));
    lemma_framed_list_injective(utf8_words(a), utf8_words(b));
    lemma_utf8_words_injective(a, b);
}

/// What was written is what is read back: the record of a word list
/// restores to that list, and to no other.
pub proof fn lemma_record_round_trip(words: Seq<Seq<char>>)
    requires
        no_empty_word(words),
        countable(utf8_words(words)),
    ensures
        restored(record_of(words)) == Some(words),
{
    let bytes = record_of(words);
    assert(is_record(bytes, words));
    let chosen = choose|other: Seq<Seq<char>>| is_record(bytes, other);
    lemma_record_injective(chosen, words);
}

} // verus!
