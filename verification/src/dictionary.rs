//! The dictionary source: plain text with one word on each line.
//!
//! A line ends at a line feed or at the end of the text. Of each line the
//! white space at both ends is dropped, a carriage return before the line
//! feed with it; what is left is a word, unless nothing is left. The words
//! keep the order of their lines, and a word that stands on two lines stands
//! twice in the list.

use vstd::prelude::*;
use crate::words::no_empty_word;

verus! {

/// Whether a character is white space, as Unicode defines the property
/// `White_Space`.
pub open spec fn is_whitespace(c: char) -> bool {
    ||| '\u{9}' <= c <= '\u{d}'
    ||| c == ' '
    ||| c == '\u{85}'
    ||| c == '\u{a0}'
    ||| c == '\u{1680}'
    ||| '\u{2000}' <= c <= '\u{200a}'
    ||| c == '\u{2028}'
    ||| c == '\u{2029}'
    ||| c == '\u{202f}'
    ||| c == '\u{205f}'
    ||| c == '\u{3000}'
}

/// `line` without the white space that it starts with.
pub open spec fn trim_start(line: Seq<char>) -> Seq<char>
    decreases line.len(),
{
    if line.len() > 0 && is_whitespace(line[0]) {
        trim_start(line.drop_first())
    } else {
        line
    }
}

/// `line` without the white space that it ends with.
pub open spec fn trim_end(line: Seq<char>) -> Seq<char>
    decreases line.len(),
{
    if line.len() > 0 && is_whitespace(line.last()) {
        trim_end(line.drop_last())
    } else {
        line
    }
}

/// `line` without the white space at both ends.
pub open spec fn trim(line: Seq<char>) -> Seq<char> {
    trim_end(trim_start(line))
}

/// The number of characters before the first line feed of `text`, or of all
/// its characters where it holds none.
pub open spec fn line_len(text: Seq<char>) -> nat
    decreases text.len(),
{
    if text.len() == 0 || text[0] == '\n' {
        0
    } else {
        1 + line_len(text.drop_first())
    }
}

/// The words of a dictionary text, in the order of their lines.
pub open spec fn dictionary_words(text: Seq<char>) -> Seq<Seq<char>>
    decreases text.len(),
{
    if text.len() == 0 {
        Seq::empty()
    } else {
        let n = line_len(text) as int;
        let word = trim(text.take(n));
        let rest = if n < text.len() {
            dictionary_words(text.skip(n + 1))
        } else {
            Seq::empty()
        };
        if word.len() > 0 {
            seq![word] + rest
        } else {
            rest
        }
    }
}

/// Where no line feed stands before `n`, and one stands at `n` or the text
/// ends there, the first line has `n` characters.
proof fn lemma_line_len(text: Seq<char>, n: int)
    requires
        0 <= n <= text.len(),
        forall|i: int| 0 <= i < n ==> text[i] != '\n',
        n < text.len() ==> text[n] == '\n',
    ensures
        line_len(text) == n,
    decreases n,
{
    if n > 0 {
        let rest = text.drop_first();
        assert forall|i: int| 0 <= i < n - 1 implies rest[i] != '\n' by {
            assert(rest[i] == text[i + 1]);
        }
        lemma_line_len(rest, n - 1);
    }
}

/// Where `line` is white space before `a` and not at `a`, that much is
/// dropped at its start.
proof fn lemma_trim_start(line: Seq<char>, a: int)
    requires
        0 <= a <= line.len(),
        forall|i: int| 0 <= i < a ==> is_whitespace(line[i]),
        a < line.len() ==> !is_whitespace(line[a]),
    ensures
        trim_start(line) == line.skip(a),
    decreases a,
{
    if a > 0 {
        let rest = line.drop_first();
        assert forall|i: int| 0 <= i < a - 1 implies is_whitespace(rest[i]) by {
            assert(rest[i] == line[i + 1]);
        }
        lemma_trim_start(rest, a - 1);
        assert(rest.skip(a - 1) =~= line.skip(a));
    } else {
        assert(line.skip(0) =~= line);
    }
}

/// Where `line` is white space from `b` on and not before `b`, that much is
/// dropped at its end.
proof fn lemma_trim_end(line: Seq<char>, b: int)
    requires
        0 <= b <= line.len(),
        forall|i: int| b <= i < line.len() ==> is_whitespace(line[i]),
        b > 0 ==> !is_whitespace(line[b - 1]),
    ensures
        trim_end(line) == line.take(b),
    decreases line.len() - b,
{
    if b < line.len() {
        let rest = line.drop_last();
        lemma_trim_end(rest, b);
        assert(rest.take(b) =~= line.take(b));
    } else {
        assert(line.take(b) =~= line);
    }
}

/// No word of a dictionary is empty.
pub proof fn lemma_dictionary_words_nonempty(text: Seq<char>)
    ensures
        no_empty_word(dictionary_words(text)),
    decreases text.len(),
{
    if text.len() > 0 {
        let n = line_len(text) as int;
        if n < text.len() {
            lemma_dictionary_words_nonempty(text.skip(n + 1));
        }
    }
}

/// A text of nothing but white space holds no word.
pub proof fn lemma_blank_dictionary(text: Seq<char>)
    requires
        forall|i: int| 0 <= i < text.len() ==> is_whitespace(#[trigger] text[i]),
    ensures
        dictionary_words(text) == Seq::<Seq<char>>::empty(),
    decreases text.len(),
{
    if text.len() > 0 {
        let n = line_len(text) as int;
        lemma_line_len_bound(text);
        let line = text.take(n);
        lemma_trim_start(line, n);
        assert(line.skip(n) =~= Seq::<char>::empty());
        if n < text.len() {
            let rest = text.skip(n + 1);
            assert forall|i: int| 0 <= i < rest.len() implies is_whitespace(#[trigger] rest[i]) by {
                assert(rest[i] == text[i + n + 1]);
            }
            lemma_blank_dictionary(rest);
        }
    }
}

/// The first line is no longer than the text.
proof fn lemma_line_len_bound(text: Seq<char>)
    ensures
        line_len(text) <= text.len(),
    decreases text.len(),
{
    if text.len() > 0 && text[0] != '\n' {
        lemma_line_len_bound(text.drop_first());
    }
}

/// Whether `c` is white space.
pub fn is_blank(c: char) -> (blank: bool)
    ensures
        blank == is_whitespace(c),
{
    ('\u{9}' <= c && c <= '\u{d}') || c == ' ' || c == '\u{85}' || c == '\u{a0}' || c
        == '\u{1680}' || ('\u{2000}' <= c && c <= '\u{200a}') || c == '\u{2028}' || c
        == '\u{2029}' || c == '\u{202f}' || c == '\u{205f}' || c == '\u{3000}'
}

/// `String::push`: one character more at the end.
#[verifier::external_body]
fn push_char(word: &mut String, c: char)
    ensures
        final(word)@ == old(word)@.push(c),
{
    word.push(c)
}

/// The characters of `text`.
fn chars_of(text: &str) -> (chars: Vec<char>)
    ensures
        chars@ == text@,
{
    broadcast use vstd::string::group_string_axioms;

    let mut chars: Vec<char> = Vec::new();
    for c in it: text.chars()
        invariant
            it.seq() == text@,
            chars@ == it.seq().take(it.index()),
    {
        chars.push(c);
    }
    chars
}

/// The characters from `from` to `to` as a string.
fn word_of(chars: &Vec<char>, from: usize, to: usize) -> (word: String)
    requires
        from <= to <= chars.len(),
    ensures
        word@ == chars@.subrange(from as int, to as int),
{
    let mut word = String::new();
    let mut i: usize = from;
    while i < to
        invariant
            from <= i <= to <= chars.len(),
            word@ == chars@.subrange(from as int, i as int),
        decreases to - i,
    {
        push_char(&mut word, chars[i]);
        assert(word@ =~= chars@.subrange(from as int, i + 1));
        i += 1;
    }
    word
}

/// The words of a dictionary text: of each line what is left once the white
/// space at both ends is dropped, unless nothing is left.
pub fn parse_dictionary(text: &str) -> (words: Vec<String>)
    ensures
        words.deep_view() == dictionary_words(text@),
        no_empty_word(words.deep_view()),
{
    let chars = chars_of(text);
    let total = chars.len();
    let mut words: Vec<String> = Vec::new();
    let mut pos: usize = 0;
    proof {
        assert(chars@.skip(0) =~= chars@);
        assert(words.deep_view() =~= Seq::<Seq<char>>::empty());
        assert(words.deep_view() + dictionary_words(chars@.skip(0)) =~= dictionary_words(chars@));
    }
    while pos < total
        invariant
            total == chars.len(),
            pos <= total,
            words.deep_view() + dictionary_words(chars@.skip(pos as int)) == dictionary_words(
                chars@,
            ),
        decreases total - pos,
    {
        let ghost rest = chars@.skip(pos as int);
        let ghost before = words.deep_view();
        let mut end: usize = pos;
        while end < total && chars[end] != '\n'
            invariant
                total == chars.len(),
                pos <= end <= total,
                forall|i: int| pos <= i < end ==> chars@[i] != '\n',
            decreases total - end,
        {
            end += 1;
        }
        let mut from: usize = pos;
        while from < end && is_blank(chars[from])
            invariant
                total == chars.len(),
                pos <= from <= end <= total,
                forall|i: int| pos <= i < from ==> is_whitespace(chars@[i]),
            decreases end - from,
        {
            from += 1;
        }
        let mut to: usize = end;
        while to > from && is_blank(chars[to - 1])
            invariant
                total == chars.len(),
                from <= to <= end <= total,
                forall|i: int| to <= i < end ==> is_whitespace(chars@[i]),
            decreases to,
        {
            to -= 1;
        }
        proof {
            let n = end - pos;
            let line = rest.take(n);
            lemma_line_len(rest, n);
            lemma_trim_start(line, from - pos);
            let tail = line.skip(from - pos);
            lemma_trim_end(tail, to - from);
            assert(tail.take(to - from) =~= chars@.subrange(from as int, to as int));
            assert(trim(line) == chars@.subrange(from as int, to as int));
            if end < total {
                assert(rest.skip(n + 1) =~= chars@.skip(end + 1));
            }
        }
        if from < to {
            let word = word_of(&chars, from, to);
            words.push(word);
            proof {
                assert(words.deep_view() =~= before.push(word@));
            }
        }
        if end < total {
            pos = end + 1;
        } else {
            pos = end;
            proof {
                assert(dictionary_words(chars@.skip(pos as int)) =~= Seq::<Seq<char>>::empty());
            }
        }
        proof {
            assert(words.deep_view() + dictionary_words(chars@.skip(pos as int)) =~= before
                + dictionary_words(rest));
        }
    }
    proof {
        assert(dictionary_words(chars@.skip(pos as int)) =~= Seq::<Seq<char>>::empty());
        assert(words.deep_view() =~= dictionary_words(chars@));
        lemma_dictionary_words_nonempty(text@);
    }
    words
}

} // verus!
