//! The leftmost-first, non-overlapping scan of a text for a list of words,
//! stated over bytes.
//!
//! A scan walks the text from left to right. At each step it reports the
//! occurrence that starts earliest at or after the point where it resumes;
//! where several words occur at that same offset, the word that stands first
//! in the list wins. It then resumes right after the reported occurrence.

use vstd::prelude::*;

verus! {

/// One occurrence that a scan reports: the half-open byte range
/// `[start, end)` of the text, and the ordinal of the word found there.
pub struct Span {
    pub start: int,
    pub end: int,
    pub word: int,
}

/// Whether `word` stands in `text` at byte offset `at`.
pub open spec fn occurs_at(word: Seq<u8>, text: Seq<u8>, at: int) -> bool {
    &&& 0 <= at
    &&& at + word.len() <= text.len()
    &&& text.subrange(at, at + word.len()) == word
}

/// Whether every word of the list holds at least one byte.
pub open spec fn all_nonempty(words: Seq<Seq<u8>>) -> bool {
    forall|j: int| 0 <= j < words.len() ==> (#[trigger] words[j]).len() > 0
}

/// No word of the list stands in `text` at an offset in `[from, to)`.
pub open spec fn none_within(words: Seq<Seq<u8>>, text: Seq<u8>, from: int, to: int) -> bool {
    forall|at: int, j: int|
        from <= at < to && 0 <= j < words.len() ==> !#[trigger] occurs_at(words[j], text, at)
}

/// No word that stands before ordinal `word` in the list occurs at `at`.
pub open spec fn none_earlier(words: Seq<Seq<u8>>, text: Seq<u8>, at: int, word: int) -> bool {
    forall|j: int| 0 <= j < word ==> !#[trigger] occurs_at(words[j], text, at)
}

/// The offset at which a scan looks for its `k`-th span: the start of the
/// text for the first, the end of the span before for every other.
pub open spec fn resume_at(spans: Seq<Span>, k: int) -> int {
    if k <= 0 {
        0
    } else {
        spans[k - 1].end
    }
}

/// Whether `span` is what a leftmost-first search that starts at `from`
/// reports: the earliest occurrence of any word, and at that offset the
/// word that comes first in the list.
pub open spec fn is_next(words: Seq<Seq<u8>>, text: Seq<u8>, from: int, span: Span) -> bool {
    &&& from <= span.start
    &&& 0 <= span.word < words.len()
    &&& occurs_at(words[span.word], text, span.start)
    &&& span.end == span.start + words[span.word].len()
    &&& none_within(words, text, from, span.start)
    &&& none_earlier(words, text, span.start, span.word)
}

/// Whether the `k`-th of `spans` is the next one after the span before it.
pub open spec fn is_step(words: Seq<Seq<u8>>, text: Seq<u8>, spans: Seq<Span>, k: int) -> bool {
    is_next(words, text, resume_at(spans, k), spans[k])
}

/// Whether `spans` is the whole leftmost-first, non-overlapping scan of
/// `text`: each span is the next one after the span before it, and nothing
/// occurs after the last.
pub open spec fn is_scan(words: Seq<Seq<u8>>, text: Seq<u8>, spans: Seq<Span>) -> bool {
    &&& forall|k: int| 0 <= k < spans.len() ==> #[trigger] is_step(words, text, spans, k)
    &&& none_within(words, text, resume_at(spans, spans.len() as int), text.len() as int + 1)
}

/// The scan of `text` for `words`.
pub open spec fn scan(words: Seq<Seq<u8>>, text: Seq<u8>) -> Seq<Span> {
    choose|spans: Seq<Span>| is_scan(words, text, spans)
}

/// Two scans of one text for one list agree on every span that both hold.
proof fn lemma_scans_agree(
    words: Seq<Seq<u8>>,
    text: Seq<u8>,
    a: Seq<Span>,
    b: Seq<Span>,
    k: int,
)
    requires
        is_scan(words, text, a),
        is_scan(words, text, b),
        0 <= k <= a.len(),
        k <= b.len(),
    ensures
        forall|i: int| 0 <= i < k ==> a[i] == b[i],
    decreases k,
{
    if k > 0 {
        lemma_scans_agree(words, text, a, b, k - 1);
        // Both spans are the next one from the same offset: neither starts
        // before the other, and neither holds a later word than the other.
        let x = a[k - 1];
        let y = b[k - 1];
        let from = resume_at(a, k - 1);
        assert(from == resume_at(b, k - 1));
        assert(is_step(words, text, a, k - 1));
        assert(is_step(words, text, b, k - 1));
        assert(occurs_at(words[x.word], text, x.start));
        assert(occurs_at(words[y.word], text, y.start));
        assert(x.start == y.start);
        assert(x.word == y.word);
        assert(x == y);
    }
}

/// A text has one scan only.
pub proof fn lemma_scan_unique(words: Seq<Seq<u8>>, text: Seq<u8>, a: Seq<Span>, b: Seq<Span>)
    requires
        is_scan(words, text, a),
        is_scan(words, text, b),
    ensures
        a == b,
{
    let n = if a.len() <= b.len() {
        a.len() as int
    } else {
        b.len() as int
    };
    lemma_scans_agree(words, text, a, b, n);
    // The longer of two scans would hold a span where the shorter one has
    // found that nothing more occurs.
    if a.len() < b.len() {
        let y = b[n];
        assert(is_step(words, text, b, n));
        assert(occurs_at(words[y.word], text, y.start));
        assert(resume_at(a, n) == resume_at(b, n));
        assert(false);
    }
    if b.len() < a.len() {
        let x = a[n];
        assert(is_step(words, text, a, n));
        assert(occurs_at(words[x.word], text, x.start));
        assert(resume_at(a, n) == resume_at(b, n));
        assert(false);
    }
    assert(a =~= b);
}

/// The ordinal of the first word from ordinal `j` on that occurs at `at`,
/// or the number of words where none does.
spec fn first_word_from(words: Seq<Seq<u8>>, text: Seq<u8>, at: int, j: int) -> int
    decreases words.len() - j,
{
    if j < 0 || j >= words.len() {
        words.len() as int
    } else if occurs_at(words[j], text, at) {
        j
    } else {
        first_word_from(words, text, at, j + 1)
    }
}

/// The spans that a scan reports when it starts at `from`.
spec fn scan_from(words: Seq<Seq<u8>>, text: Seq<u8>, from: int) -> Seq<Span>
    decreases text.len() - from,
{
    if from < 0 || from >= text.len() {
        Seq::empty()
    } else {
        let word = first_word_from(words, text, from, 0);
        if 0 <= word < words.len() && 0 < words[word].len() <= text.len() - from {
            seq![Span { start: from, end: from + words[word].len(), word }] + scan_from(
                words,
                text,
                from + words[word].len(),
            )
        } else {
            scan_from(words, text, from + 1)
        }
    }
}

/// Whether the `k`-th of `spans` is the next one after the span before it,
/// in a scan that starts at `from`.
spec fn is_step_from(
    words: Seq<Seq<u8>>,
    text: Seq<u8>,
    from: int,
    spans: Seq<Span>,
    k: int,
) -> bool {
    is_next(
        words,
        text,
        if k <= 0 {
            from
        } else {
            spans[k - 1].end
        },
        spans[k],
    )
}

/// Whether `spans` is the whole scan of `text` from offset `from` on.
spec fn is_scan_from(words: Seq<Seq<u8>>, text: Seq<u8>, from: int, spans: Seq<Span>) -> bool {
    &&& forall|k: int| 0 <= k < spans.len() ==> #[trigger] is_step_from(words, text, from, spans, k)
    &&& none_within(
        words,
        text,
        if spans.len() == 0 {
            from
        } else {
            spans.last().end
        },
        text.len() as int + 1,
    )
}

/// `first_word_from` finds the first word that occurs, if one does.
proof fn lemma_first_word_from(words: Seq<Seq<u8>>, text: Seq<u8>, at: int, j: int)
    requires
        0 <= j <= words.len(),
    ensures
        j <= first_word_from(words, text, at, j) <= words.len(),
        first_word_from(words, text, at, j) < words.len() ==> occurs_at(
            words[first_word_from(words, text, at, j)],
            text,
            at,
        ),
        forall|i: int|
            j <= i < first_word_from(words, text, at, j) ==> !#[trigger] occurs_at(
                words[i],
                text,
                at,
            ),
    decreases words.len() - j,
{
    if j < words.len() && !occurs_at(words[j], text, at) {
        lemma_first_word_from(words, text, at, j + 1);
    }
}

/// What `scan_from` gives is the scan from that offset on.
proof fn lemma_scan_from(words: Seq<Seq<u8>>, text: Seq<u8>, from: int)
    requires
        all_nonempty(words),
        0 <= from,
    ensures
        is_scan_from(words, text, from, scan_from(words, text, from)),
    decreases text.len() - from,
{
    let spans = scan_from(words, text, from);
    if from >= text.len() {
        assert forall|at: int, j: int| from <= at < text.len() + 1 && 0 <= j < words.len() implies !
        #[trigger] occurs_at(words[j], text, at) by {
            assert(words[j].len() > 0);
        }
    } else {
        lemma_first_word_from(words, text, from, 0);
        let word = first_word_from(words, text, from, 0);
        if word < words.len() {
            assert(words[word].len() > 0);
            let span = Span { start: from, end: from + words[word].len(), word };
            let rest = scan_from(words, text, span.end);
            lemma_scan_from(words, text, span.end);
            assert(spans == seq![span] + rest);
            assert forall|k: int| 0 <= k < spans.len() implies #[trigger] is_step_from(
                words,
                text,
                from,
                spans,
                k,
            ) by {
                if k > 0 {
                    assert(is_step_from(words, text, span.end, rest, k - 1));
                    assert(spans[k] == rest[k - 1]);
                    if k > 1 {
                        assert(spans[k - 1] == rest[k - 2]);
                    }
                }
            }
            if rest.len() > 0 {
                assert(spans.last() == rest.last());
            }
        } else {
            let rest = scan_from(words, text, from + 1);
            lemma_scan_from(words, text, from + 1);
            assert(spans == rest);
            assert forall|k: int| 0 <= k < spans.len() implies #[trigger] is_step_from(
                words,
                text,
                from,
                spans,
                k,
            ) by {
                assert(is_step_from(words, text, from + 1, rest, k));
            }
        }
    }
}

/// Every text has a scan for words that are not empty, and `scan` is it.
pub proof fn lemma_scan_exists(words: Seq<Seq<u8>>, text: Seq<u8>)
    requires
        all_nonempty(words),
    ensures
        is_scan(words, text, scan(words, text)),
{
    let spans = scan_from(words, text, 0);
    lemma_scan_from(words, text, 0);
    assert forall|k: int| 0 <= k < spans.len() implies #[trigger] is_step(words, text, spans, k) by {
        assert(is_step_from(words, text, 0, spans, k));
    }
    assert(is_scan(words, text, spans));
}

/// Whatever meets `is_scan` is the scan.
pub proof fn lemma_scan_is(words: Seq<Seq<u8>>, text: Seq<u8>, spans: Seq<Span>)
    requires
        is_scan(words, text, spans),
    ensures
        scan(words, text) == spans,
{
    lemma_scan_unique(words, text, scan(words, text), spans);
}

/// Every span of a scan for non-empty words holds at least one byte and lies
/// within the text.
pub proof fn lemma_span_bounds(words: Seq<Seq<u8>>, text: Seq<u8>, spans: Seq<Span>, i: int)
    requires
        all_nonempty(words),
        is_scan(words, text, spans),
        0 <= i < spans.len(),
    ensures
        0 <= spans[i].start < spans[i].end <= text.len(),
        resume_at(spans, i) <= spans[i].start,
        0 <= resume_at(spans, i),
    decreases i,
{
    assert(is_step(words, text, spans, i));
    if i > 0 {
        lemma_span_bounds(words, text, spans, i - 1);
    }
}

/// The spans of a scan come in ascending order and do not overlap: each one
/// ends before or where every later one starts.
pub proof fn lemma_scan_ordered(
    words: Seq<Seq<u8>>,
    text: Seq<u8>,
    spans: Seq<Span>,
    i: int,
    j: int,
)
    requires
        all_nonempty(words),
        is_scan(words, text, spans),
        0 <= i < j < spans.len(),
    ensures
        spans[i].end <= spans[j].start,
    decreases j - i,
{
    lemma_span_bounds(words, text, spans, j);
    if i + 1 < j {
        lemma_scan_ordered(words, text, spans, i, j - 1);
        lemma_span_bounds(words, text, spans, j - 1);
    }
}

} // verus!
