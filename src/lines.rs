//! Splitting text into lines and lines into white-space separated tokens.
use vstd::prelude::*;
use crate::text::{is_space, CARRIAGE_RETURN, NEWLINE};

verus! {

/// The number of bytes before the first line feed (all of them if none).
pub open spec fn line_len(b: Seq<u8>) -> nat
    decreases b.len(),
{
    if b.len() == 0 || b[0] == NEWLINE {
        0
    } else {
        1 + line_len(b.drop_first())
    }
}

/// A line without its trailing carriage return, if it has one.
pub open spec fn strip_cr(l: Seq<u8>) -> Seq<u8> {
    if l.len() > 0 && l.last() == CARRIAGE_RETURN {
        l.drop_last()
    } else {
        l
    }
}

/// The lines of a text: the pieces between line feeds, each without a
/// trailing carriage return. A final line feed ends the last line and starts
/// no new one.
pub open spec fn split_lines(b: Seq<u8>) -> Seq<Seq<u8>>
    decreases b.len(),
{
    if b.len() == 0 {
        seq![]
    } else {
        let n = line_len(b);
        if n < b.len() {
            seq![strip_cr(b.take(n as int))] + split_lines(b.skip(n + 1 as int))
        } else {
            seq![strip_cr(b)]
        }
    }
}

/// The number of bytes before the first white space (all of them if none).
pub open spec fn word_len(l: Seq<u8>) -> nat
    decreases l.len(),
{
    if l.len() == 0 || is_space(l[0]) {
        0
    } else {
        1 + word_len(l.drop_first())
    }
}

/// The maximal runs of non-white-space bytes of a line, in order.
pub open spec fn tokens(l: Seq<u8>) -> Seq<Seq<u8>>
    decreases l.len(),
{
    if l.len() == 0 {
        seq![]
    } else if is_space(l[0]) {
        tokens(l.drop_first())
    } else {
        let n = word_len(l);
        if 0 < n <= l.len() {
            seq![l.take(n as int)] + tokens(l.skip(n as int))
        } else {
            seq![]
        }
    }
}

pub proof fn lemma_line_len(b: Seq<u8>, n: int)
    requires
        0 <= n <= b.len(),
        forall|j: int| 0 <= j < n ==> b[j] != NEWLINE,
        n < b.len() ==> b[n] == NEWLINE,
    ensures
        line_len(b) == n,
    decreases n,
{
    if n > 0 {
        lemma_line_len(b.drop_first(), n - 1);
    }
}

pub proof fn lemma_word_len(l: Seq<u8>, n: int)
    requires
        0 <= n <= l.len(),
        forall|j: int| 0 <= j < n ==> !is_space(#[trigger] l[j]),
        n < l.len() ==> is_space(l[n]),
    ensures
        word_len(l) == n,
    decreases n,
{
    if n > 0 {
        let t = l.drop_first();
        assert forall|j: int| 0 <= j < n - 1 implies !is_space(#[trigger] t[j]) by {
            assert(t[j] == l[j + 1]);
        }
        lemma_word_len(t, n - 1);
    }
}

/// Token positions: pairs of start and end offsets into a byte slice.
pub open spec fn token_spans(b: Seq<u8>, spans: Seq<(usize, usize)>) -> Seq<Seq<u8>> {
    spans.map_values(|s: (usize, usize)| b.subrange(s.0 as int, s.1 as int))
}

/// The positions of the tokens of `b[start..stop]`.
pub fn tokenize(b: &[u8], start: usize, stop: usize) -> (spans: Vec<(usize, usize)>)
    requires
        start <= stop <= b@.len(),
    ensures
        token_spans(b@, spans@) == tokens(b@.subrange(start as int, stop as int)),
        forall|k: int|
            0 <= k < spans@.len() ==> start <= (#[trigger] spans@[k]).0 < spans@[k].1 <= stop,
{
    let mut spans: Vec<(usize, usize)> = Vec::new();
    let mut i: usize = start;
    while i < stop
        invariant
            start <= i <= stop <= b@.len(),
            token_spans(b@, spans@) + tokens(b@.subrange(i as int, stop as int)) == tokens(
                b@.subrange(start as int, stop as int),
            ),
            forall|k: int|
                0 <= k < spans@.len() ==> start <= (#[trigger] spans@[k]).0 < spans@[k].1
                    <= stop,
        decreases stop - i,
    {
        let ghost rest = b@.subrange(i as int, stop as int);
        if b[i] == 32 || (9 <= b[i] && b[i] <= 13) {
            assert(rest.drop_first() =~= b@.subrange(i + 1, stop as int));
            i += 1;
        } else {
            let mut j: usize = i + 1;
            while j < stop && !(b[j] == 32 || (9 <= b[j] && b[j] <= 13))
                invariant
                    i < j <= stop <= b@.len(),
                    forall|k: int| i <= k < j ==> !is_space(#[trigger] b@[k]),
                decreases stop - j,
            {
                j += 1;
            }
            proof {
                assert forall|k: int| 0 <= k < j - i implies !is_space(#[trigger] rest[k]) by {
                    assert(rest[k] == b@[i + k]);
                }
                lemma_word_len(rest, j - i);
                assert(rest.take(j - i) =~= b@.subrange(i as int, j as int));
                assert(rest.skip(j - i) =~= b@.subrange(j as int, stop as int));
            }
            let ghost before = spans@;
            spans.push((i, j));
            proof {
                assert(token_spans(b@, spans@) =~= token_spans(b@, before).push(
                    b@.subrange(i as int, j as int),
                ));
                assert(token_spans(b@, spans@) + tokens(b@.subrange(j as int, stop as int))
                    =~= token_spans(b@, before) + tokens(rest));
            }
            i = j;
        }
    }
    assert(token_spans(b@, spans@) + tokens(b@.subrange(i as int, stop as int))
        =~= token_spans(b@, spans@));
    spans
}

} // verus!
