//! Line, word and byte counting for one input, and the right-aligned count
//! rows built from the totals.

use vstd::prelude::*;

use crate::textfmt::pad_number;
use crate::textfmt::padded_left;
use crate::numbers::dec_digits;

verus! {

/// The counts of one input.  Character counting follows the byte count: the
/// tallies index the raw byte form of the input.
#[derive(Clone, Copy, Debug, PartialEq, Eq, Structural)]
pub struct FileInfo {
    pub num_lines: usize,
    pub num_words: usize,
    pub num_bytes: usize,
    pub num_chars: usize,
}

/// An ASCII whitespace byte: space, tab, line feed, form feed or carriage
/// return.
pub open spec fn is_ascii_ws(b: u8) -> bool {
    b == 32 || b == 9 || b == 10 || b == 12 || b == 13
}

/// How many line-feed bytes `s` holds.
pub open spec fn newline_count(s: Seq<u8>) -> nat
    decreases s.len(),
{
    if s.len() == 0 {
        0
    } else {
        newline_count(s.drop_last()) + (if s.last() == 10 {
            1nat
        } else {
            0nat
        })
    }
}

/// How many lines `s` holds: one per line feed, plus a final unterminated
/// line when the input is nonempty and does not end in a line feed.
pub open spec fn line_count(s: Seq<u8>) -> nat {
    newline_count(s) + (if s.len() > 0 && s.last() != 10 {
        1nat
    } else {
        0nat
    })
}

/// Whether a word starts at index `i`: a non-whitespace byte at the start of
/// the input or right after a whitespace byte.
pub open spec fn word_starts_at(s: Seq<u8>, i: int) -> bool {
    &&& 0 <= i < s.len()
    &&& !is_ascii_ws(s[i])
    &&& (i == 0 || is_ascii_ws(s[i - 1]))
}

/// How many words `s` holds: maximal runs of non-whitespace bytes.
pub open spec fn word_count(s: Seq<u8>) -> nat
    decreases s.len(),
{
    if s.len() == 0 {
        0
    } else {
        word_count(s.drop_last()) + (if word_starts_at(s, s.len() - 1) {
            1nat
        } else {
            0nat
        })
    }
}

proof fn lemma_newline_count_le(s: Seq<u8>)
    ensures
        newline_count(s) <= s.len(),
    decreases s.len(),
{
    if s.len() > 0 {
        lemma_newline_count_le(s.drop_last());
    }
}

/// Count the lines, words and bytes of one input, given as its raw bytes.
///
/// Lines are line-feed-terminated, with a trailing unterminated line
/// counted; words are maximal runs of bytes that are not ASCII whitespace;
/// the character tally equals the byte tally, as the counts index bytes.
pub fn count(text: &[u8]) -> (r: FileInfo)
    ensures
        r.num_lines == line_count(text@),
        r.num_words == word_count(text@),
        r.num_bytes == text@.len(),
        r.num_chars == text@.len(),
{
    let n = text.len();
    let mut newlines: usize = 0;
    let mut words: usize = 0;
    let mut i: usize = 0;
    proof {
        assert(text@.take(0) =~= Seq::<u8>::empty());
    }
    while i < n
        invariant
            0 <= i <= n,
            n == text@.len(),
            newlines == newline_count(text@.take(i as int)),
            words == word_count(text@.take(i as int)),
            newlines <= i,
            words <= i,
        decreases n - i,
    {
        let b = text[i];
        proof {
            let t = text@.take(i + 1);
            assert(t.drop_last() =~= text@.take(i as int));
            assert(t.last() == text@[i as int]);
            assert(word_starts_at(t, i as int) == word_starts_at(text@, i as int));
        }
        let ws = b == 32 || b == 9 || b == 10 || b == 12 || b == 13;
        if !ws {
            let prev_ws = if i == 0 {
                true
            } else {
                let p = text[i - 1];
                p == 32 || p == 9 || p == 10 || p == 12 || p == 13
            };
            if prev_ws {
                words = words + 1;
            }
        }
        if b == 10 {
            newlines = newlines + 1;
        }
        i = i + 1;
    }
    proof {
        assert(text@.take(n as int) =~= text@);
    }
    let mut lines: usize = newlines;
    if n > 0 && text[n - 1] != 10 {
        proof {
            assert(text@.drop_last() =~= text@.take(n - 1));
            lemma_newline_count_le(text@.drop_last());
            assert(newline_count(text@) == newline_count(text@.drop_last()));
        }
        lines = newlines + 1;
    }
    FileInfo { num_lines: lines, num_words: words, num_bytes: n, num_chars: n }
}

impl FileInfo {
    /// Running totals across several inputs.
    pub fn add(&self, other: &FileInfo) -> (r: FileInfo)
        requires
            self.num_lines + other.num_lines <= usize::MAX,
            self.num_words + other.num_words <= usize::MAX,
            self.num_bytes + other.num_bytes <= usize::MAX,
            self.num_chars + other.num_chars <= usize::MAX,
        ensures
            r.num_lines == self.num_lines + other.num_lines,
            r.num_words == self.num_words + other.num_words,
            r.num_bytes == self.num_bytes + other.num_bytes,
            r.num_chars == self.num_chars + other.num_chars,
    {
        FileInfo {
            num_lines: self.num_lines + other.num_lines,
            num_words: self.num_words + other.num_words,
            num_bytes: self.num_bytes + other.num_bytes,
            num_chars: self.num_chars + other.num_chars,
        }
    }
}

/// One count, rendered as a right-aligned cell of width eight when shown,
/// and as nothing when hidden.
pub open spec fn count_cell(n: nat, show: bool) -> Seq<char> {
    if show {
        padded_left(dec_digits(n), 8)
    } else {
        Seq::empty()
    }
}

/// The row of counts for one input: the shown tallies in line, word, byte,
/// character order, each right-aligned to eight columns.
pub fn format_counts(
    info: &FileInfo,
    show_lines: bool,
    show_words: bool,
    show_bytes: bool,
    show_chars: bool,
) -> (r: String)
    ensures
        r@ == count_cell(info.num_lines as nat, show_lines) + count_cell(
            info.num_words as nat,
            show_words,
        ) + count_cell(info.num_bytes as nat, show_bytes) + count_cell(
            info.num_chars as nat,
            show_chars,
        ),
{
    let mut out = String::new();
    if show_lines {
        let cell = pad_number(info.num_lines, 8);
        out.append(cell.as_str());
    }
    if show_words {
        let cell = pad_number(info.num_words, 8);
        out.append(cell.as_str());
    }
    if show_bytes {
        let cell = pad_number(info.num_bytes, 8);
        out.append(cell.as_str());
    }
    if show_chars {
        let cell = pad_number(info.num_chars, 8);
        out.append(cell.as_str());
    }
    proof {
        assert(out@ =~= count_cell(info.num_lines as nat, show_lines) + count_cell(
            info.num_words as nat,
            show_words,
        ) + count_cell(info.num_bytes as nat, show_bytes) + count_cell(
            info.num_chars as nat,
            show_chars,
        ));
    }
    out
}

} // verus!
