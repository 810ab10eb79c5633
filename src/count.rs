use vstd::prelude::*;
use vstd::string::StringSliceAdditionalSpecFns;

verus! {

/// ASCII line feed: the byte that ends a line.
pub const NEWLINE: u8 = 10;

/// ASCII space: the only byte that separates words within a line.
pub const SPACE: u8 = 32;

/// The counts asked for; a count is present exactly when it was requested.
pub struct FileStats {
    pub bytes: Option<usize>,
    pub lines: Option<usize>,
    pub words: Option<usize>,
}

/// The byte at `i` belongs to a word: it is neither a line feed nor a space.
pub open spec fn is_word_byte(b: Seq<u8>, i: int) -> bool {
    b[i] != NEWLINE && b[i] != SPACE
}

/// A word begins at `i`: the first byte of a maximal run of word bytes. Since a
/// line's end is never a word byte, words never span two lines.
pub open spec fn starts_word(b: Seq<u8>, i: int) -> bool {
    is_word_byte(b, i) && (i == 0 || !is_word_byte(b, i - 1))
}

/// How many words begin before position `k`.
pub open spec fn words_before(b: Seq<u8>, k: int) -> nat
    decreases k,
{
    if k <= 0 {
        0
    } else {
        words_before(b, k - 1) + if starts_word(b, k - 1) { 1nat } else { 0nat }
    }
}

/// How many line feeds stand before position `k`.
pub open spec fn newlines_before(b: Seq<u8>, k: int) -> nat
    decreases k,
{
    if k <= 0 {
        0
    } else {
        newlines_before(b, k - 1) + if b[k - 1] == NEWLINE { 1nat } else { 0nat }
    }
}

/// The text ends with a line that no line feed closes.
pub open spec fn has_open_last_line(b: Seq<u8>) -> bool {
    b.len() > 0 && b.last() != NEWLINE
}

/// Number of lines: one per line feed, and one more for a last line without one.
pub open spec fn line_count(b: Seq<u8>) -> nat {
    newlines_before(b, b.len() as int) + if has_open_last_line(b) { 1nat } else { 0nat }
}

/// Sum over the lines of the line's length plus one. Each closed line gives
/// back its bytes with its line feed; a last line without a line feed is still
/// counted one byte longer.
pub open spec fn byte_count(b: Seq<u8>) -> nat {
    b.len() + if has_open_last_line(b) { 1nat } else { 0nat }
}

/// Number of words: the maximal runs of bytes within a line that hold no space.
pub open spec fn word_count(b: Seq<u8>) -> nat {
    words_before(b, b.len() as int)
}

/// `Some(n)` when the count was requested, `None` otherwise.
pub open spec fn requested(wanted: bool, n: nat) -> Option<usize> {
    if wanted {
        Some(n as usize)
    } else {
        None
    }
}

/// The result of counting the text `b` with the given flags.
pub open spec fn stats_of(b: Seq<u8>, want_bytes: bool, want_lines: bool, want_words: bool) -> FileStats {
    FileStats {
        bytes: requested(want_bytes, byte_count(b)),
        lines: requested(want_lines, line_count(b)),
        words: requested(want_words, word_count(b)),
    }
}

proof fn lemma_newlines_bound(b: Seq<u8>, k: int)
    requires
        0 <= k,
    ensures
        newlines_before(b, k) <= k,
    decreases k,
{
    if k > 0 {
        lemma_newlines_bound(b, k - 1);
    }
}

proof fn lemma_words_bound(b: Seq<u8>, k: int)
    requires
        0 <= k,
    ensures
        words_before(b, k) <= k,
    decreases k,
{
    if k > 0 {
        lemma_words_bound(b, k - 1);
    }
}

/// Counts the bytes, lines and words of `content`, read line by line: each
/// line is ended by a line feed. Only the requested counts are present.
pub fn get_stats(content: &str, get_bytes: bool, get_lines: bool, get_words: bool) -> (r:
    FileStats)
    requires
        content.spec_bytes().len() < usize::MAX,
    ensures
        r == stats_of(content.spec_bytes(), get_bytes, get_lines, get_words),
{
    let b = content.as_bytes();
    let n = b.len();
    let mut newlines: usize = 0;
    let mut words: usize = 0;
    let mut prev_in_word = false;
    let mut i: usize = 0;
    while i < n
        invariant
            b@ == content.spec_bytes(),
            n == b@.len(),
            n < usize::MAX,
            0 <= i <= n,
            newlines == newlines_before(b@, i as int),
            words == words_before(b@, i as int),
            prev_in_word == (i > 0 && is_word_byte(b@, i - 1)),
        decreases n - i,
    {
        proof {
            lemma_newlines_bound(b@, i as int);
            lemma_words_bound(b@, i as int);
        }
        let c = b[i];
        if c == NEWLINE {
            newlines = newlines + 1;
        }
        let in_word = c != NEWLINE && c != SPACE;
        if in_word && !prev_in_word {
            words = words + 1;
        }
        prev_in_word = in_word;
        i = i + 1;
    }
    proof {
        lemma_newlines_bound(b@, n as int);
    }
    let open_last = n > 0 && b[n - 1] != NEWLINE;
    let line_total = if open_last {
        newlines + 1
    } else {
        newlines
    };
    let byte_total = if open_last {
        n + 1
    } else {
        n
    };
    FileStats {
        bytes: if get_bytes {
            Some(byte_total)
        } else {
            None
        },
        lines: if get_lines {
            Some(line_total)
        } else {
            None
        },
        words: if get_words {
            Some(words)
        } else {
            None
        },
    }
}

} // verus!
