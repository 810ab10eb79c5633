use vstd::prelude::*;

use crate::count::{
    byte_count, has_open_last_line, is_word_byte, line_count, newlines_before, requested,
    starts_word, stats_of, word_count, words_before, FileStats, NEWLINE, SPACE,
};

verus! {

/// Each count depends on its own flag alone: turning the other counters on or
/// off never changes it.
pub proof fn lemma_flags_independent(
    b: Seq<u8>,
    bytes1: bool,
    lines1: bool,
    words1: bool,
    bytes2: bool,
    lines2: bool,
    words2: bool,
)
    ensures
        bytes1 == bytes2 ==> stats_of(b, bytes1, lines1, words1).bytes == stats_of(
            b,
            bytes2,
            lines2,
            words2,
        ).bytes,
        lines1 == lines2 ==> stats_of(b, bytes1, lines1, words1).lines == stats_of(
            b,
            bytes2,
            lines2,
            words2,
        ).lines,
        words1 == words2 ==> stats_of(b, bytes1, lines1, words1).words == stats_of(
            b,
            bytes2,
            lines2,
            words2,
        ).words,
{
}

/// In empty text every requested count is zero.
pub proof fn lemma_empty_text(want_bytes: bool, want_lines: bool, want_words: bool)
    ensures
        stats_of(Seq::empty(), want_bytes, want_lines, want_words) == (FileStats {
            bytes: requested(want_bytes, 0),
            lines: requested(want_lines, 0),
            words: requested(want_words, 0),
        }),
{
    let e = Seq::<u8>::empty();
    assert(newlines_before(e, 0) == 0);
    assert(words_before(e, 0) == 0);
}

/// With no flag set, no count is present, whatever the text.
pub proof fn lemma_no_flags(b: Seq<u8>)
    ensures
        stats_of(b, false, false, false) == (FileStats { bytes: None, lines: None, words: None }),
{
}

/// Where positions `o1..o1 + d` of `s1` and `o2..o2 + d` of `s2` begin words
/// alike, both stretches hold the same number of word beginnings.
proof fn lemma_words_shift(s1: Seq<u8>, s2: Seq<u8>, o1: int, o2: int, d: int)
    requires
        0 <= o1,
        0 <= o2,
        0 <= d,
        forall|p: int|
            o1 <= p < o1 + d ==> #[trigger] starts_word(s1, p) == starts_word(s2, p + (o2 - o1)),
    ensures
        words_before(s1, o1 + d) - words_before(s1, o1) == words_before(s2, o2 + d)
            - words_before(s2, o2),
    decreases d,
{
    if d > 0 {
        lemma_words_shift(s1, s2, o1, o2, d - 1);
        assert(starts_word(s1, o1 + (d - 1)) == starts_word(s2, (o1 + (d - 1)) + (o2 - o1)));
    }
}

/// A space that stands next to a space or a line feed, or at the start or the
/// end of the text, changes no word count: runs of spaces count as one
/// separator, and leading or trailing spaces on a line add no word.
pub proof fn lemma_space_beside_separator(a: Seq<u8>, c: Seq<u8>)
    requires
        a.len() == 0 || a.last() == SPACE || a.last() == NEWLINE || c.len() == 0 || c[0] == SPACE
            || c[0] == NEWLINE,
    ensures
        word_count(a + seq![SPACE] + c) == word_count(a + c),
{
    let s1 = a + c;
    let s2 = a + seq![SPACE] + c;
    let m = a.len() as int;
    let d = c.len() as int;
    assert(s1.len() == m + d);
    assert(s2.len() == m + 1 + d);
    assert forall|p: int| 0 <= p < m implies #[trigger] starts_word(s1, p) == starts_word(
        s2,
        p + (0 - 0),
    ) by {
        assert(s1[p] == a[p] && s2[p] == a[p]);
        if p > 0 {
            assert(s1[p - 1] == a[p - 1] && s2[p - 1] == a[p - 1]);
        }
    }
    lemma_words_shift(s1, s2, 0, 0, m);
    assert(s2[m] == SPACE);
    assert(!starts_word(s2, m));
    assert(words_before(s2, m + 1) == words_before(s2, m));
    assert forall|p: int| m <= p < m + d implies #[trigger] starts_word(s1, p) == starts_word(
        s2,
        p + ((m + 1) - m),
    ) by {
        assert(s1[p] == c[p - m] && s2[p + 1] == c[p - m]);
        if p > m {
            assert(s1[p - 1] == c[p - 1 - m] && s2[p] == c[p - 1 - m]);
        } else if m > 0 {
            assert(s1[p - 1] == a.last());
            assert(c[0] == s1[p]);
        }
    }
    lemma_words_shift(s1, s2, m, m + 1, d);
}

/// Where no word begins in positions `lo..k`, as many words begin before `k`
/// as before `lo`.
proof fn lemma_no_starts(s: Seq<u8>, lo: int, k: int)
    requires
        0 <= lo <= k,
        forall|p: int| lo <= p < k ==> !#[trigger] starts_word(s, p),
    ensures
        words_before(s, k) == words_before(s, lo),
    decreases k - lo,
{
    if k > lo {
        lemma_no_starts(s, lo, k - 1);
        assert(!starts_word(s, k - 1));
    }
}

/// A run of word bytes from `lo` to `k` holds one word beginning, at `lo`,
/// where no word byte stands right before it.
proof fn lemma_one_run(s: Seq<u8>, lo: int, k: int)
    requires
        0 <= lo < k <= s.len(),
        lo == 0 || !is_word_byte(s, lo - 1),
        forall|i: int| lo <= i < k ==> #[trigger] is_word_byte(s, i),
    ensures
        words_before(s, k) == words_before(s, lo) + 1,
{
    assert(starts_word(s, lo));
    assert forall|p: int| lo + 1 <= p < k implies !#[trigger] starts_word(s, p) by {
        assert(is_word_byte(s, p - 1));
    }
    lemma_no_starts(s, lo + 1, k);
}

/// Bytes that never end or split a word: no space and no line feed.
pub open spec fn plain(x: Seq<u8>) -> bool {
    forall|i: int| 0 <= i < x.len() ==> x[i] != SPACE && x[i] != NEWLINE
}

/// ASCII horizontal tab.
pub const TAB: u8 = 9;

/// A tab does not separate words: two tokens joined by a tab are one word.
pub proof fn lemma_tab_joins(x: Seq<u8>, y: Seq<u8>)
    requires
        plain(x),
        plain(y),
    ensures
        word_count(x + seq![TAB] + y) == 1,
{
    let s = x + seq![TAB] + y;
    let m = x.len() as int;
    assert forall|i: int| 0 <= i < s.len() implies is_word_byte(s, i) by {
        if i < m {
            assert(s[i] == x[i]);
        } else if i > m {
            assert(s[i] == y[i - m - 1]);
        } else {
            assert(s[i] == TAB);
        }
    }
    assert(words_before(s, 0) == 0);
    lemma_one_run(s, 0, s.len() as int);
}

/// A single space does separate words: two tokens joined by one space are two
/// words.
pub proof fn lemma_space_splits(x: Seq<u8>, y: Seq<u8>)
    requires
        plain(x),
        plain(y),
        x.len() > 0,
        y.len() > 0,
    ensures
        word_count(x + seq![SPACE] + y) == 2,
{
    let s = x + seq![SPACE] + y;
    let m = x.len() as int;
    assert forall|i: int| 0 <= i < s.len() && i != m implies #[trigger] is_word_byte(s, i) by {
        if i < m {
            assert(s[i] == x[i]);
        } else {
            assert(s[i] == y[i - m - 1]);
        }
    }
    assert(s[m] == SPACE);
    assert(words_before(s, 0) == 0);
    lemma_one_run(s, 0, m);
    assert(!starts_word(s, m));
    assert(words_before(s, m + 1) == words_before(s, m));
    lemma_one_run(s, m + 1, s.len() as int);
}

/// Where positions `o1..o1 + d` of `s1` and `o2..o2 + d` of `s2` hold the
/// same bytes, both stretches hold the same number of line feeds.
proof fn lemma_newlines_shift(s1: Seq<u8>, s2: Seq<u8>, o1: int, o2: int, d: int)
    requires
        0 <= o1,
        0 <= o2,
        0 <= d,
        forall|p: int| o1 <= p < o1 + d ==> #[trigger] s1[p] == s2[p + (o2 - o1)],
    ensures
        newlines_before(s1, o1 + d) - newlines_before(s1, o1) == newlines_before(s2, o2 + d)
            - newlines_before(s2, o2),
    decreases d,
{
    if d > 0 {
        lemma_newlines_shift(s1, s2, o1, o2, d - 1);
        assert(s1[o1 + (d - 1)] == s2[(o1 + (d - 1)) + (o2 - o1)]);
    }
}

/// The counts of text `t` that ends where a line ends are kept by any text `s`
/// that begins with it.
proof fn lemma_prefix_counts(t: Seq<u8>, s: Seq<u8>)
    requires
        !has_open_last_line(t),
        t.len() <= s.len(),
        s.take(t.len() as int) == t,
    ensures
        newlines_before(s, t.len() as int) == newlines_before(t, t.len() as int),
        words_before(s, t.len() as int) == words_before(t, t.len() as int),
{
    let n = t.len() as int;
    assert forall|p: int| 0 <= p < n implies #[trigger] s[p] == t[p + (0 - 0)] by {
        assert(s.take(n)[p] == s[p]);
    }
    assert forall|p: int| 0 <= p < n implies #[trigger] starts_word(s, p) == starts_word(
        t,
        p + (0 - 0),
    ) by {
        assert(s[p] == t[p]);
        if p > 0 {
            assert(s[p - 1] == t[p - 1]);
        }
    }
    lemma_newlines_shift(s, t, 0, 0, n);
    lemma_words_shift(s, t, 0, 0, n);
    assert(newlines_before(s, 0) == 0 && newlines_before(t, 0) == 0);
    assert(words_before(s, 0) == 0 && words_before(t, 0) == 0);
}

/// A line `l` that stands in `s` from position `n`, after the start or a line
/// feed, adds no line feed there, and the words it holds on its own.
proof fn lemma_line_counts(s: Seq<u8>, l: Seq<u8>, n: int)
    requires
        0 <= n,
        n + l.len() <= s.len(),
        s.subrange(n, n + l.len()) == l,
        n == 0 || s[n - 1] == NEWLINE,
        forall|i: int| 0 <= i < l.len() ==> l[i] != NEWLINE,
    ensures
        newlines_before(s, n + l.len()) == newlines_before(s, n),
        words_before(s, n + l.len()) == words_before(s, n) + word_count(l),
{
    let m = l.len() as int;
    assert forall|p: int| n <= p < n + m implies #[trigger] s[p] == l[p + (0 - n)] by {
        assert(s.subrange(n, n + m)[p - n] == s[p]);
    }
    assert forall|p: int| n <= p < n + m implies #[trigger] starts_word(s, p) == starts_word(
        l,
        p + (0 - n),
    ) by {
        assert(s[p] == l[p - n]);
        if p > n {
            assert(s[p - 1] == l[p - 1 - n]);
        }
    }
    lemma_newlines_shift(s, l, n, 0, m);
    lemma_words_shift(s, l, n, 0, m);
    assert(newlines_before(l, 0) == 0);
    assert(words_before(l, 0) == 0);
    lemma_no_line_feeds(l, m);
}

/// Counting line by line: after text that ends where a line ends, a line `l`
/// closed by a line feed adds one line, its length plus one in bytes, and the
/// words it holds on its own.
pub proof fn lemma_append_line(t: Seq<u8>, l: Seq<u8>)
    requires
        !has_open_last_line(t),
        forall|i: int| 0 <= i < l.len() ==> l[i] != NEWLINE,
    ensures
        line_count(t + l + seq![NEWLINE]) == line_count(t) + 1,
        byte_count(t + l + seq![NEWLINE]) == byte_count(t) + l.len() + 1,
        word_count(t + l + seq![NEWLINE]) == word_count(t) + word_count(l),
{
    let s = t + l + seq![NEWLINE];
    let n = t.len() as int;
    let m = l.len() as int;
    assert(s.len() == n + m + 1);
    assert(s.take(n) == t);
    assert(s.subrange(n, n + m) == l);
    assert(n > 0 ==> s[n - 1] == t.last());
    lemma_prefix_counts(t, s);
    lemma_line_counts(s, l, n);
    // The closing line feed.
    assert(s[n + m] == NEWLINE);
    assert(!starts_word(s, n + m));
}

/// A last line that no line feed closes still counts: after text that ends
/// where a line ends, a non-empty line `l` without a line feed adds one line,
/// its length plus one in bytes, and the words it holds on its own.
pub proof fn lemma_open_last_line(t: Seq<u8>, l: Seq<u8>)
    requires
        !has_open_last_line(t),
        l.len() > 0,
        forall|i: int| 0 <= i < l.len() ==> l[i] != NEWLINE,
    ensures
        line_count(t + l) == line_count(t) + 1,
        byte_count(t + l) == byte_count(t) + l.len() + 1,
        word_count(t + l) == word_count(t) + word_count(l),
{
    let s = t + l;
    let n = t.len() as int;
    let m = l.len() as int;
    assert(s.len() == n + m);
    assert(s.take(n) == t);
    assert(s.subrange(n, n + m) == l);
    assert(s.last() == l.last());
    assert(n > 0 ==> s[n - 1] == t.last());
    lemma_prefix_counts(t, s);
    lemma_line_counts(s, l, n);
}

/// A line holds no line feed.
proof fn lemma_no_line_feeds(l: Seq<u8>, k: int)
    requires
        0 <= k <= l.len(),
        forall|i: int| 0 <= i < l.len() ==> l[i] != NEWLINE,
    ensures
        newlines_before(l, k) == 0,
    decreases k,
{
    if k > 0 {
        lemma_no_line_feeds(l, k - 1);
        assert(l[k - 1] != NEWLINE);
    }
}

} // verus!
