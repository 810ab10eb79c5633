use rust_wc::count::{get_stats, FileStats};

#[test]
fn test_get_stats_lines() {
    let content = "Line 1\nLine 2\nLine 3\n";
    let stats = get_stats(content, false, true, false);
    assert_eq!(stats.lines, Some(3));
    assert_eq!(stats.bytes, None);
}

#[test]
fn test_get_stats_bytes() {
    let content = "Line 1\nLine 2\nLine 3\n";
    let stats = get_stats(content, true, false, false);
    assert_eq!(stats.bytes, Some(content.len()));
    assert_eq!(stats.lines, None);
}

#[test]
fn test_get_stats_lines_and_bytes() {
    let content = "Line 1\nLine 2\nLine 3\n";
    let stats = get_stats(content, true, true, false);
    assert_eq!(stats.lines, Some(3));
    assert_eq!(stats.bytes, Some(content.len()));
}

#[test]
fn test_get_stats_empty_file() {
    let content = "";
    let stats = get_stats(content, true, true, false);
    assert_eq!(stats.lines, Some(0));
    assert_eq!(stats.bytes, Some(0));
}

#[test]
fn test_get_stats_words() {
    let content = "One Two\nThree Four\n\nFive Six\n";
    let stats = get_stats(content, false, false, true);
    assert_eq!(stats.lines, None);
    assert_eq!(stats.bytes, None);
    assert_eq!(stats.words, Some(6));
}

fn counts(stats: &FileStats) -> (Option<usize>, Option<usize>, Option<usize>) {
    (stats.lines, stats.bytes, stats.words)
}

#[test]
fn all_flags_on_three_lines() {
    let stats = get_stats("Line 1\nLine 2\nLine 3\n", true, true, true);
    assert_eq!(counts(&stats), (Some(3), Some(21), Some(6)));
}

#[test]
fn empty_text_all_flags() {
    let stats = get_stats("", true, true, true);
    assert_eq!(counts(&stats), (Some(0), Some(0), Some(0)));
}

#[test]
fn no_flags_gives_no_counts() {
    let stats = get_stats("a b\nc\n", false, false, false);
    assert_eq!(counts(&stats), (None, None, None));
}

#[test]
fn line_count_ignores_other_flags() {
    let text = "alpha beta\n\ngamma";
    let all = get_stats(text, true, true, true);
    let only = get_stats(text, false, true, false);
    assert_eq!(all.lines, only.lines);
    assert_eq!(all.lines, Some(3));
    assert_eq!(get_stats(text, true, false, false).bytes, all.bytes);
    assert_eq!(get_stats(text, false, false, true).words, all.words);
}

#[test]
fn repeated_spaces_do_not_add_words() {
    let one = get_stats("a b c\n", false, false, true);
    let many = get_stats("  a    b  c   \n", false, false, true);
    assert_eq!(one.words, Some(3));
    assert_eq!(many.words, Some(3));
}

#[test]
fn tab_does_not_split_words() {
    let stats = get_stats("a\tb c\n", false, false, true);
    assert_eq!(stats.words, Some(2));
    assert_eq!(get_stats("a\tb\n", false, false, true).words, Some(1));
}

#[test]
fn last_line_without_newline_counts_one_more_byte() {
    let stats = get_stats("abc\ndef", true, true, true);
    assert_eq!(counts(&stats), (Some(2), Some(8), Some(2)));
}

#[test]
fn carriage_return_before_newline_is_kept() {
    let stats = get_stats("ab\r\ncd\r\n", true, true, true);
    assert_eq!(counts(&stats), (Some(2), Some(8), Some(2)));
}

#[test]
fn carriage_return_is_line_text() {
    let stats = get_stats("a \r\n\r", true, true, true);
    assert_eq!(counts(&stats), (Some(2), Some(6), Some(3)));
    let stats = get_stats("\r\n", true, true, true);
    assert_eq!(counts(&stats), (Some(1), Some(2), Some(1)));
}

#[test]
fn leading_and_trailing_spaces_add_no_word() {
    let plain = get_stats("a b\nc\n", false, false, true);
    let padded = get_stats(" a b \n c \n", false, false, true);
    assert_eq!(plain.words, Some(3));
    assert_eq!(padded.words, Some(3));
}

#[test]
fn blank_lines_count_as_lines() {
    let stats = get_stats("\n\n\n", true, true, true);
    assert_eq!(counts(&stats), (Some(3), Some(3), Some(0)));
}

#[test]
fn multibyte_characters_count_their_bytes() {
    let stats = get_stats("é ü\n", true, true, true);
    assert_eq!(counts(&stats), (Some(1), Some(6), Some(2)));
}

#[test]
fn appending_a_line_adds_its_counts() {
    let before = get_stats("one two\n", true, true, true);
    let after = get_stats("one two\n  three four  five\n", true, true, true);
    let line = get_stats("  three four  five", true, true, true);
    assert_eq!(after.lines, Some(before.lines.unwrap() + 1));
    assert_eq!(after.bytes, Some(before.bytes.unwrap() + "  three four  five".len() + 1));
    assert_eq!(after.words, Some(before.words.unwrap() + line.words.unwrap()));
    assert_eq!(counts(&after), (Some(2), Some(27), Some(5)));
}
