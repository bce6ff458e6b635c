use logseq_view::wrap::{row_count, wrap_row_ranges};

fn rows(text: &str, width: usize) -> Vec<&str> {
    wrap_row_ranges(text, width)
        .into_iter()
        .map(|r| &text[r])
        .collect()
}

#[test]
fn empty_text_is_one_row() {
    assert_eq!(rows("", 10), vec![""]);
    assert_eq!(row_count("", 10), 1);
}

#[test]
fn zero_width_is_one_unbroken_row() {
    assert_eq!(rows("hello world", 0), vec!["hello world"]);
}

#[test]
fn short_text_fits_on_one_row() {
    assert_eq!(rows("hello", 10), vec!["hello"]);
}

#[test]
fn breaks_on_whitespace_dropping_the_space() {
    assert_eq!(rows("hello world", 5), vec!["hello", "world"]);
}

#[test]
fn keeps_whole_words_together_when_they_fit() {
    assert_eq!(rows("hello world foo", 11), vec!["hello world", "foo"]);
}

#[test]
fn hard_breaks_a_single_word_longer_than_width() {
    assert_eq!(rows("ab cdefgh", 5), vec!["ab", "cdefg", "h"]);
}

#[test]
fn hard_breaks_word_that_never_had_a_space() {
    assert_eq!(rows("aaaa", 2), vec!["aa", "aa"]);
}

#[test]
fn cjk_wide_characters_count_as_two_columns() {
    assert_eq!(rows("日本語のテスト", 6), vec!["日本語", "のテス", "ト"]);
}

#[test]
fn wide_char_that_alone_exceeds_width_is_isolated() {
    assert_eq!(rows("日", 1), vec!["日"]);
}

#[test]
fn row_count_matches_number_of_ranges() {
    assert_eq!(row_count("x".repeat(200).as_str(), 19), 11);
}

#[test]
fn multiple_consecutive_spaces_break_at_the_overflowing_one() {
    let text = "aa    bb";
    let wrapped = rows(text, 4);
    assert_eq!(wrapped, vec!["aa  ", " bb"]);
}

#[test]
fn every_row_fits_the_width_unless_a_single_wide_char() {
    let text = "the quick brown fox jumps over the lazy dog 日本語";
    for width in 1..20 {
        for r in rows(text, width) {
            let cols: usize = r.chars().map(|c| if c.is_ascii() { 1 } else { 2 }).sum();
            assert!(cols <= width || r.chars().count() == 1);
        }
    }
}

#[test]
fn control_characters_take_no_columns() {
    assert_eq!(rows("a\u{7}b", 2), vec!["a\u{7}b"]);
}

#[test]
fn byte_ranges_follow_multibyte_characters() {
    let ranges = wrap_row_ranges("éé éé", 2);
    assert_eq!(ranges, vec![0..4, 5..9]);
}

#[test]
fn line_feed_is_a_hard_break_in_no_row() {
    assert_eq!(wrap_row_ranges("ab\ncd", 10), vec![0..2, 3..5]);
    assert_eq!(wrap_row_ranges("a\n\nb", 10), vec![0..1, 2..2, 3..4]);
    assert_eq!(row_count("```rust\nfn main() {\n}\n```", 60), 4);
    assert_eq!(wrap_row_ranges("ab\ncd", 0), vec![0..5]);
}
