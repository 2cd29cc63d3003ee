use hledger_tools::search::format_search_row;
use hledger_tools::text::{
    chars_of, is_whitespace, pad_left_text, pad_right_text, replace_char_text, second_word,
    split_once_text, text_lt_exec, trim_start_text,
};

#[test]
fn whitespace_is_unicode_white_space() {
    assert!(is_whitespace(' '));
    assert!(is_whitespace('\t'));
    assert!(is_whitespace('\u{3000}'));
    assert!(!is_whitespace('P'));
    assert!(!is_whitespace('\u{200b}'));
}

#[test]
fn trim_start_removes_leading_whitespace_only() {
    assert_eq!(trim_start_text("  \t P 2024-01-01 x "), "P 2024-01-01 x ");
    assert_eq!(trim_start_text(""), "");
    assert_eq!(trim_start_text("\u{a0}abc"), "abc");
}

#[test]
fn split_once_splits_at_first_occurrence() {
    assert_eq!(
        split_once_text("P 2024-01-01 AAPL 1 EUR", ' '),
        Some(("P".to_string(), "2024-01-01 AAPL 1 EUR".to_string()))
    );
    assert_eq!(split_once_text("nospace", ' '), None);
    assert_eq!(split_once_text(" lead", ' '), Some(("".to_string(), "lead".to_string())));
}

#[test]
fn second_word_of_split_whitespace() {
    assert_eq!(second_word("  P   2024-01-01\tX"), Some("2024-01-01".to_string()));
    assert_eq!(second_word("P"), None);
    assert_eq!(second_word("P   "), None);
    assert_eq!(second_word(""), None);
}

#[test]
fn text_order_is_lexicographic() {
    assert!(text_lt_exec("2023-12-31", "2024-01-01"));
    assert!(!text_lt_exec("2024-01-01", "2023-12-31"));
    assert!(text_lt_exec("abc", "abcd"));
    assert!(!text_lt_exec("abc", "abc"));
    assert!(text_lt_exec("Z", "a"));
}

#[test]
fn padding_to_a_width() {
    assert_eq!(pad_left_text("ab", 5), "   ab");
    assert_eq!(pad_left_text("abcdef", 5), "abcdef");
    assert_eq!(pad_right_text("ab", 5), "ab   ");
    assert_eq!(pad_right_text("\u{e9}t\u{e9}", 4), "\u{e9}t\u{e9} ");
}

#[test]
fn replacing_the_decimal_point() {
    assert_eq!(replace_char_text("1234.5678", '.', ','), "1234,5678");
    assert_eq!(replace_char_text("1.2.3", '.', '\u{2019}'), "1\u{2019}2\u{2019}3");
    assert_eq!(replace_char_text("12", '.', ','), "12");
}

#[test]
fn chars_of_keeps_every_character() {
    assert_eq!(chars_of("a\u{e9}b"), vec!['a', '\u{e9}', 'b']);
}

#[test]
fn search_rows_are_aligned() {
    let header = format_search_row("Type", "Symbol", "Name");
    let expected = format!("{:>20} | {:>9} \u{2013} {:40}", "Type", "Symbol", "Name");
    assert_eq!(header, expected);
    let row = format_search_row("EQUITY", "AAPL", "Apple Inc.");
    assert_eq!(row, format!("{:>20} | {:>9} \u{2013} {:40}", "EQUITY", "AAPL", "Apple Inc."));
    assert_eq!(row.chars().count(), 20 + 3 + 9 + 3 + 40);
    let long = format_search_row("a-very-long-quote-type-value", "SYMBOL1234", "n");
    assert!(long.starts_with("a-very-long-quote-type-value | SYMBOL1234 \u{2013} n"));
}
