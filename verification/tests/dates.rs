use hledger_tools::date::{day_key, is_before, latest_date, latest_price_date, price_line_date_word, Date};

fn d(year: i32, month: u32, day: u32) -> Date {
    Date { year, month, day }
}

#[test]
fn day_keys_of_timestamps() {
    assert_eq!(day_key(0), Some("1970-01-01".to_string()));
    assert_eq!(day_key(1_700_000_000), Some("2023-11-14".to_string()));
    assert_eq!(day_key(-1), Some("1969-12-31".to_string()));
    assert_eq!(day_key(86_399), Some("1970-01-01".to_string()));
    assert_eq!(day_key(951_782_400), Some("2000-02-29".to_string()));
}

#[test]
fn day_key_of_unrepresentable_timestamp() {
    assert_eq!(day_key(i64::MAX), None);
    assert_eq!(day_key(i64::MIN), None);
    assert_eq!(day_key(253_402_300_799), Some("9999-12-31".to_string()));
    assert_eq!(day_key(253_402_300_800), None);
}

#[test]
fn date_order() {
    assert!(is_before(&d(2023, 12, 31), &d(2024, 1, 1)));
    assert!(is_before(&d(2024, 1, 1), &d(2024, 1, 2)));
    assert!(!is_before(&d(2024, 1, 2), &d(2024, 1, 2)));
    assert!(!is_before(&d(2024, 2, 1), &d(2024, 1, 31)));
}

#[test]
fn latest_of_candidates() {
    assert_eq!(latest_date(&vec![]), None);
    assert_eq!(latest_date(&vec![None, None]), None);
    assert_eq!(
        latest_date(&vec![Some(d(2024, 1, 5)), None, Some(d(2024, 3, 1)), Some(d(2023, 12, 1))]),
        Some(d(2024, 3, 1))
    );
}

#[test]
fn date_field_of_price_lines() {
    assert_eq!(price_line_date_word("P 2024-01-01 A 1 EUR"), Some("2024-01-01".to_string()));
    assert_eq!(price_line_date_word("  Price\t2024-01-01"), Some("2024-01-01".to_string()));
    assert_eq!(price_line_date_word("; P 2024-01-01"), None);
    assert_eq!(price_line_date_word("P"), None);
}

#[test]
fn latest_price_date_of_a_prices_file() {
    let lines: Vec<String> = [
        "; Generated by tool V1",
        "P 2024-01-03 AAPL 10 EUR",
        "P 2024-01-05 AAPL 11 EUR",
        "P not-a-date AAPL 11 EUR",
        "P 2024-02-30 AAPL 11 EUR",
        "   P 2024-01-04 AAPL 12 EUR",
        "",
    ]
    .iter()
    .map(|s| s.to_string())
    .collect();
    assert_eq!(latest_price_date(&lines), Some(d(2024, 1, 5)));
    assert_eq!(latest_price_date(&vec!["; nothing".to_string()]), None);
}
