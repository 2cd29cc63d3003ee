use hledger_tools::history::{
    closes_price_table, history_journal_lines, price_info_text, DailyClose, HistoryError,
};
use hledger_tools::journal::{parse_journal_lines, PriceTable};

fn close(timestamp: i64, price: &str) -> DailyClose {
    DailyClose { timestamp, price: price.to_string() }
}

#[test]
fn price_info_layouts() {
    assert_eq!(price_info_text("AAPL", "EUR", "185.64", '.', false), "AAPL 185.64 EUR");
    assert_eq!(price_info_text("AAPL", "EUR", "185.64", ',', false), "AAPL 185,64 EUR");
    assert_eq!(price_info_text("AAPL", "\u{20ac}", "185.64", ',', true), "AAPL \u{20ac}185,64");
    assert_eq!(price_info_text("AAPL", "$", "185", '.', true), "AAPL $185");
}

#[test]
fn closes_become_entries_by_day() {
    let closes = vec![close(1_700_000_000, "1.5"), close(1_700_086_400, "2.25")];
    let t = closes_price_table(&closes, "X", "EUR", ',', false).unwrap();
    assert_eq!(t.len(), 2);
    assert_eq!(t.get("2023-11-14"), Some("X 1,5 EUR".to_string()));
    assert_eq!(t.get("2023-11-15"), Some("X 2,25 EUR".to_string()));
}

#[test]
fn two_closes_on_one_day_are_refused() {
    let closes = vec![close(1_700_000_000, "1"), close(1_700_000_100, "2"), close(0, "3")];
    assert_eq!(
        closes_price_table(&closes, "X", "EUR", '.', false).err(),
        Some(HistoryError::DuplicateDays { quotes: 3, days: 2 })
    );
}

#[test]
fn unrepresentable_timestamp_is_refused() {
    let closes = vec![close(0, "1"), close(0, "2"), close(i64::MAX, "3")];
    assert_eq!(
        closes_price_table(&closes, "X", "EUR", '.', false).err(),
        Some(HistoryError::UnreadableTimestamp)
    );
}

#[test]
fn history_merges_and_sorts_newest_first() {
    let file = parse_journal_lines(&vec![
        "; Generated by tool V0".to_string(),
        "P 2023-11-13 X 0.5 EUR".to_string(),
        "P 2023-11-14 X 0.9 EUR".to_string(),
    ])
    .unwrap();
    let api = closes_price_table(
        &vec![close(1_700_000_000, "1.5"), close(1_700_086_400, "2.5")],
        "X",
        "EUR",
        '.',
        false,
    )
    .unwrap();
    let out = history_journal_lines(file, api, "tool V1");
    assert_eq!(
        out,
        vec![
            "; Generated by tool V1".to_string(),
            "P 2023-11-15 X 2.5 EUR".to_string(),
            "P 2023-11-14 X 1.5 EUR".to_string(),
            "P 2023-11-13 X 0.5 EUR".to_string(),
        ]
    );
    let back = parse_journal_lines(&out).unwrap();
    assert_eq!(back.len(), 3);
    assert_eq!(back.get("2023-11-14"), Some("X 1.5 EUR".to_string()));
}

#[test]
fn empty_history() {
    let out = history_journal_lines(PriceTable::new(), PriceTable::new(), "g");
    assert_eq!(out, vec!["; Generated by g".to_string()]);
}

use hledger_tools::history::{keyed_price_table, KeyedClose};

fn keyed(day: Option<&str>, price: &str) -> KeyedClose {
    KeyedClose { day: day.map(|d| d.to_string()), price: price.to_string() }
}

#[test]
fn keyed_closes_become_entries() {
    let t = keyed_price_table(
        &vec![keyed(Some("2024-01-02"), "3.25"), keyed(Some("2024-01-01"), "3")],
        "S",
        "USD",
        '.',
        true,
    )
    .unwrap();
    assert_eq!(t.get("2024-01-02"), Some("S USD3.25".to_string()));
    assert_eq!(t.get("2024-01-01"), Some("S USD3".to_string()));
}

#[test]
fn keyed_closes_missing_day_or_duplicate() {
    assert_eq!(
        keyed_price_table(&vec![keyed(Some("d"), "1"), keyed(None, "2")], "S", "U", '.', true).err(),
        Some(HistoryError::UnreadableTimestamp)
    );
    assert_eq!(
        keyed_price_table(&vec![keyed(Some("d"), "1"), keyed(Some("d"), "2")], "S", "U", '.', true)
            .err(),
        Some(HistoryError::DuplicateDays { quotes: 2, days: 1 })
    );
}
