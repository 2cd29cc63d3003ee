use hledger_tools::date::Date;
use hledger_tools::update::{
    commodities_to_update, listed_commodities, new_price_points, prices_file_name, PricePoint,
    PriceQuote,
};
use rust_decimal::Decimal;

fn names(v: &[&str]) -> Vec<String> {
    v.iter().map(|s| s.to_string()).collect()
}

fn d(year: i32, month: u32, day: u32) -> Date {
    Date { year, month, day }
}

const DAY: i64 = 86_400;
// 2024-01-01T00:00:00Z
const JAN1: i64 = 1_704_067_200;

#[test]
fn commodities_exclude_base_and_are_sorted() {
    let n = names(&["EUR", "VWRL", "AAPL", "EUR", "AAPL", "BTC"]);
    assert_eq!(commodities_to_update(&n, "EUR"), names(&["AAPL", "BTC", "VWRL"]));
    assert_eq!(listed_commodities(&n), names(&["AAPL", "BTC", "EUR", "VWRL"]));
    assert_eq!(commodities_to_update(&names(&["EUR"]), "EUR"), Vec::<String>::new());
}

#[test]
fn prices_file_names() {
    assert_eq!(prices_file_name("AAPL"), "AAPL.journal");
}

#[test]
fn only_newer_prices_sorted_by_date() {
    let quotes = vec![
        PriceQuote { timestamp: JAN1 + 3 * DAY, value: Some(Decimal::new(30, 0)) },
        PriceQuote { timestamp: JAN1, value: Some(Decimal::new(10, 0)) },
        PriceQuote { timestamp: JAN1 + DAY, value: None },
        PriceQuote { timestamp: JAN1 + 2 * DAY, value: Some(Decimal::new(20, 0)) },
        PriceQuote { timestamp: i64::MAX, value: Some(Decimal::new(99, 0)) },
        PriceQuote { timestamp: JAN1 + 2 * DAY + 60, value: Some(Decimal::new(21, 0)) },
    ];
    let all = new_price_points(&quotes, None);
    assert_eq!(
        all,
        vec![
            PricePoint { date: d(2024, 1, 1), value: Decimal::new(10, 0) },
            PricePoint { date: d(2024, 1, 3), value: Decimal::new(20, 0) },
            PricePoint { date: d(2024, 1, 3), value: Decimal::new(21, 0) },
            PricePoint { date: d(2024, 1, 4), value: Decimal::new(30, 0) },
        ]
    );
    let newer = new_price_points(&quotes, Some(d(2024, 1, 3)));
    assert_eq!(newer, vec![PricePoint { date: d(2024, 1, 4), value: Decimal::new(30, 0) }]);
}

#[test]
fn second_update_adds_nothing() {
    let quotes = vec![
        PriceQuote { timestamp: JAN1, value: Some(Decimal::new(10, 0)) },
        PriceQuote { timestamp: JAN1 + DAY, value: Some(Decimal::new(11, 0)) },
    ];
    let first = new_price_points(&quotes, None);
    let latest = first.last().map(|p| p.date);
    assert_eq!(latest, Some(d(2024, 1, 2)));
    assert!(new_price_points(&quotes, latest).is_empty());
}

use hledger_tools::update::{day_of_timestamp, newer_points, DatedQuote};

#[test]
fn day_of_timestamps() {
    assert_eq!(day_of_timestamp(JAN1), Some(d(2024, 1, 1)));
    assert_eq!(day_of_timestamp(JAN1 - 1), Some(d(2023, 12, 31)));
    assert_eq!(day_of_timestamp(i64::MIN), None);
}

#[test]
fn newer_points_of_dated_quotes() {
    let q = vec![
        DatedQuote { date: Some(d(2024, 1, 2)), value: Some(Decimal::new(2, 0)) },
        DatedQuote { date: None, value: Some(Decimal::new(9, 0)) },
        DatedQuote { date: Some(d(2023, 12, 30)), value: Some(Decimal::new(1, 0)) },
        DatedQuote { date: Some(d(2024, 1, 1)), value: Some(Decimal::new(5, 1)) },
        DatedQuote { date: Some(d(2024, 1, 1)), value: Some(Decimal::new(6, 1)) },
    ];
    assert_eq!(
        newer_points(&q, Some(d(2023, 12, 31))),
        vec![
            PricePoint { date: d(2024, 1, 1), value: Decimal::new(5, 1) },
            PricePoint { date: d(2024, 1, 1), value: Decimal::new(6, 1) },
            PricePoint { date: d(2024, 1, 2), value: Decimal::new(2, 0) },
        ]
    );
    assert!(newer_points(&q, Some(d(2024, 1, 2))).is_empty());
}
