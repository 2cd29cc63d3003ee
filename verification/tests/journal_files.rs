use hledger_tools::journal::{
    generated_header_text, journal_lines, parse_journal_line, parse_journal_lines,
    price_line_text, JournalLineError, PriceTable,
};

fn lines(v: &[&str]) -> Vec<String> {
    v.iter().map(|s| s.to_string()).collect()
}

#[test]
fn price_line_is_read() {
    assert_eq!(
        parse_journal_line("P 2024-01-02 AAPL 185.64 USD"),
        Ok(Some(("2024-01-02".to_string(), "AAPL 185.64 USD".to_string())))
    );
    assert_eq!(
        parse_journal_line("   P 2024-01-02 AAPL EUR185,64"),
        Ok(Some(("2024-01-02".to_string(), "AAPL EUR185,64".to_string())))
    );
}

#[test]
fn comment_lines_are_skipped() {
    assert_eq!(parse_journal_line("; Generated by x V1"), Ok(None));
    assert_eq!(parse_journal_line("  ;comment"), Ok(None));
}

#[test]
fn each_faulty_line_kind() {
    assert_eq!(parse_journal_line("nospace"), Err(JournalLineError::NoSpace));
    assert_eq!(parse_journal_line(""), Err(JournalLineError::NoSpace));
    assert_eq!(parse_journal_line("X 2024-01-01 a"), Err(JournalLineError::NotAMarketPrice));
    assert_eq!(parse_journal_line("PP 2024-01-01 a"), Err(JournalLineError::NotAMarketPrice));
    assert_eq!(parse_journal_line("P 2024-01-01"), Err(JournalLineError::OnlyOneSpace));
}

#[test]
fn later_lines_override_earlier_ones() {
    let t = parse_journal_lines(&lines(&[
        "; Generated by tool V1",
        "P 2024-01-02 A 1 EUR",
        "P 2024-01-01 A 2 EUR",
        "P 2024-01-02 A 3 EUR",
    ]))
    .unwrap();
    assert_eq!(t.len(), 2);
    assert_eq!(t.get("2024-01-02"), Some("A 3 EUR".to_string()));
    assert_eq!(t.get("2024-01-01"), Some("A 2 EUR".to_string()));
    assert_eq!(t.get("2024-01-03"), None);
}

#[test]
fn first_faulty_line_is_reported() {
    let e = parse_journal_lines(&lines(&["P 2024-01-02 A 1 EUR", "  broken", "alsobroken"]))
        .unwrap_err();
    assert_eq!(e.index, 1);
    assert_eq!(e.kind, JournalLineError::NoSpace);
    assert_eq!(e.line, "broken");
}

#[test]
fn empty_journal_gives_empty_table() {
    let t = parse_journal_lines(&Vec::new()).unwrap();
    assert_eq!(t.len(), 0);
}

#[test]
fn table_insert_and_extend() {
    let mut a = PriceTable::new();
    a.insert("2024-01-01".to_string(), "old".to_string());
    a.insert("2024-01-02".to_string(), "keep".to_string());
    a.insert("2024-01-01".to_string(), "older-replaced".to_string());
    assert_eq!(a.len(), 2);
    assert_eq!(a.get("2024-01-01"), Some("older-replaced".to_string()));
    let mut b = PriceTable::new();
    b.insert("2024-01-01".to_string(), "new".to_string());
    b.insert("2024-01-03".to_string(), "added".to_string());
    a.extend(b);
    assert_eq!(a.len(), 3);
    assert_eq!(a.get("2024-01-01"), Some("new".to_string()));
    assert_eq!(a.get("2024-01-02"), Some("keep".to_string()));
    assert_eq!(a.get("2024-01-03"), Some("added".to_string()));
}

#[test]
fn entries_come_newest_first() {
    let mut t = PriceTable::new();
    for d in ["2024-01-02", "2023-12-31", "2024-01-10", "2024-01-01"] {
        t.insert(d.to_string(), format!("info {d}"));
    }
    let e = t.sorted_entries();
    let dates: Vec<&str> = e.iter().map(|(d, _)| d.as_str()).collect();
    assert_eq!(dates, vec!["2024-01-10", "2024-01-02", "2024-01-01", "2023-12-31"]);
    assert_eq!(e[0].1, "info 2024-01-10");
}

#[test]
fn journal_lines_render_header_and_prices() {
    assert_eq!(generated_header_text("tool V1"), "; Generated by tool V1");
    assert_eq!(price_line_text("2024-01-01", "A 1 EUR"), "P 2024-01-01 A 1 EUR");
    let entries = vec![
        ("2024-01-02".to_string(), "A 2 EUR".to_string()),
        ("2024-01-01".to_string(), "A 1 EUR".to_string()),
    ];
    assert_eq!(
        journal_lines("tool V1", &entries),
        lines(&["; Generated by tool V1", "P 2024-01-02 A 2 EUR", "P 2024-01-01 A 1 EUR"])
    );
}

#[test]
fn written_journal_reads_back() {
    let mut t = PriceTable::new();
    t.insert("2024-01-02".to_string(), "A 2 EUR".to_string());
    t.insert("2024-01-01".to_string(), "A  1   EUR".to_string());
    let out = journal_lines("tool V1", &t.sorted_entries());
    let back = parse_journal_lines(&out).unwrap();
    assert_eq!(back.len(), 2);
    assert_eq!(back.get("2024-01-02"), Some("A 2 EUR".to_string()));
    assert_eq!(back.get("2024-01-01"), Some("A  1   EUR".to_string()));
}
