//! The full price history of one stock: daily closes turned into journal
//! entries, merged with the entries already in the journal, written back
//! sorted by date, newest first.

use vstd::prelude::*;
use crate::date::{date_text, day_key, digit_char, utc_calendar_date};
use crate::journal::{
    entries_map, journal_lines, journal_lines_of, journal_table, keys_descending, keys_distinct,
    lemma_descending_distinct, lemma_journal_roundtrip, lemma_read_dates_have_no_space, Entry,
    JournalLineError, PriceTable,
};
use crate::text::{replace_char, replace_char_text};

verus! {

/// The close of one trading day: its Unix timestamp and the price, already
/// written out as decimal text.
#[derive(Debug)]
pub struct DailyClose {
    pub timestamp: i64,
    pub price: String,
}

/// Why the closes cannot be turned into a price table.
#[derive(Debug, Clone, Copy, PartialEq, Eq)]
pub enum HistoryError {
    /// A timestamp lies outside the dates the `time` crate represents.
    UnreadableTimestamp,
    /// Two closes fall on the same day: `days` distinct days for `quotes`
    /// closes.
    DuplicateDays { quotes: usize, days: usize },
}

/// The price information of a journal entry: the stock, then the price with
/// its decimal point replaced by `separator`, with the currency before or
/// after it.
pub open spec fn price_info(
    stock: Seq<char>,
    currency: Seq<char>,
    price: Seq<char>,
    separator: char,
    currency_symbol_before: bool,
) -> Seq<char> {
    let p = replace_char(price, '.', separator);
    if currency_symbol_before {
        stock + seq![' '] + currency + p
    } else {
        stock + seq![' '] + p + seq![' '] + currency
    }
}

/// The entry of one close: its UTC day and its price information.
pub open spec fn close_entry(
    c: DailyClose,
    stock: Seq<char>,
    currency: Seq<char>,
    separator: char,
    currency_symbol_before: bool,
) -> Entry {
    (
        date_text(utc_calendar_date(c.timestamp).unwrap()),
        price_info(stock, currency, c.price@, separator, currency_symbol_before),
    )
}

/// The entries of the closes, in order.
pub open spec fn close_entries(
    closes: Seq<DailyClose>,
    stock: Seq<char>,
    currency: Seq<char>,
    separator: char,
    currency_symbol_before: bool,
) -> Seq<Entry> {
    closes.map_values(
        |c: DailyClose| close_entry(c, stock, currency, separator, currency_symbol_before),
    )
}

/// Every close falls on a day the `time` crate represents.
pub open spec fn all_days_known(closes: Seq<DailyClose>) -> bool {
    forall|i: int| 0 <= i < closes.len() ==> (#[trigger] utc_calendar_date(closes[i].timestamp)) is Some
}

/// The map that inserting the entries one after another builds: a later
/// entry for a date replaces an earlier one.
pub open spec fn inserted_map(es: Seq<Entry>) -> Map<Seq<char>, Seq<char>>
    decreases es.len(),
{
    if es.len() == 0 {
        Map::empty()
    } else {
        inserted_map(es.drop_last()).insert(es.last().0, es.last().1)
    }
}

/// The dates of the entries.
pub open spec fn entry_dates(es: Seq<Entry>) -> Seq<Seq<char>> {
    es.map_values(|e: Entry| e.0)
}

pub proof fn lemma_inserted_map_dom(es: Seq<Entry>)
    ensures
        inserted_map(es).dom() == entry_dates(es).to_set(),
        inserted_map(es).dom().finite(),
    decreases es.len(),
{
    broadcast use vstd::seq_lib::seq_to_set_is_finite;

    if es.len() > 0 {
        let p = es.drop_last();
        lemma_inserted_map_dom(p);
        assert(entry_dates(p) =~= entry_dates(es).drop_last());
        assert forall|k: Seq<char>| #[trigger] inserted_map(es).dom().contains(k)
            <==> entry_dates(es).to_set().contains(k) by {
            if entry_dates(p).to_set().contains(k) {
                let j = choose|j: int| 0 <= j < entry_dates(p).len() && entry_dates(p)[j] == k;
                assert(entry_dates(es)[j] == k);
            }
            if k == es.last().0 {
                assert(entry_dates(es)[es.len() - 1] == k);
            }
            if entry_dates(es).to_set().contains(k) {
                let j = choose|j: int| 0 <= j < entry_dates(es).len() && entry_dates(es)[j] == k;
                if j < p.len() {
                    assert(entry_dates(p)[j] == k);
                }
            }
        }
        assert(inserted_map(es).dom() =~= entry_dates(es).to_set());
    } else {
        assert(entry_dates(es).to_set() =~= Set::<Seq<char>>::empty());
    }
}

/// With distinct dates, inserting one after another builds the map of the
/// entries.
pub proof fn lemma_inserted_map_distinct(es: Seq<Entry>)
    requires
        keys_distinct(es),
    ensures
        inserted_map(es) == entries_map(es),
    decreases es.len(),
{
    if es.len() > 0 {
        let p = es.drop_last();
        assert(keys_distinct(p));
        lemma_inserted_map_distinct(p);
        assert(!entries_map(p).contains_key(es.last().0)) by {
            if entries_map(p).contains_key(es.last().0) {
                let j = choose|j: int| 0 <= j < p.len() && p[j].0 == es.last().0;
                assert(es[j].0 != es[es.len() - 1].0);
            }
        }
        crate::journal::lemma_entries_map_insert(p, p.len() as int, es.last());
        assert(p.insert(p.len() as int, es.last()) =~= es);
    } else {
        assert(entries_map(es) =~= Map::<Seq<char>, Seq<char>>::empty());
    }
}

/// The count check of the closes finds duplicates exactly when two closes
/// share a day.
pub proof fn lemma_duplicate_check(es: Seq<Entry>)
    ensures
        inserted_map(es).len() == es.len() <==> keys_distinct(es),
{
    lemma_inserted_map_dom(es);
    let d = entry_dates(es);
    if keys_distinct(es) {
        assert(d.no_duplicates()) by {
            assert forall|i: int, j: int| 0 <= i < d.len() && 0 <= j < d.len() && i != j implies d[i]
                != d[j] by {
                if i < j {
                    assert(es[i].0 != es[j].0);
                } else {
                    assert(es[j].0 != es[i].0);
                }
            }
        }
        d.unique_seq_to_set();
    }
    if inserted_map(es).len() == es.len() {
        d.lemma_no_dup_set_cardinality();
        assert forall|i: int, j: int| 0 <= i < j < es.len() implies es[i].0 != es[j].0 by {
            assert(d[i] == es[i].0 && d[j] == es[j].0);
        }
    }
}

/// With `.` as separator, the price text is written as it is.
pub proof fn lemma_point_separator_keeps_price(price: Seq<char>)
    ensures
        replace_char(price, '.', '.') == price,
{
    assert(replace_char(price, '.', '.') =~= price);
}

/// Only the price is rewritten: the stock and the currency are written as
/// given, and the price keeps every character but its decimal points, each
/// of which becomes the separator.
pub proof fn lemma_price_info_rewrites_only_price(
    stock: Seq<char>,
    currency: Seq<char>,
    price: Seq<char>,
    separator: char,
    currency_symbol_before: bool,
)
    ensures
        exists|p: Seq<char>|
            {
                &&& p.len() == price.len()
                &&& forall|k: int|
                    0 <= k < price.len() ==> #[trigger] p[k] == (if price[k] == '.' {
                        separator
                    } else {
                        price[k]
                    })
                &&& price_info(stock, currency, price, separator, currency_symbol_before) == (
                if currency_symbol_before {
                    stock + seq![' '] + currency + p
                } else {
                    stock + seq![' '] + p + seq![' '] + currency
                })
            },
{
    let p = replace_char(price, '.', separator);
    assert(p.len() == price.len());
}

/// Decides `price_info`: the decimal point is replaced only when the
/// separator differs from it.
pub fn price_info_text(
    stock: &str,
    currency: &str,
    price: &str,
    separator: char,
    currency_symbol_before: bool,
) -> (r: String)
    ensures
        r@ == price_info(stock@, currency@, price@, separator, currency_symbol_before),
{
    let price_text = if separator != '.' {
        replace_char_text(price, '.', separator)
    } else {
        assert(replace_char(price@, '.', separator) =~= price@);
        String::from_str(price)
    };
    proof {
        reveal_strlit(" ");
    }
    let mut out = String::from_str(stock);
    out.append(" ");
    if currency_symbol_before {
        out.append(currency);
        out.append(price_text.as_str());
    } else {
        out.append(price_text.as_str());
        out.append(" ");
        out.append(currency);
    }
    out
}

/// A close with its day text: absent when its timestamp has no day.
#[derive(Debug)]
pub struct KeyedClose {
    pub day: Option<String>,
    pub price: String,
}

/// Every keyed close has a day.
pub open spec fn all_days_present(closes: Seq<KeyedClose>) -> bool {
    forall|i: int| 0 <= i < closes.len() ==> (#[trigger] closes[i].day) is Some
}

/// The entries of keyed closes, in order.
pub open spec fn keyed_entries(
    closes: Seq<KeyedClose>,
    stock: Seq<char>,
    currency: Seq<char>,
    separator: char,
    currency_symbol_before: bool,
) -> Seq<Entry> {
    closes.map_values(
        |c: KeyedClose|
            (c.day.unwrap()@, price_info(stock, currency, c.price@, separator, currency_symbol_before)),
    )
}

/// The journal entries of keyed closes: fails when a close has no day, and
/// when fewer distinct days than closes result.
pub fn keyed_price_table(
    closes: &Vec<KeyedClose>,
    stock: &str,
    currency: &str,
    separator: char,
    currency_symbol_before: bool,
) -> (r: Result<PriceTable, HistoryError>)
    ensures
        !all_days_present(closes@) ==> r == Err::<PriceTable, HistoryError>(
            HistoryError::UnreadableTimestamp,
        ),
        all_days_present(closes@) ==> {
            let es = keyed_entries(closes@, stock@, currency@, separator, currency_symbol_before);
            &&& inserted_map(es).len() == closes.len() ==> (r matches Ok(t) && t@ == inserted_map(
                es,
            ))
            &&& inserted_map(es).len() != closes.len() ==> r == Err::<PriceTable, HistoryError>(
                HistoryError::DuplicateDays {
                    quotes: closes.len(),
                    days: inserted_map(es).len() as usize,
                },
            )
        },
{
    let n = closes.len();
    let mut i: usize = 0;
    while i < n
        invariant
            n == closes.len(),
            i <= n,
            forall|k: int| 0 <= k < i ==> (#[trigger] closes@[k].day) is Some,
        decreases n - i,
    {
        if closes[i].day.is_none() {
            return Err(HistoryError::UnreadableTimestamp);
        }
        i += 1;
    }
    let ghost es = keyed_entries(closes@, stock@, currency@, separator, currency_symbol_before);
    let mut table = PriceTable::new();
    let mut i: usize = 0;
    assert(es.take(0) =~= Seq::<Entry>::empty());
    while i < n
        invariant
            n == closes.len(),
            es == keyed_entries(closes@, stock@, currency@, separator, currency_symbol_before),
            all_days_present(closes@),
            i <= n,
            table@ == inserted_map(es.take(i as int)),
        decreases n - i,
    {
        let key = match &closes[i].day {
            Some(k) => k.clone(),
            None => String::new(),
        };
        let info = price_info_text(
            stock,
            currency,
            closes[i].price.as_str(),
            separator,
            currency_symbol_before,
        );
        proof {
            assert(closes@[i as int].day is Some);
            assert(es.take(i + 1).drop_last() =~= es.take(i as int));
        }
        table.insert(key, info);
        i += 1;
    }
    assert(es.take(n as int) =~= es);
    let days = table.len();
    if days != n {
        Err(HistoryError::DuplicateDays { quotes: n, days })
    } else {
        Ok(table)
    }
}

/// The journal entries of the closes of one stock, keyed by UTC day.
/// Fails when the `time` crate cannot represent a timestamp; fails when
/// fewer distinct days than closes result.
pub fn closes_price_table(
    closes: &Vec<DailyClose>,
    stock: &str,
    currency: &str,
    separator: char,
    currency_symbol_before: bool,
) -> (r: Result<PriceTable, HistoryError>)
    ensures
        !all_days_known(closes@) ==> r == Err::<PriceTable, HistoryError>(
            HistoryError::UnreadableTimestamp,
        ),
        all_days_known(closes@) ==> {
            let es = close_entries(closes@, stock@, currency@, separator, currency_symbol_before);
            &&& inserted_map(es).len() == closes.len() ==> (r matches Ok(t) && t@ == inserted_map(
                es,
            ))
            &&& inserted_map(es).len() != closes.len() ==> r == Err::<PriceTable, HistoryError>(
                HistoryError::DuplicateDays {
                    quotes: closes.len(),
                    days: inserted_map(es).len() as usize,
                },
            )
        },
{
    let mut keyed: Vec<KeyedClose> = Vec::new();
    let n = closes.len();
    let mut i: usize = 0;
    while i < n
        invariant
            n == closes.len(),
            i <= n,
            keyed.len() == i,
            forall|k: int|
                0 <= k < i ==> match utc_calendar_date(#[trigger] closes@[k].timestamp) {
                    None => keyed@[k].day is None,
                    Some(t) => keyed@[k].day matches Some(d) && d@ == date_text(t),
                },
            forall|k: int| 0 <= k < i ==> (#[trigger] keyed@[k]).price@ == closes@[k].price@,
        decreases n - i,
    {
        let day = day_key(closes[i].timestamp);
        let price = closes[i].price.clone();
        keyed.push(KeyedClose { day, price });
        i += 1;
    }
    proof {
        if all_days_known(closes@) {
            assert forall|k: int| 0 <= k < n implies (#[trigger] keyed@[k].day) is Some by {
                assert(utc_calendar_date(closes@[k].timestamp) is Some);
            }
            assert(keyed_entries(keyed@, stock@, currency@, separator, currency_symbol_before)
                =~= close_entries(closes@, stock@, currency@, separator, currency_symbol_before));
        } else {
            let k = choose|k: int|
                0 <= k < n && !((#[trigger] utc_calendar_date(closes@[k].timestamp)) is Some);
            assert(keyed@[k].day is None);
        }
    }
    keyed_price_table(&keyed, stock, currency, separator, currency_symbol_before)
}

/// The lines of the rewritten history journal: the entries of `file_data`
/// and `api_data` together (those of `api_data` winning), newest first,
/// after a `; Generated by` header.
pub fn history_journal_lines(file_data: PriceTable, api_data: PriceTable, generator: &str) -> (out:
    Vec<String>)
    ensures
        exists|es: Seq<Entry>|
            {
                &&& keys_descending(es)
                &&& entries_map(es) == file_data@.union_prefer_right(api_data@)
                &&& crate::journal::text_views(out@) == journal_lines_of(generator@, es)
            },
{
    let mut merged = file_data;
    merged.extend(api_data);
    let entries = merged.sorted_entries();
    let out = journal_lines(generator, &entries);
    assert(keys_descending(crate::journal::entry_views(entries@)));
    out
}

/// The day text of a timestamp holds no space.
pub proof fn lemma_date_text_has_no_space(t: (i32, u32, u32))
    ensures
        !date_text(t).contains(' '),
{
    let s = date_text(t);
    assert forall|n: int| digit_char(n) != ' ' by {}
    assert forall|k: int| 0 <= k < s.len() implies s[k] != ' ' by {}
}

/// What the next run reads back of the history journal this run writes: the
/// entries that were in the journal, with those of the closes replacing
/// them where both hold a day.
pub proof fn lemma_history_reads_back(
    file_lines: Seq<Seq<char>>,
    closes: Seq<DailyClose>,
    stock: Seq<char>,
    currency: Seq<char>,
    separator: char,
    currency_symbol_before: bool,
    generator: Seq<char>,
    written: Seq<Entry>,
)
    requires
        journal_table(file_lines) is Ok,
        all_days_known(closes),
        keys_descending(written),
        entries_map(written) == journal_table(file_lines)->Ok_0.union_prefer_right(
            inserted_map(close_entries(closes, stock, currency, separator, currency_symbol_before)),
        ),
    ensures
        journal_table(journal_lines_of(generator, written)) == Ok::<
            Map<Seq<char>, Seq<char>>,
            (int, JournalLineError),
        >(
            journal_table(file_lines)->Ok_0.union_prefer_right(
                inserted_map(close_entries(closes, stock, currency, separator, currency_symbol_before)),
            ),
        ),
{
    let es = close_entries(closes, stock, currency, separator, currency_symbol_before);
    let file_map = journal_table(file_lines)->Ok_0;
    lemma_read_dates_have_no_space(file_lines);
    lemma_descending_distinct(written);
    assert forall|i: int| 0 <= i < written.len() implies !(#[trigger] written[i].0).contains(' ') by {
        crate::journal::lemma_entries_map_at(written, i);
        let k = written[i].0;
        if !file_map.contains_key(k) {
            lemma_inserted_map_dom(es);
            assert(entry_dates(es).to_set().contains(k));
            let j = choose|j: int| 0 <= j < entry_dates(es).len() && entry_dates(es)[j] == k;
            assert(utc_calendar_date(closes[j].timestamp) is Some);
            lemma_date_text_has_no_space(utc_calendar_date(closes[j].timestamp).unwrap());
        }
    }
    lemma_journal_roundtrip(generator, written);
}

} // verus!
