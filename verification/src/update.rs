//! Daily updates of per-commodity price files: which commodities to update,
//! where their prices go, and which quotes are new since the latest price
//! already recorded.

use vstd::prelude::*;
use crate::date::{
    chrono_date_from_ymd, date_before, date_of, epoch_day, is_before, is_valid_date,
    time_first_day, time_last_day, utc_calendar_date, utc_date_of_timestamp, Date,
};
use crate::text::{lemma_text_lt_total, lemma_text_lt_transitive, text_lt, text_lt_exec};
use rust_decimal::Decimal;

verus! {

/// A decimal price value of the `rust_decimal` crate, carried as it is.
#[verifier::external_type_specification]
#[verifier::external_body]
pub struct ExDecimal(Decimal);

/// The texts of the names, strictly ascending in text order.
pub open spec fn names_ascending(v: Seq<Seq<char>>) -> bool {
    forall|i: int, j: int| 0 <= i < j < v.len() ==> text_lt(v[i], v[j])
}

/// The views of a sequence of strings.
pub open spec fn name_views(v: Seq<String>) -> Seq<Seq<char>> {
    v.map_values(|s: String| s@)
}

/// `k` is one of the names and differs from the excluded one.
pub open spec fn selected(names: Seq<Seq<char>>, exclude: Option<Seq<char>>, k: Seq<char>) -> bool {
    names.contains(k) && exclude != Some(k)
}

/// The distinct names, ascending, without `exclude` (a `BTreeSet` filled
/// with the names that differ from `exclude`).
fn sorted_distinct_names(names: &Vec<String>, exclude: Option<&str>) -> (out: Vec<String>)
    ensures
        names_ascending(name_views(out@)),
        forall|k: Seq<char>|
            name_views(out@).contains(k) <==> selected(
                name_views(names@),
                match exclude {
                    Some(e) => Some(e@),
                    None => None,
                },
                k,
            ),
{
    let ghost nv = name_views(names@);
    let ghost ex = match exclude {
        Some(e) => Some(e@),
        None => None::<Seq<char>>,
    };
    let excluded: Option<String> = match exclude {
        Some(e) => Some(String::from_str(e)),
        None => None,
    };
    let mut out: Vec<String> = Vec::new();
    let n = names.len();
    let mut i: usize = 0;
    while i < n
        invariant
            n == names.len(),
            nv == name_views(names@),
            i <= n,
            match excluded {
                Some(e) => ex == Some(e@),
                None => ex is None,
            },
            names_ascending(name_views(out@)),
            forall|k: Seq<char>|
                name_views(out@).contains(k) <==> selected(nv.take(i as int), ex, k),
        decreases n - i,
    {
        let ghost ov = name_views(out@);
        let ghost name = names@[i as int]@;
        proof {
            assert forall|k: Seq<char>| #[trigger]
                selected(nv.take(i + 1), ex, k) <==> (selected(nv.take(i as int), ex, k) || (k
                    == name && ex != Some(name))) by {
                assert(nv.take(i + 1)[i as int] == name);
                if nv.take(i as int).contains(k) {
                    let j = choose|j: int| 0 <= j < i && #[trigger] nv.take(i as int)[j] == k;
                    assert(nv.take(i + 1)[j] == k);
                }
                if nv.take(i + 1).contains(k) {
                    let j = choose|j: int| 0 <= j < i + 1 && #[trigger] nv.take(i + 1)[j] == k;
                    if j < i {
                        assert(nv.take(i as int)[j] == k);
                    }
                }
            }
        }
        let skip = match &excluded {
            Some(e) => names[i] == *e,
            None => false,
        };
        if !skip {
            let mut p: usize = 0;
            while p < out.len() && text_lt_exec(out[p].as_str(), names[i].as_str())
                invariant
                    ov == name_views(out@),
                    p <= out.len(),
                    i < n,
                    n == names.len(),
                    name == names@[i as int]@,
                    forall|q: int| 0 <= q < p ==> text_lt(#[trigger] ov[q], name),
                decreases out.len() - p,
            {
                p += 1;
            }
            let present = p < out.len() && out[p] == names[i];
            if !present {
                proof {
                    let nvv = ov.insert(p as int, name);
                    if p < ov.len() {
                        lemma_text_lt_total(ov[p as int], name);
                    }
                    assert forall|q: int| p <= q < ov.len() implies text_lt(name, #[trigger] ov[q]) by {
                        if q > p {
                            lemma_text_lt_transitive(name, ov[p as int], ov[q]);
                        }
                    }
                    assert forall|a: int, b: int| 0 <= a < b < nvv.len() implies text_lt(
                        nvv[a],
                        nvv[b],
                    ) by {
                        if a == p {
                            assert(nvv[b] == ov[b - 1]);
                        } else if b == p {
                            assert(nvv[a] == ov[a]);
                        } else {
                            let oa = if a < p { a } else { a - 1 };
                            let ob = if b < p { b } else { b - 1 };
                            assert(nvv[a] == ov[oa] && nvv[b] == ov[ob]);
                        }
                    }
                    assert forall|k: Seq<char>| nvv.contains(k) <==> (ov.contains(k) || k == name) by {
                        if ov.contains(k) {
                            let j = choose|j: int| 0 <= j < ov.len() && ov[j] == k;
                            let nj = if j < p { j } else { j + 1 };
                            assert(nvv[nj] == k);
                        }
                        if k == name {
                            assert(nvv[p as int] == k);
                        }
                        if nvv.contains(k) {
                            let j = choose|j: int| 0 <= j < nvv.len() && nvv[j] == k;
                            if j != p {
                                let oj = if j < p { j } else { j - 1 };
                                assert(ov[oj] == k);
                            }
                        }
                    }
                }
                let nm = names[i].clone();
                out.insert(p, nm);
                assert(name_views(out@) =~= ov.insert(p as int, name));
            } else {
                assert(ov[p as int] == name);
                assert(ov.contains(name));
            }
        }
        i += 1;
    }
    assert(nv.take(n as int) =~= nv);
    out
}

/// The commodities of a journal, distinct and ascending (the list that
/// `print_commodities` prints).
pub fn listed_commodities(names: &Vec<String>) -> (out: Vec<String>)
    ensures
        names_ascending(name_views(out@)),
        forall|k: Seq<char>| name_views(out@).contains(k) <==> name_views(names@).contains(k),
{
    sorted_distinct_names(names, None)
}

/// The commodities whose prices are to be updated: those of the journal
/// other than the base currency, distinct and ascending.
pub fn commodities_to_update(names: &Vec<String>, base_currency: &str) -> (out: Vec<String>)
    ensures
        names_ascending(name_views(out@)),
        forall|k: Seq<char>|
            name_views(out@).contains(k) <==> (name_views(names@).contains(k) && k
                != base_currency@),
{
    sorted_distinct_names(names, Some(base_currency))
}

/// The name of the prices file of a commodity.
pub open spec fn prices_file_name_of(commodity: Seq<char>) -> Seq<char> {
    commodity + seq!['.', 'j', 'o', 'u', 'r', 'n', 'a', 'l']
}

/// `<commodity>.journal`.
pub fn prices_file_name(commodity: &str) -> (r: String)
    ensures
        r@ == prices_file_name_of(commodity@),
{
    proof {
        reveal_strlit(".journal");
    }
    let mut r = String::from_str(commodity);
    r.append(".journal");
    r
}

/// A quote: its Unix timestamp and its closing value, absent when it could
/// not be represented as a decimal.
#[derive(Debug, Clone, Copy)]
pub struct PriceQuote {
    pub timestamp: i64,
    pub value: Option<Decimal>,
}

/// A price to record: the day and the value.
#[derive(Debug, Clone, Copy, PartialEq)]
pub struct PricePoint {
    pub date: Date,
    pub value: Decimal,
}

/// A quote whose day is known: the day (absent when it has none the
/// calendar libraries accept) and the closing value (absent when it could not
/// be represented as a decimal).
#[derive(Debug, Clone, Copy)]
pub struct DatedQuote {
    pub date: Option<Date>,
    pub value: Option<Decimal>,
}

/// `d` is after the latest recorded date, if there is one.
pub open spec fn is_newer(d: Date, latest: Option<Date>) -> bool {
    match latest {
        None => true,
        Some(l) => date_before(l, d),
    }
}

/// The price a dated quote yields: when it has a day newer than `latest`
/// and a value.
pub open spec fn dated_point(q: DatedQuote, latest: Option<Date>) -> Option<PricePoint> {
    match q.date {
        None => None,
        Some(d) => if is_newer(d, latest) {
            match q.value {
                Some(v) => Some(PricePoint { date: d, value: v }),
                None => None,
            }
        } else {
            None
        },
    }
}

/// The prices the dated quotes yield, in the order of the quotes.
pub open spec fn dated_points(quotes: Seq<DatedQuote>, latest: Option<Date>) -> Seq<PricePoint> {
    quotes.filter_map(|q: DatedQuote| dated_point(q, latest))
}

/// The day of a timestamp: its UTC day, as the `time` crate computes it,
/// when chrono accepts that day.
pub open spec fn quote_day(timestamp: i64) -> Option<Date> {
    match utc_calendar_date(timestamp) {
        None => None,
        Some(t) => if is_valid_date(t.0 as int, t.1 as int, t.2 as int) && -262143 <= t.0
            <= 262142 {
            Some(date_of(t))
        } else {
            None
        },
    }
}

/// The quote with its day.
pub open spec fn dated(q: PriceQuote) -> DatedQuote {
    DatedQuote { date: quote_day(q.timestamp), value: q.value }
}

/// The prices the quotes yield, in the order of the quotes.
pub open spec fn quote_points(quotes: Seq<PriceQuote>, latest: Option<Date>) -> Seq<PricePoint> {
    dated_points(quotes.map_values(|q: PriceQuote| dated(q)), latest)
}

/// No price comes after a later one.
pub open spec fn sorted_by_date(s: Seq<PricePoint>) -> bool {
    forall|i: int, j: int| 0 <= i < j < s.len() ==> !date_before(s[j].date, s[i].date)
}

/// The prices of day `d`.
pub open spec fn on_day(d: Date) -> spec_fn(PricePoint) -> bool {
    |p: PricePoint| p.date == d
}

/// `out` is `inp` sorted by date, prices of one day keeping their order
/// (a stable sort by date).
pub open spec fn stable_sorted_by_date(out: Seq<PricePoint>, inp: Seq<PricePoint>) -> bool {
    &&& sorted_by_date(out)
    &&& forall|d: Date| #[trigger] out.filter(on_day(d)) == inp.filter(on_day(d))
}

proof fn lemma_filter_single(x: PricePoint, d: Date)
    ensures
        seq![x].filter(on_day(d)) == (if x.date == d {
            seq![x]
        } else {
            Seq::<PricePoint>::empty()
        }),
{
    assert(Seq::<PricePoint>::empty().push(x) =~= seq![x]);
    Seq::<PricePoint>::empty().lemma_filter_push(x, on_day(d));
    reveal_with_fuel(Seq::filter, 1);
}

/// The prices the dated quotes yield that are newer than `latest`, sorted
/// by date (stably: quotes of one day keep their order).
pub fn newer_points(quotes: &Vec<DatedQuote>, latest: Option<Date>) -> (out: Vec<PricePoint>)
    ensures
        stable_sorted_by_date(out@, dated_points(quotes@, latest)),
{
    let ghost f = |q: DatedQuote| dated_point(q, latest);
    let mut out: Vec<PricePoint> = Vec::new();
    let n = quotes.len();
    let mut i: usize = 0;
    assert(quotes@.take(0).filter_map(f) =~= Seq::<PricePoint>::empty());
    while i < n
        invariant
            n == quotes.len(),
            i <= n,
            f == (|q: DatedQuote| dated_point(q, latest)),
            stable_sorted_by_date(out@, quotes@.take(i as int).filter_map(f)),
        decreases n - i,
    {
        let ghost cand = quotes@.take(i as int).filter_map(f);
        proof {
            quotes@.lemma_filter_map_take_succ(f, i as int);
        }
        let mut point: Option<PricePoint> = None;
        if let Some(d) = quotes[i].date {
            let newer = match latest {
                None => true,
                Some(l) => is_before(&l, &d),
            };
            if newer {
                if let Some(v) = quotes[i].value {
                    point = Some(PricePoint { date: d, value: v });
                }
            }
        }
        assert(point == f(quotes@[i as int]));
        if let Some(x) = point {
            let ghost ov = out@;
            let mut p: usize = 0;
            while p < out.len() && !is_before(&x.date, &out[p].date)
                invariant
                    ov == out@,
                    p <= out.len(),
                    forall|q: int| 0 <= q < p ==> !date_before(x.date, #[trigger] ov[q].date),
                decreases out.len() - p,
            {
                p += 1;
            }
            proof {
                let nv = ov.insert(p as int, x);
                assert forall|q: int| p <= q < ov.len() implies date_before(
                    x.date,
                    #[trigger] ov[q].date,
                ) by {
                    if q > p {
                        assert(!date_before(ov[q].date, ov[p as int].date));
                    }
                }
                assert forall|a: int, b: int| 0 <= a < b < nv.len() implies !date_before(
                    nv[b].date,
                    nv[a].date,
                ) by {
                    if a == p {
                        assert(nv[b] == ov[b - 1]);
                    } else if b == p {
                        assert(nv[a] == ov[a]);
                    } else {
                        let oa = if a < p { a } else { a - 1 };
                        let ob = if b < p { b } else { b - 1 };
                        assert(nv[a] == ov[oa] && nv[b] == ov[ob]);
                    }
                }
                assert forall|d: Date| #[trigger] nv.filter(on_day(d)) == cand.push(x).filter(
                    on_day(d),
                ) by {
                    let pre = ov.take(p as int);
                    let post = ov.skip(p as int);
                    assert(nv =~= pre + seq![x] + post);
                    assert(ov =~= pre + post);
                    Seq::filter_distributes_over_add(pre + seq![x], post, on_day(d));
                    Seq::filter_distributes_over_add(pre, seq![x], on_day(d));
                    Seq::filter_distributes_over_add(pre, post, on_day(d));
                    lemma_filter_single(x, d);
                    cand.lemma_filter_push(x, on_day(d));
                    assert(ov.filter(on_day(d)) == cand.filter(on_day(d)));
                    if x.date == d {
                        assert forall|k: int| 0 <= k < post.len() implies !(on_day(d))(
                            #[trigger] post[k],
                        ) by {
                            assert(post[k] == ov[p + k]);
                        }
                        assert(post.all(|y: PricePoint| !(on_day(d))(y)));
                        post.lemma_all_neg_filter_empty(on_day(d));
                        assert(post.filter(on_day(d)) =~= Seq::<PricePoint>::empty());
                        assert(pre.filter(on_day(d)) + post.filter(on_day(d)) =~= pre.filter(
                            on_day(d),
                        ));
                        assert((pre.filter(on_day(d)) + seq![x]) + Seq::<PricePoint>::empty()
                            =~= pre.filter(on_day(d)).push(x));
                    } else {
                        assert(pre.filter(on_day(d)) + Seq::<PricePoint>::empty() =~= pre.filter(
                            on_day(d),
                        ));
                    }
                }
            }
            out.insert(p, x);
            assert(quotes@.take(i + 1).filter_map(f) =~= cand.push(x));
        } else {
            assert(quotes@.take(i + 1).filter_map(f) =~= cand);
        }
        i += 1;
    }
    assert(quotes@.take(n as int) =~= quotes@);
    out
}

/// The day of a timestamp (`quote_day`): the UTC day through the `time`
/// crate, then accepted by `chrono::NaiveDate::from_ymd_opt`.
pub fn day_of_timestamp(timestamp: i64) -> (r: Option<Date>)
    ensures
        r == quote_day(timestamp),
        r is Some <==> time_first_day() <= timestamp as int / 86400 <= time_last_day(),
        r matches Some(d) ==> epoch_day(d.year as int, d.month as int, d.day as int)
            == timestamp as int / 86400,
{
    match utc_date_of_timestamp(timestamp) {
        None => None,
        Some(day) => {
            let r = chrono_date_from_ymd(day.year, day.month, day.day);
            proof {
                let t = utc_calendar_date(timestamp).unwrap();
                assert(date_of(t) == day);
            }
            r
        },
    }
}

/// The prices the quotes yield that are newer than `latest`, sorted by date
/// (stably: quotes of one day keep their order).
pub fn new_price_points(quotes: &Vec<PriceQuote>, latest: Option<Date>) -> (out: Vec<PricePoint>)
    ensures
        stable_sorted_by_date(out@, quote_points(quotes@, latest)),
{
    let ghost target = quotes@.map_values(|q: PriceQuote| dated(q));
    let mut dq: Vec<DatedQuote> = Vec::new();
    let n = quotes.len();
    let mut i: usize = 0;
    while i < n
        invariant
            n == quotes.len(),
            i <= n,
            target == quotes@.map_values(|q: PriceQuote| dated(q)),
            dq@ == target.take(i as int),
        decreases n - i,
    {
        let q = DatedQuote { date: day_of_timestamp(quotes[i].timestamp), value: quotes[i].value };
        dq.push(q);
        assert(dq@ =~= target.take(i + 1));
        i += 1;
    }
    assert(target.take(n as int) =~= target);
    newer_points(&dq, latest)
}

/// Every price recorded by an update is newer than the latest price that
/// was already recorded.
pub proof fn lemma_new_points_are_newer(
    quotes: Seq<DatedQuote>,
    latest: Option<Date>,
    out: Seq<PricePoint>,
)
    requires
        stable_sorted_by_date(out, dated_points(quotes, latest)),
    ensures
        forall|i: int| 0 <= i < out.len() ==> is_newer(#[trigger] out[i].date, latest),
        forall|i: int| 0 <= i < out.len() ==> exists|j: int|
            0 <= j < quotes.len() && quotes[j].date == Some(#[trigger] out[i].date),
{
    let f = |q: DatedQuote| dated_point(q, latest);
    assert forall|i: int| 0 <= i < out.len() implies is_newer(#[trigger] out[i].date, latest) && exists|j: int|
            0 <= j < quotes.len() && quotes[j].date == Some(out[i].date) by {
        let x = out[i];
        let d = x.date;
        out.lemma_filter_contains(on_day(d), i);
        let cand = dated_points(quotes, latest);
        assert(cand.filter(on_day(d)).contains(x));
        cand.lemma_filter_contains_rev(on_day(d), x);
        assert(cand.contains(x));
        quotes.lemma_filter_map_contains(f, x);
        let q = choose|q: DatedQuote| quotes.contains(q) && f(q) == Some(x);
        assert(dated_point(q, latest) == Some(x));
        let j = choose|j: int| 0 <= j < quotes.len() && quotes[j] == q;
        assert(quotes[j].date == Some(d));
    }
}

/// A second update right after a complete one records nothing: when no
/// quote falls after the latest recorded date, no price is new.
pub proof fn lemma_update_is_idempotent(
    quotes: Seq<DatedQuote>,
    latest: Date,
    out: Seq<PricePoint>,
)
    requires
        forall|i: int|
            0 <= i < quotes.len() ==> match #[trigger] quotes[i].date {
                Some(d) => !date_before(latest, d),
                None => true,
            },
        stable_sorted_by_date(out, dated_points(quotes, Some(latest))),
    ensures
        out.len() == 0,
{
    lemma_new_points_are_newer(quotes, Some(latest), out);
    if out.len() > 0 {
        let j = choose|j: int| 0 <= j < quotes.len() && quotes[j].date == Some(out[0].date);
        assert(is_newer(out[0].date, Some(latest)));
    }
}


/// An input whose image is present shows up in the output of `filter_map`.
proof fn lemma_filter_map_keeps<A, B>(s: Seq<A>, f: spec_fn(A) -> Option<B>, i: int, y: B)
    requires
        0 <= i < s.len(),
        f(s[i]) == Some(y),
    ensures
        s.filter_map(f).contains(y),
    decreases s.len(),
{
    let p = s.drop_last();
    if i == s.len() - 1 {
        assert((p.filter_map(f) + seq![y])[p.filter_map(f).len() as int] == y);
    } else {
        assert(p[i] == s[i]);
        lemma_filter_map_keeps(p, f, i, y);
        let k = choose|k: int| 0 <= k < p.filter_map(f).len() && p.filter_map(f)[k] == y;
        match f(s.last()) {
            Some(z) => assert((p.filter_map(f) + seq![z])[k] == y),
            None => {},
        }
    }
}

/// The calendar order written out on the fields: `a` is a strictly earlier
/// day than `b`.
pub open spec fn strictly_earlier(a: Date, b: Date) -> bool {
    a.year < b.year || (a.year == b.year && (a.month < b.month || (a.month == b.month && a.day
        < b.day)))
}

/// What an update records, given the latest recorded day `l`: a dated quote
/// with a value is recorded exactly when its day is strictly later than `l`
/// (in particular later months of the same year count), and every recorded
/// price is such a quote.
pub proof fn lemma_update_records_exactly_later_days(
    quotes: Seq<DatedQuote>,
    l: Date,
    out: Seq<PricePoint>,
)
    requires
        stable_sorted_by_date(out, dated_points(quotes, Some(l))),
    ensures
        forall|i: int|
            #![trigger quotes[i]]
            0 <= i < quotes.len() && quotes[i].date is Some && quotes[i].value is Some
                && strictly_earlier(l, quotes[i].date->0) ==> out.contains(
                PricePoint { date: quotes[i].date->0, value: quotes[i].value->0 },
            ),
        forall|k: int| 0 <= k < out.len() ==> strictly_earlier(l, #[trigger] out[k].date),
        forall|k: int|
            0 <= k < out.len() ==> exists|i: int|
                0 <= i < quotes.len() && quotes[i].date == Some(out[k].date) && quotes[i].value
                    == Some(#[trigger] out[k].value),
{
    let f = |q: DatedQuote| dated_point(q, Some(l));
    let cand = dated_points(quotes, Some(l));
    assert forall|i: int|
        #![trigger quotes[i]]
        0 <= i < quotes.len() && quotes[i].date is Some && quotes[i].value is Some
            && strictly_earlier(l, quotes[i].date->0) implies out.contains(
        PricePoint { date: quotes[i].date->0, value: quotes[i].value->0 },
    ) by {
        let x = PricePoint { date: quotes[i].date->0, value: quotes[i].value->0 };
        assert(f(quotes[i]) == Some(x));
        lemma_filter_map_keeps(quotes, f, i, x);
        let j = choose|j: int| 0 <= j < cand.len() && cand[j] == x;
        cand.lemma_filter_contains(on_day(x.date), j);
        assert(out.filter(on_day(x.date)) == cand.filter(on_day(x.date)));
        out.lemma_filter_contains_rev(on_day(x.date), x);
    }
    assert forall|k: int| 0 <= k < out.len() implies strictly_earlier(l, #[trigger] out[k].date)
        && exists|i: int|
        0 <= i < quotes.len() && quotes[i].date == Some(out[k].date) && quotes[i].value == Some(
            out[k].value,
        ) by {
        let x = out[k];
        out.lemma_filter_contains(on_day(x.date), k);
        assert(cand.filter(on_day(x.date)).contains(x));
        cand.lemma_filter_contains_rev(on_day(x.date), x);
        quotes.lemma_filter_map_contains(f, x);
        let q = choose|q: DatedQuote| quotes.contains(q) && f(q) == Some(x);
        let i = choose|i: int| 0 <= i < quotes.len() && quotes[i] == q;
        assert(quotes[i].date == Some(x.date) && quotes[i].value == Some(x.value));
    }
}

/// The prices file of a commodity is named by the whole commodity name
/// followed by `.journal`, so different commodities never share a file.
pub proof fn lemma_prices_file_name_keeps_commodity(a: Seq<char>, b: Seq<char>)
    ensures
        prices_file_name_of(a).len() == a.len() + 8,
        prices_file_name_of(a).take(a.len() as int) == a,
        prices_file_name_of(a).skip(a.len() as int) == seq!['.', 'j', 'o', 'u', 'r', 'n', 'a', 'l'],
        prices_file_name_of(a) == prices_file_name_of(b) ==> a == b,
{
    assert(prices_file_name_of(a).take(a.len() as int) =~= a);
    assert(prices_file_name_of(a).skip(a.len() as int) =~= seq![
        '.',
        'j',
        'o',
        'u',
        'r',
        'n',
        'a',
        'l',
    ]);
    if prices_file_name_of(a) == prices_file_name_of(b) {
        assert(prices_file_name_of(b).take(b.len() as int) =~= b);
        assert(a =~= b);
    }
}

} // verus!
