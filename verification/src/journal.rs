//! Market-price journals: the `P <date> <price info>` lines of an hledger
//! journal, read into a table keyed by date and written back sorted.

use vstd::prelude::*;
use crate::text::{
    lemma_split_once_at, lemma_text_lt_irreflexive, lemma_text_lt_total,
    lemma_text_lt_transitive, split_once, split_once_text, text_lt, text_lt_exec, trim_start,
    trim_start_text,
};

verus! {

/// What is wrong with a journal line that is neither a comment nor a price.
#[derive(Debug, Clone, Copy, PartialEq, Eq)]
pub enum JournalLineError {
    /// The line holds no space at all.
    NoSpace,
    /// The first word of the line is not `P`.
    NotAMarketPrice,
    /// The line holds `P` and one more field only.
    OnlyOneSpace,
}

/// A line of a journal that could not be read, with its position.
#[derive(Debug)]
pub struct JournalError {
    /// Position of the line, counted from 0.
    pub index: usize,
    pub kind: JournalLineError,
    /// The line without its leading whitespace.
    pub line: String,
}

/// A date and the price information written after it.
pub type Entry = (Seq<char>, Seq<char>);

/// What a journal line holds: nothing (a comment), a price entry, or an error.
pub open spec fn journal_line_entry(line: Seq<char>) -> Result<Option<Entry>, JournalLineError> {
    let t = trim_start(line);
    if t.len() > 0 && t[0] == ';' {
        Ok(None)
    } else {
        match split_once(t, ' ') {
            None => Err(JournalLineError::NoSpace),
            Some((first, rest)) => if first != seq!['P'] {
                Err(JournalLineError::NotAMarketPrice)
            } else {
                match split_once(rest, ' ') {
                    None => Err(JournalLineError::OnlyOneSpace),
                    Some((date, info)) => Ok(Some((date, info))),
                }
            },
        }
    }
}

/// The table a sequence of journal lines describes: each price line sets the
/// information of its date, a later line overriding an earlier one; the first
/// faulty line, with its position, if there is one.
pub open spec fn journal_table(lines: Seq<Seq<char>>) -> Result<
    Map<Seq<char>, Seq<char>>,
    (int, JournalLineError),
>
    decreases lines.len(),
{
    if lines.len() == 0 {
        Ok(Map::empty())
    } else {
        match journal_table(lines.drop_last()) {
            Err(e) => Err(e),
            Ok(m) => match journal_line_entry(lines.last()) {
                Err(k) => Err((lines.len() - 1, k)),
                Ok(None) => Ok(m),
                Ok(Some((d, i))) => Ok(m.insert(d, i)),
            },
        }
    }
}

/// The views of a sequence of strings.
pub open spec fn text_views(v: Seq<String>) -> Seq<Seq<char>> {
    v.map_values(|s: String| s@)
}

/// The views of a sequence of string pairs.
pub open spec fn entry_views(v: Seq<(String, String)>) -> Seq<Entry> {
    v.map_values(|p: (String, String)| (p.0@, p.1@))
}

/// No two entries share a date.
pub open spec fn keys_distinct(es: Seq<Entry>) -> bool {
    forall|i: int, j: int| 0 <= i < j < es.len() ==> es[i].0 != es[j].0
}

/// The dates of the entries descend strictly in text order.
pub open spec fn keys_descending(es: Seq<Entry>) -> bool {
    forall|i: int, j: int| 0 <= i < j < es.len() ==> text_lt(es[j].0, es[i].0)
}

/// The map from dates to information that a list of entries describes.
pub open spec fn entries_map(es: Seq<Entry>) -> Map<Seq<char>, Seq<char>> {
    Map::new(
        |k: Seq<char>| exists|i: int| 0 <= i < es.len() && es[i].0 == k,
        |k: Seq<char>| es[choose|i: int| 0 <= i < es.len() && es[i].0 == k].1,
    )
}

/// The journal line `P <date> <info>`.
pub open spec fn price_line(date: Seq<char>, info: Seq<char>) -> Seq<char> {
    seq!['P', ' '] + date + seq![' '] + info
}

/// The first line of a generated journal.
pub open spec fn generated_header(generator: Seq<char>) -> Seq<char> {
    seq![';', ' ', 'G', 'e', 'n', 'e', 'r', 'a', 't', 'e', 'd', ' ', 'b', 'y', ' '] + generator
}

/// The lines of a generated journal holding the given entries in order.
pub open spec fn journal_lines_of(generator: Seq<char>, es: Seq<Entry>) -> Seq<Seq<char>> {
    seq![generated_header(generator)] + es.map_values(|e: Entry| price_line(e.0, e.1))
}

pub proof fn lemma_entries_map_at(es: Seq<Entry>, i: int)
    requires
        keys_distinct(es),
        0 <= i < es.len(),
    ensures
        entries_map(es).contains_key(es[i].0),
        entries_map(es)[es[i].0] == es[i].1,
{
    let k = es[i].0;
    assert(exists|j: int| 0 <= j < es.len() && es[j].0 == k);
    let j = choose|j: int| 0 <= j < es.len() && es[j].0 == k;
    if j < i {
        assert(es[j].0 != es[i].0);
    } else if j > i {
        assert(es[i].0 != es[j].0);
    }
}

/// Adding an entry with a new date adds that date to the map.
pub proof fn lemma_entries_map_insert(es: Seq<Entry>, p: int, e: Entry)
    requires
        keys_distinct(es),
        0 <= p <= es.len(),
        !entries_map(es).contains_key(e.0),
    ensures
        keys_distinct(es.insert(p, e)),
        entries_map(es.insert(p, e)) == entries_map(es).insert(e.0, e.1),
{
    let ns = es.insert(p, e);
    assert forall|i: int, j: int| 0 <= i < j < ns.len() implies ns[i].0 != ns[j].0 by {
        if i == p {
            assert(ns[j] == es[j - 1]);
        } else if j == p {
            assert(ns[i] == es[i]);
        } else {
            let oi = if i < p { i } else { i - 1 };
            let oj = if j < p { j } else { j - 1 };
            assert(ns[i] == es[oi] && ns[j] == es[oj]);
        }
    }
    let m = entries_map(es).insert(e.0, e.1);
    assert forall|k: Seq<char>| #[trigger] entries_map(ns).contains_key(k) <==> m.contains_key(k) by {
        if entries_map(ns).contains_key(k) {
            let j = choose|j: int| 0 <= j < ns.len() && ns[j].0 == k;
            if j != p {
                let oj = if j < p { j } else { j - 1 };
                assert(es[oj].0 == k);
            }
        }
        if entries_map(es).contains_key(k) {
            let j = choose|j: int| 0 <= j < es.len() && es[j].0 == k;
            let nj = if j < p { j } else { j + 1 };
            assert(ns[nj].0 == k);
        }
        if k == e.0 {
            assert(ns[p].0 == k);
        }
    }
    assert forall|k: Seq<char>| entries_map(ns).contains_key(k) implies #[trigger] entries_map(
        ns,
    )[k] == m[k] by {
        let j = choose|j: int| 0 <= j < ns.len() && ns[j].0 == k;
        lemma_entries_map_at(ns, j);
        if j != p {
            let oj = if j < p { j } else { j - 1 };
            assert(ns[j] == es[oj]);
            lemma_entries_map_at(es, oj);
        }
    }
    assert(entries_map(ns) =~= m);
}

/// Replacing the information of an existing date updates the map.
pub proof fn lemma_entries_map_update(es: Seq<Entry>, i: int, v: Seq<char>)
    requires
        keys_distinct(es),
        0 <= i < es.len(),
    ensures
        keys_distinct(es.update(i, (es[i].0, v))),
        entries_map(es.update(i, (es[i].0, v))) == entries_map(es).insert(es[i].0, v),
{
    let ns = es.update(i, (es[i].0, v));
    assert forall|a: int, b: int| 0 <= a < b < ns.len() implies ns[a].0 != ns[b].0 by {
        assert(ns[a].0 == es[a].0 && ns[b].0 == es[b].0);
    }
    let m = entries_map(es).insert(es[i].0, v);
    assert forall|k: Seq<char>| #[trigger] entries_map(ns).contains_key(k) <==> m.contains_key(k) by {
        if entries_map(ns).contains_key(k) {
            let j = choose|j: int| 0 <= j < ns.len() && ns[j].0 == k;
            assert(es[j].0 == k);
        }
        if entries_map(es).contains_key(k) {
            let j = choose|j: int| 0 <= j < es.len() && es[j].0 == k;
            assert(ns[j].0 == k);
        }
        if k == es[i].0 {
            assert(ns[i].0 == k);
        }
    }
    assert forall|k: Seq<char>| entries_map(ns).contains_key(k) implies #[trigger] entries_map(
        ns,
    )[k] == m[k] by {
        let j = choose|j: int| 0 <= j < ns.len() && ns[j].0 == k;
        lemma_entries_map_at(ns, j);
        if j != i {
            lemma_entries_map_at(es, j);
        }
    }
    assert(entries_map(ns) =~= m);
}

/// The map of a list with distinct dates has one date per entry.
pub proof fn lemma_entries_map_len(es: Seq<Entry>)
    requires
        keys_distinct(es),
    ensures
        entries_map(es).dom().finite(),
        entries_map(es).len() == es.len(),
{
    let keys = es.map_values(|e: Entry| e.0);
    assert(keys.no_duplicates()) by {
        assert forall|i: int, j: int|
            0 <= i < keys.len() && 0 <= j < keys.len() && i != j implies keys[i] != keys[j] by {
            if i < j {
                assert(es[i].0 != es[j].0);
            } else {
                assert(es[j].0 != es[i].0);
            }
        }
    }
    keys.unique_seq_to_set();
    assert forall|k: Seq<char>| #[trigger] entries_map(es).dom().contains(k) <==> keys.to_set().contains(k) by {
        if entries_map(es).dom().contains(k) {
            let j = choose|j: int| 0 <= j < es.len() && es[j].0 == k;
            assert(keys[j] == k);
        }
        if keys.to_set().contains(k) {
            let j = choose|j: int| 0 <= j < keys.len() && keys[j] == k;
            assert(es[j].0 == k);
        }
    }
    assert(entries_map(es).dom() =~= keys.to_set());
}

/// A descending list has distinct dates.
pub proof fn lemma_descending_distinct(es: Seq<Entry>)
    requires
        keys_descending(es),
    ensures
        keys_distinct(es),
{
    assert forall|i: int, j: int| 0 <= i < j < es.len() implies es[i].0 != es[j].0 by {
        if es[i].0 == es[j].0 {
            lemma_text_lt_irreflexive(es[i].0);
        }
    }
}

/// A price line reads back as the entry it was written from, when the date
/// holds no space.
pub proof fn lemma_price_line_entry(date: Seq<char>, info: Seq<char>)
    requires
        !date.contains(' '),
    ensures
        journal_line_entry(price_line(date, info)) == Ok::<Option<Entry>, JournalLineError>(
            Some((date, info)),
        ),
{
    let s = price_line(date, info);
    assert(s[0] == 'P');
    assert(trim_start(s) == s);
    lemma_split_once_at(s, ' ', 1);
    assert(s.take(1) =~= seq!['P']);
    let rest = s.skip(2);
    assert(rest =~= date + seq![' '] + info);
    assert forall|k: int| 0 <= k < date.len() implies rest[k] != ' ' by {
        assert(rest[k] == date[k]);
    }
    lemma_split_once_at(rest, ' ', date.len() as int);
    assert(rest.take(date.len() as int) =~= date);
    assert(rest.skip(date.len() + 1int) =~= info);
}

/// The header of a generated journal reads as a comment.
pub proof fn lemma_header_is_comment(generator: Seq<char>)
    ensures
        journal_line_entry(generated_header(generator)) == Ok::<Option<Entry>, JournalLineError>(
            None,
        ),
{
    let h = generated_header(generator);
    assert(h[0] == ';');
    assert(trim_start(h) == h);
}

/// Reading back a generated journal gives the entries it was written from.
pub proof fn lemma_journal_roundtrip(generator: Seq<char>, es: Seq<Entry>)
    requires
        keys_distinct(es),
        forall|i: int| 0 <= i < es.len() ==> !(#[trigger] es[i].0).contains(' '),
    ensures
        journal_table(journal_lines_of(generator, es)) == Ok::<
            Map<Seq<char>, Seq<char>>,
            (int, JournalLineError),
        >(entries_map(es)),
    decreases es.len(),
{
    let lines = journal_lines_of(generator, es);
    if es.len() == 0 {
        assert(lines =~= seq![generated_header(generator)]);
        lemma_header_is_comment(generator);
        assert(lines.drop_last() =~= Seq::<Seq<char>>::empty());
        assert(journal_table(lines.drop_last()) == Ok::<
            Map<Seq<char>, Seq<char>>,
            (int, JournalLineError),
        >(Map::empty()));
        assert(entries_map(es) =~= Map::<Seq<char>, Seq<char>>::empty());
    } else {
        let prefix = es.drop_last();
        let last = es.last();
        assert(keys_distinct(prefix));
        lemma_journal_roundtrip(generator, prefix);
        assert(lines.drop_last() =~= journal_lines_of(generator, prefix));
        assert(lines.last() == price_line(last.0, last.1));
        lemma_price_line_entry(last.0, last.1);
        assert(!entries_map(prefix).contains_key(last.0)) by {
            if entries_map(prefix).contains_key(last.0) {
                let j = choose|j: int| 0 <= j < prefix.len() && prefix[j].0 == last.0;
                assert(es[j].0 != es[es.len() - 1].0);
            }
        }
        lemma_entries_map_insert(prefix, prefix.len() as int, last);
        assert(prefix.insert(prefix.len() as int, last) =~= es);
        assert(journal_line_entry(lines.last()) == Ok::<Option<Entry>, JournalLineError>(
            Some((last.0, last.1)),
        ));
    }
}

/// Dates read from a journal never hold a space.
pub proof fn lemma_read_dates_have_no_space(lines: Seq<Seq<char>>)
    ensures
        journal_table(lines) matches Ok(m) ==> forall|k: Seq<char>| #[trigger]
            m.contains_key(k) ==> !k.contains(' '),
    decreases lines.len(),
{
    if lines.len() > 0 {
        lemma_read_dates_have_no_space(lines.drop_last());
        let t = trim_start(lines.last());
        if let Some((first, rest)) = split_once(t, ' ') {
            rest.index_of_first_ensures(' ');
            if let Some(i) = rest.index_of_first(' ') {
                assert forall|k: int| 0 <= k < i implies rest.take(i)[k] != ' ' by {}
            }
        }
    }
}

/// Every line of a journal is read, the first one too: a journal that is a
/// single price line `P <date> <info>` (the date without spaces) holds that
/// one entry.
pub proof fn lemma_single_price_line_read(date: Seq<char>, info: Seq<char>)
    requires
        !date.contains(' '),
    ensures
        journal_table(seq![seq!['P', ' '] + date + seq![' '] + info]) == Ok::<
            Map<Seq<char>, Seq<char>>,
            (int, JournalLineError),
        >(Map::empty().insert(date, info)),
{
    let lines = seq![seq!['P', ' '] + date + seq![' '] + info];
    lemma_price_line_entry(date, info);
    assert(lines.drop_last() =~= Seq::<Seq<char>>::empty());
    assert(journal_table(lines.drop_last()) == Ok::<
        Map<Seq<char>, Seq<char>>,
        (int, JournalLineError),
    >(Map::empty()));
    assert(lines.last() == price_line(date, info));
}

/// Appending a price line `P <date> <info>` (the date without spaces) to a
/// readable journal sets that date to that information, whatever came
/// before; appending a comment line changes nothing.
pub proof fn lemma_appended_lines_read(
    lines: Seq<Seq<char>>,
    date: Seq<char>,
    info: Seq<char>,
    comment: Seq<char>,
)
    requires
        journal_table(lines) is Ok,
        !date.contains(' '),
    ensures
        journal_table(lines.push(seq!['P', ' '] + date + seq![' '] + info)) == Ok::<
            Map<Seq<char>, Seq<char>>,
            (int, JournalLineError),
        >(journal_table(lines)->Ok_0.insert(date, info)),
        journal_table(lines.push(seq![';'] + comment)) == journal_table(lines),
{
    lemma_price_line_entry(date, info);
    let l1 = lines.push(seq!['P', ' '] + date + seq![' '] + info);
    assert(l1.drop_last() =~= lines);
    assert(l1.last() == price_line(date, info));
    let c = seq![';'] + comment;
    let l2 = lines.push(c);
    assert(l2.drop_last() =~= lines);
    assert(c[0] == ';');
    assert(trim_start(c) == c);
}

/// Decides `journal_line_entry`.
pub fn parse_journal_line(line: &str) -> (r: Result<Option<(String, String)>, JournalLineError>)
    ensures
        match journal_line_entry(line@) {
            Ok(None) => r matches Ok(None),
            Ok(Some((d, i))) => r matches Ok(Some((x, y))) && x@ == d && y@ == i,
            Err(e) => r == Err::<Option<(String, String)>, JournalLineError>(e),
        },
{
    let t = trim_start_text(line);
    let ts = t.as_str();
    if ts.unicode_len() > 0 && ts.get_char(0) == ';' {
        return Ok(None);
    }
    match split_once_text(ts, ' ') {
        None => Err(JournalLineError::NoSpace),
        Some((first, rest)) => {
            let fs = first.as_str();
            let is_p = fs.unicode_len() == 1 && fs.get_char(0) == 'P';
            proof {
                if first@.len() == 1 && first@[0] == 'P' {
                    assert(first@ =~= seq!['P']);
                }
            }
            if !is_p {
                return Err(JournalLineError::NotAMarketPrice);
            }
            match split_once_text(rest.as_str(), ' ') {
                None => Err(JournalLineError::OnlyOneSpace),
                Some((date, info)) => Ok(Some((date, info))),
            }
        },
    }
}

/// The price entries of a journal, keyed by date: no date occurs twice.
#[derive(Debug)]
pub struct PriceTable {
    entries: Vec<(String, String)>,
}

impl PriceTable {
    /// The entries, as views.
    pub closed spec fn entry_list(&self) -> Seq<Entry> {
        entry_views(self.entries@)
    }

    #[verifier::type_invariant]
    closed spec fn distinct_dates(&self) -> bool {
        keys_distinct(entry_views(self.entries@))
    }
}

impl View for PriceTable {
    type V = Map<Seq<char>, Seq<char>>;

    open spec fn view(&self) -> Map<Seq<char>, Seq<char>> {
        entries_map(self.entry_list())
    }
}

impl PriceTable {
    /// The empty table.
    pub fn new() -> (t: Self)
        ensures
            t@ == Map::<Seq<char>, Seq<char>>::empty(),
    {
        let t = PriceTable { entries: Vec::new() };
        assert(t@ =~= Map::<Seq<char>, Seq<char>>::empty());
        t
    }

    /// The number of dates in the table.
    pub fn len(&self) -> (n: usize)
        ensures
            self@.dom().finite(),
            n == self@.len(),
    {
        proof {
            use_type_invariant(self);
            lemma_entries_map_len(self.entry_list());
        }
        self.entries.len()
    }

    /// The information of `date`, if the table holds it.
    pub fn get(&self, date: &str) -> (r: Option<String>)
        ensures
            match r {
                Some(v) => self@.contains_key(date@) && v@ == self@[date@],
                None => !self@.contains_key(date@),
            },
    {
        proof {
            use_type_invariant(self);
        }
        let ghost es = self.entry_list();
        let key = String::from_str(date);
        let mut i: usize = 0;
        while i < self.entries.len()
            invariant
                es == entry_views(self.entries@),
                keys_distinct(es),
                i <= self.entries.len(),
                key@ == date@,
                forall|k: int| 0 <= k < i ==> es[k].0 != date@,
            decreases self.entries.len() - i,
        {
            if self.entries[i].0 == key {
                proof {
                    lemma_entries_map_at(es, i as int);
                }
                return Some(self.entries[i].1.clone());
            }
            i += 1;
        }
        None
    }

    /// Sets the information of `date`, replacing what it held.
    pub fn insert(&mut self, date: String, info: String)
        ensures
            final(self)@ == old(self)@.insert(date@, info@),
    {
        proof {
            use_type_invariant(&*self);
        }
        let ghost es = self.entry_list();
        let ghost dv = date@;
        let ghost iv = info@;
        let n = self.entries.len();
        let mut i: usize = 0;
        while i < n
            invariant
                es == entry_views(self.entries@),
                keys_distinct(es),
                n == self.entries.len(),
                i <= n,
                forall|k: int| 0 <= k < i ==> es[k].0 != date@,
                dv == date@,
                iv == info@,
                es == old(self).entry_list(),
            decreases n - i,
        {
            if self.entries[i].0 == date {
                proof {
                    lemma_entries_map_update(es, i as int, info@);
                }
                let mut entries: Vec<(String, String)> = Vec::new();
                std::mem::swap(&mut entries, &mut self.entries);
                entries.set(i, (date, info));
                assert(es[i as int].0 == date@);
                assert(entry_views(entries@) =~= es.update(i as int, (es[i as int].0, info@)));
                self.entries = entries;
                assert(self@ == entries_map(es.update(i as int, (es[i as int].0, iv))));
                assert(self@ == entries_map(es).insert(dv, iv));
                return ;
            }
            i += 1;
        }
        proof {
            assert(!entries_map(es).contains_key(date@)) by {
                if entries_map(es).contains_key(date@) {
                    let j = choose|j: int| 0 <= j < es.len() && es[j].0 == date@;
                    assert(es[j].0 != date@);
                }
            }
            lemma_entries_map_insert(es, n as int, (date@, info@));
        }
        let mut entries: Vec<(String, String)> = Vec::new();
        std::mem::swap(&mut entries, &mut self.entries);
        entries.push((date, info));
        assert(entry_views(entries@) =~= es.insert(n as int, (date@, info@)));
        self.entries = entries;
    }

    /// Adds the entries of `other`, whose information wins where both hold
    /// a date (`HashMap::extend`).
    pub fn extend(&mut self, other: PriceTable)
        ensures
            final(self)@ == old(self)@.union_prefer_right(other@),
    {
        proof {
            use_type_invariant(&other);
        }
        let ghost start = self@;
        let ghost os = other.entry_list();
        let n = other.entries.len();
        let mut i: usize = 0;
        while i < n
            invariant
                n == other.entries.len(),
                os == entry_views(other.entries@),
                keys_distinct(os),
                i <= n,
                self@ == start.union_prefer_right(entries_map(os.take(i as int))),
            decreases n - i,
        {
            let date = other.entries[i].0.clone();
            let info = other.entries[i].1.clone();
            proof {
                let pre = os.take(i as int);
                assert(keys_distinct(pre));
                assert(!entries_map(pre).contains_key(os[i as int].0)) by {
                    if entries_map(pre).contains_key(os[i as int].0) {
                        let j = choose|j: int| 0 <= j < pre.len() && pre[j].0 == os[i as int].0;
                        assert(os[j].0 != os[i as int].0);
                    }
                }
                lemma_entries_map_insert(pre, i as int, os[i as int]);
                assert(pre.insert(i as int, os[i as int]) =~= os.take(i + 1));
                assert(start.union_prefer_right(entries_map(pre)).insert(date@, info@)
                    =~= start.union_prefer_right(entries_map(pre).insert(date@, info@)));
            }
            self.insert(date, info);
            i += 1;
        }
        assert(os.take(n as int) =~= os);
    }
}


/// Once a prefix of the lines is faulty, so are all the lines.
pub proof fn lemma_journal_table_prefix_err(s: Seq<Seq<char>>, j: int)
    requires
        0 <= j <= s.len(),
        journal_table(s.take(j)) is Err,
    ensures
        journal_table(s) == journal_table(s.take(j)),
    decreases s.len() - j,
{
    if j < s.len() {
        assert(s.take(j + 1).drop_last() =~= s.take(j));
        lemma_journal_table_prefix_err(s, j + 1);
    } else {
        assert(s.take(j) =~= s);
    }
}

/// Reads the price entries of journal lines (`journal_table`): comment lines
/// are skipped, a later line for a date overrides an earlier one, and the
/// first faulty line is reported.
pub fn parse_journal_lines(lines: &Vec<String>) -> (r: Result<PriceTable, JournalError>)
    ensures
        match journal_table(text_views(lines@)) {
            Ok(m) => r matches Ok(t) && t@ == m,
            Err((i, k)) => r matches Err(e) && e.index == i && e.kind == k && e.line@ == trim_start(
                lines@[i]@,
            ),
        },
{
    let ghost sv = text_views(lines@);
    let mut table = PriceTable::new();
    let n = lines.len();
    let mut i: usize = 0;
    assert(sv.take(0) =~= Seq::<Seq<char>>::empty());
    while i < n
        invariant
            n == lines.len(),
            sv == text_views(lines@),
            i <= n,
            journal_table(sv.take(i as int)) == Ok::<
                Map<Seq<char>, Seq<char>>,
                (int, JournalLineError),
            >(table@),
        decreases n - i,
    {
        assert(sv.take(i + 1).drop_last() =~= sv.take(i as int));
        assert(sv.take(i + 1).last() == lines@[i as int]@);
        match parse_journal_line(lines[i].as_str()) {
            Err(kind) => {
                proof {
                    lemma_journal_table_prefix_err(sv, i + 1);
                }
                let line = trim_start_text(lines[i].as_str());
                return Err(JournalError { index: i, kind, line });
            },
            Ok(None) => {},
            Ok(Some((date, info))) => {
                table.insert(date, info);
            },
        }
        i += 1;
    }
    assert(sv.take(n as int) =~= sv);
    Ok(table)
}

impl PriceTable {
    /// The entries of the table, dates descending (the order of the written
    /// journal).
    pub fn sorted_entries(&self) -> (out: Vec<(String, String)>)
        ensures
            keys_descending(entry_views(out@)),
            entries_map(entry_views(out@)) == self@,
            out.len() == self@.len(),
            self@.dom().finite(),
    {
        proof {
            use_type_invariant(self);
            lemma_entries_map_len(self.entry_list());
        }
        let ghost es = self.entry_list();
        let n = self.entries.len();
        let mut out: Vec<(String, String)> = Vec::new();
        let mut i: usize = 0;
        assert(es.take(0) =~= Seq::<Entry>::empty());
        assert(entries_map(entry_views(out@)) =~= entries_map(es.take(0)));
        while i < n
            invariant
                n == self.entries.len(),
                es == entry_views(self.entries@),
                keys_distinct(es),
                i <= n,
                out.len() == i,
                keys_descending(entry_views(out@)),
                entries_map(entry_views(out@)) == entries_map(es.take(i as int)),
            decreases n - i,
        {
            let date = self.entries[i].0.clone();
            let info = self.entries[i].1.clone();
            let ghost ov = entry_views(out@);
            let ghost key = date@;
            proof {
                lemma_descending_distinct(ov);
                let pre = es.take(i as int);
                assert(!entries_map(pre).contains_key(key)) by {
                    if entries_map(pre).contains_key(key) {
                        let j = choose|j: int| 0 <= j < pre.len() && pre[j].0 == key;
                        assert(es[j].0 != es[i as int].0);
                    }
                }
                lemma_entries_map_insert(pre, i as int, es[i as int]);
                assert(pre.insert(i as int, es[i as int]) =~= es.take(i + 1));
            }
            let mut p: usize = 0;
            while p < out.len() && !text_lt_exec(out[p].0.as_str(), date.as_str())
                invariant
                    ov == entry_views(out@),
                    p <= out.len(),
                    forall|q: int| 0 <= q < p ==> !text_lt(#[trigger] ov[q].0, key),
                    key == date@,
                decreases out.len() - p,
            {
                p += 1;
            }
            proof {
                let ne = (key, info@);
                let nv = ov.insert(p as int, ne);
                assert(!entries_map(ov).contains_key(key));
                assert forall|q: int| 0 <= q < p implies text_lt(key, #[trigger] ov[q].0) by {
                    if ov[q].0 == key {
                        assert(entries_map(ov).contains_key(key));
                    }
                    lemma_text_lt_total(ov[q].0, key);
                }
                assert forall|q: int| p <= q < ov.len() implies text_lt(#[trigger] ov[q].0, key) by {
                    if q > p {
                        lemma_text_lt_transitive(ov[q].0, ov[p as int].0, key);
                    }
                }
                assert forall|a: int, b: int| 0 <= a < b < nv.len() implies text_lt(
                    nv[b].0,
                    nv[a].0,
                ) by {
                    if a == p {
                        assert(nv[b] == ov[b - 1]);
                    } else if b == p {
                        assert(nv[a] == ov[a]);
                    } else {
                        let oa = if a < p { a } else { a - 1 };
                        let ob = if b < p { b } else { b - 1 };
                        assert(nv[a] == ov[oa] && nv[b] == ov[ob]);
                    }
                }
                lemma_entries_map_insert(ov, p as int, ne);
            }
            out.insert(p, (date, info));
            assert(entry_views(out@) =~= ov.insert(p as int, (key, info@)));
            i += 1;
        }
        assert(es.take(n as int) =~= es);
        out
    }
}

/// `; Generated by <generator>`.
pub fn generated_header_text(generator: &str) -> (r: String)
    ensures
        r@ == generated_header(generator@),
{
    proof {
        reveal_strlit("; Generated by ");
    }
    let mut h = String::from_str("; Generated by ");
    h.append(generator);
    h
}

/// `P <date> <info>`.
pub fn price_line_text(date: &str, info: &str) -> (r: String)
    ensures
        r@ == price_line(date@, info@),
{
    proof {
        reveal_strlit("P ");
        reveal_strlit(" ");
    }
    let mut l = String::from_str("P ");
    l.append(date);
    l.append(" ");
    l.append(info);
    l
}

/// The lines of a generated journal: the header, then one price line per
/// entry, in the order given.
pub fn journal_lines(generator: &str, entries: &Vec<(String, String)>) -> (out: Vec<String>)
    ensures
        text_views(out@) == journal_lines_of(generator@, entry_views(entries@)),
{
    let ghost target = journal_lines_of(generator@, entry_views(entries@));
    let mut out: Vec<String> = Vec::new();
    out.push(generated_header_text(generator));
    let n = entries.len();
    let mut i: usize = 0;
    while i < n
        invariant
            n == entries.len(),
            target == journal_lines_of(generator@, entry_views(entries@)),
            i <= n,
            text_views(out@) == target.take(i + 1),
        decreases n - i,
    {
        let line = price_line_text(entries[i].0.as_str(), entries[i].1.as_str());
        proof {
            let es = entry_views(entries@);
            assert(es[i as int] == (entries@[i as int].0@, entries@[i as int].1@));
            assert(target[i + 1] == es.map_values(|e: Entry| price_line(e.0, e.1))[i as int]);
            assert(target[i + 1] == line@);
        }
        let ghost before = out@;
        out.push(line);
        assert(out@ == before.push(line));
        assert(text_views(out@) =~= text_views(before).push(line@));
        assert(text_views(out@) =~= target.take(i + 2));
        i += 1;
    }
    assert(target.take(n + 1) =~= target);
    out
}

} // verus!
