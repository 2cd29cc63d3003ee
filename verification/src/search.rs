//! The result table of a stock symbol search.

use vstd::prelude::*;
use crate::text::{pad_left, pad_left_text, pad_right, pad_right_text};

verus! {

/// A row of the search table: the quote type right-aligned in 20
/// characters, the symbol right-aligned in 9, and the name left-aligned in
/// 40 (`"{:>20} | {:>9} \u{2013} {:40}"`).
pub open spec fn search_row(quote_type: Seq<char>, symbol: Seq<char>, name: Seq<char>) -> Seq<
    char,
> {
    pad_left(quote_type, 20) + seq![' ', '|', ' '] + pad_left(symbol, 9) + seq![' ', '\u{2013}', ' ']
        + pad_right(name, 40)
}

/// Formats a row of the search table (`search_row`); the header row is the
/// row of `Type`, `Symbol` and `Name`.
pub fn format_search_row(quote_type: &str, symbol: &str, name: &str) -> (r: String)
    ensures
        r@ == search_row(quote_type@, symbol@, name@),
{
    proof {
        reveal_strlit(" | ");
        reveal_strlit(" \u{2013} ");
    }
    let mut out = pad_left_text(quote_type, 20);
    out.append(" | ");
    let s = pad_left_text(symbol, 9);
    out.append(s.as_str());
    out.append(" \u{2013} ");
    let n = pad_right_text(name, 40);
    out.append(n.as_str());
    out
}

/// The name field of a row holds the whole name, padded with spaces to 40
/// characters when shorter and never cut; what precedes it does not depend
/// on the name.
pub proof fn lemma_search_row_keeps_name(
    quote_type: Seq<char>,
    symbol: Seq<char>,
    name: Seq<char>,
)
    ensures
        ({
            let r = search_row(quote_type, symbol, name);
            let e = search_row(quote_type, symbol, seq![]);
            let w: int = if name.len() < 40 {
                40
            } else {
                name.len() as int
            };
            &&& r.len() >= w
            &&& r.subrange(r.len() - w, r.len() as int) == name + Seq::new(
                (w - name.len()) as nat,
                |i: int| ' ',
            )
            &&& e.len() >= 40
            &&& r.subrange(0, r.len() - w) == e.subrange(0, e.len() - 40)
        }),
{
    let r = search_row(quote_type, symbol, name);
    let e = search_row(quote_type, symbol, seq![]);
    let head = pad_left(quote_type, 20) + seq![' ', '|', ' '] + pad_left(symbol, 9) + seq![
        ' ',
        '\u{2013}',
        ' ',
    ];
    let w: int = if name.len() < 40 {
        40
    } else {
        name.len() as int
    };
    assert(r == head + pad_right(name, 40));
    assert(e == head + pad_right(seq![], 40));
    assert(pad_right(name, 40) =~= name + Seq::new((w - name.len()) as nat, |i: int| ' '));
    assert(r.subrange(r.len() - w, r.len() as int) =~= pad_right(name, 40));
    assert(r.subrange(0, r.len() - w) =~= head);
    assert(e.subrange(0, e.len() - 40) =~= head);
}

} // verus!
