//! Text for people: token labels, paths and amounts in whole units.
use crate::book::{symbol_place, PoolBook, TokenInfo};
use crate::live::base::synced::Verdict;
use crate::text::{decimal_text, decimal_u256};
use crate::types::{checksum_text, Address, U256};
use vstd::prelude::*;
use vstd::string::{StrSliceExecFns, StringExecFns};

verus! {

/// A token's symbol, or the start of its address where the book does not list it.
pub open spec fn label(book: PoolBook, address: Address) -> Seq<char> {
    let symbols = book.tokens.symbol_seq();
    match symbol_place(symbols, book.tokens@, address, symbols.len() as int) {
        Some(i) => symbols[i],
        None => checksum_text(address.value()).take(10) + "…"@,
    }
}

/// Look up a token's symbol for display, falling back to a short address.
pub fn token_label(book: &PoolBook, address: Address) -> (r: String)
    ensures
        r@ == label(*book, address),
{
    match book.symbol_of(address) {
        Some(symbol) => symbol.clone(),
        None => {
            let text = address.checksum();
            let start = text.as_str().substring_char(0, 10);
            assert(text@.subrange(0, 10) =~= text@.take(10));
            start.to_owned().concat("…")
        },
    }
}

/// The last of the first `n` symbols whose token has this address.
pub open spec fn last_symbol_place(
    symbols: Seq<Seq<char>>,
    tokens: Map<Seq<char>, TokenInfo>,
    address: Address,
    n: int,
) -> Option<int>
    decreases n,
{
    if n <= 0 {
        None
    } else if tokens[symbols[n - 1]].address == address {
        Some(n - 1)
    } else {
        last_symbol_place(symbols, tokens, address, n - 1)
    }
}

/// A token's label in the watcher's lines: its last symbol, or both ends of its address where the
/// book does not list it.
pub open spec fn watch_label(book: PoolBook, address: Address) -> Seq<char> {
    let symbols = book.tokens.symbol_seq();
    match last_symbol_place(symbols, book.tokens@, address, symbols.len() as int) {
        Some(i) => symbols[i],
        None => checksum_text(address.value()).take(6) + "…"@ + checksum_text(
            address.value(),
        ).skip(38),
    }
}

/// A token's label in the watcher's lines.
pub fn watch_token_label(book: &PoolBook, address: Address) -> (r: String)
    ensures
        r@ == watch_label(*book, address),
{
    let mut n: usize = book.tokens.len();
    while n > 0
        invariant
            n <= book.tokens.symbol_seq().len(),
            last_symbol_place(
                book.tokens.symbol_seq(),
                book.tokens@,
                address,
                book.tokens.symbol_seq().len() as int,
            ) == last_symbol_place(book.tokens.symbol_seq(), book.tokens@, address, n as int),
        decreases n,
    {
        if book.tokens.value_at(n - 1).address == address {
            return book.tokens.symbol_at(n - 1).clone();
        }
        n = n - 1;
    }
    let text = address.checksum();
    let start = text.as_str().substring_char(0, 6);
    let end = text.as_str().substring_char(38, 42);
    assert(text@.subrange(0, 6) =~= text@.take(6));
    assert(text@.subrange(38, 42) =~= text@.skip(38));
    start.to_owned().concat("…").concat(end)
}

/// The first `n` labels with a separator between them.
pub open spec fn joined(labels: Seq<Seq<char>>, sep: Seq<char>, n: int) -> Seq<char>
    decreases n,
{
    if n <= 0 {
        Seq::empty()
    } else if n == 1 {
        labels[0]
    } else {
        joined(labels, sep, n - 1) + sep + labels[n - 1]
    }
}

/// The labels of a path.
pub open spec fn labels_of(book: PoolBook, tokens: Seq<Address>) -> Seq<Seq<char>> {
    tokens.map_values(|t: Address| label(book, t))
}

/// The labels of a path in the watcher's lines.
pub open spec fn watch_labels_of(book: PoolBook, tokens: Seq<Address>) -> Seq<Seq<char>> {
    tokens.map_values(|t: Address| watch_label(book, t))
}

/// A path of tokens by their labels, with a separator between them.
pub fn path_text(book: &PoolBook, tokens: &[Address], sep: &str) -> (r: String)
    ensures
        r@ == joined(labels_of(*book, tokens@), sep@, tokens@.len() as int),
{
    let mut out = String::new();
    let mut i: usize = 0;
    assert(out@ =~= joined(labels_of(*book, tokens@), sep@, 0));
    while i < tokens.len()
        invariant
            i <= tokens@.len(),
            out@ == joined(labels_of(*book, tokens@), sep@, i as int),
        decreases tokens@.len() - i,
    {
        let next = token_label(book, tokens[i]);
        out = if i == 0 {
            next
        } else {
            out.concat(sep).concat(next.as_str())
        };
        i = i + 1;
    }
    out
}

/// A path of tokens in the watcher's lines, with arrows between their labels.
pub fn watch_path_text(book: &PoolBook, tokens: &[Address]) -> (r: String)
    ensures
        r@ == joined(watch_labels_of(*book, tokens@), "->"@, tokens@.len() as int),
{
    let mut out = String::new();
    let mut i: usize = 0;
    assert(out@ =~= joined(watch_labels_of(*book, tokens@), "->"@, 0));
    while i < tokens.len()
        invariant
            i <= tokens@.len(),
            out@ == joined(watch_labels_of(*book, tokens@), "->"@, i as int),
        decreases tokens@.len() - i,
    {
        let next = watch_token_label(book, tokens[i]);
        out = if i == 0 {
            next
        } else {
            out.concat("->").concat(next.as_str())
        };
        i = i + 1;
    }
    out
}

/// A text with zeros before it, up to six characters.
pub open spec fn padded(s: Seq<char>) -> Seq<char>
    decreases 6 - s.len(),
{
    if s.len() >= 6 {
        s
    } else {
        padded(seq!['0'] + s)
    }
}

/// An amount in whole units: the whole part, and the rest as at least six digits.
pub open spec fn units(amount: int, scale: int) -> Seq<char> {
    decimal_text(amount / scale) + "."@ + padded(decimal_text(amount % scale))
}

fn pad(s: String) -> (r: String)
    ensures
        r@ == padded(s@),
    decreases 6 - s@.len(),
{
    if s.as_str().unicode_len() >= 6 {
        s
    } else {
        let mut longer = String::new();
        longer.push('0');
        let longer = longer.concat(s.as_str());
        assert(longer@ =~= seq!['0'] + s@);
        pad(longer)
    }
}

/// An amount in whole units of `scale` smallest ones.
pub fn units_text(amount: U256, scale: U256) -> (r: String)
    requires
        scale@ != 0,
    ensures
        r@ == units(amount@, scale@),
        r@ == decimal_text(amount@ / scale@) + "."@ + padded(decimal_text(amount@ % scale@)),
{
    let whole = decimal_u256(amount.div_floor(scale));
    let rest = pad(decimal_u256(amount.remainder(scale)));
    whole.concat(".").concat(rest.as_str())
}

/// What a cycle nets: the whole units of its profit, if it has one.
pub open spec fn net(profit: Option<U256>, scale: int) -> Seq<char> {
    match profit {
        Some(p) => "+"@ + decimal_text(p@ / scale) + " USDC ✅"@,
        None => "unprofitable"@,
    }
}

/// What a cycle nets, in whole units of `scale` smallest ones.
pub fn net_text(profit: Option<U256>, scale: U256) -> (r: String)
    requires
        scale@ != 0,
    ensures
        r@ == net(profit, scale@),
        profit matches Some(p) ==> r@ == "+"@ + decimal_text(p@ / scale@) + " USDC ✅"@,
        profit is None ==> r@ == "unprofitable"@,
{
    match profit {
        Some(p) => {
            let whole = decimal_u256(p.div_floor(scale));
            "+".to_owned().concat(whole.as_str()).concat(" USDC ✅")
        },
        None => "unprofitable".to_owned(),
    }
}

/// What the chain says of a candidate.
pub open spec fn verdict(v: Verdict, scale: int) -> Seq<char> {
    match v {
        Verdict::Profit(x) => "chain +"@ + units(x@, scale),
        Verdict::Loss(x) => "chain -"@ + units(x@, scale) + " (not profitable)"@,
        Verdict::NotACycle => "chain: reverts / not a real cycle"@,
    }
}

/// What the chain says of a candidate, in whole units of `scale` smallest ones.
pub fn verdict_text(v: Verdict, scale: U256) -> (r: String)
    requires
        scale@ != 0,
    ensures
        r@ == verdict(v, scale@),
        v matches Verdict::Profit(x) ==> r@ == "chain +"@ + units(x@, scale@),
        v matches Verdict::Loss(x) ==> r@ == "chain -"@ + units(x@, scale@)
            + " (not profitable)"@,
{
    match v {
        Verdict::Profit(x) => {
            let amount = units_text(x, scale);
            "chain +".to_owned().concat(amount.as_str())
        },
        Verdict::Loss(x) => {
            let amount = units_text(x, scale);
            "chain -".to_owned().concat(amount.as_str()).concat(" (not profitable)")
        },
        Verdict::NotACycle => "chain: reverts / not a real cycle".to_owned(),
    }
}

} // verus!
