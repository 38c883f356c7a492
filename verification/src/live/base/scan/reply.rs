//! What calls to pools, factories and tokens return.
use crate::live::abi::{be_value, word, word_at};
use crate::types::{lemma_u256_range, two160, Address, U256};
use vstd::prelude::*;
use vstd::string::StringExecFns;

verus! {

/// The address that a call returned; none where it returned too little, or zero.
pub fn address_reply(raw: &[u8]) -> (r: Option<Address>)
    ensures
        match r {
            Some(a) => raw@.len() >= 32 && a.value() == word_at(raw@, 0) % two160() && a.value()
                != 0,
            None => raw@.len() < 32 || word_at(raw@, 0) % two160() == 0,
        },
{
    if raw.len() < 32 {
        return None;
    }
    let a = Address::from_word(word(raw, 0));
    if a.hi == 0 && a.lo == 0 {
        None
    } else {
        Some(a)
    }
}

/// The first word that a call returned, if it returned one.
pub fn word_reply(raw: &[u8]) -> (r: Option<U256>)
    ensures
        match r {
            Some(w) => raw@.len() >= 32 && w@ == word_at(raw@, 0),
            None => raw@.len() < 32,
        },
{
    if raw.len() < 32 {
        None
    } else {
        Some(word(raw, 0))
    }
}

/// The decimals that a token returned: the last byte of the word.
pub fn decimals_reply(raw: &[u8]) -> (r: Option<u8>)
    ensures
        match r {
            Some(d) => raw@.len() >= 32 && d == word_at(raw@, 0) % 256,
            None => raw@.len() < 32,
        },
{
    broadcast use lemma_u256_range;

    match word_reply(raw) {
        Some(w) => Some(w.remainder(U256::from_u64(256)).low_u128() as u8),
        None => None,
    }
}

/// A visible ASCII character.
pub open spec fn is_graphic(b: u8) -> bool {
    0x21 <= b <= 0x7e
}

/// The visible ASCII characters among bytes.
pub open spec fn graphic(bytes: Seq<u8>) -> Seq<char>
    decreases bytes.len(),
{
    if bytes.len() == 0 {
        Seq::empty()
    } else if is_graphic(bytes.last()) {
        graphic(bytes.drop_last()).push(bytes.last() as char)
    } else {
        graphic(bytes.drop_last())
    }
}

/// The hexadecimal digit of a number below sixteen.
pub open spec fn hex_digit(d: int) -> char {
    if d < 10 {
        ('0' as int + d) as char
    } else {
        ('a' as int + d - 10) as char
    }
}

/// The low `n` hexadecimal digits of a number.
pub open spec fn hex_text(x: int, n: nat) -> Seq<char>
    decreases n,
{
    if n == 0 {
        Seq::empty()
    } else {
        hex_text(x / 16, (n - 1) as nat).push(hex_digit(x % 16))
    }
}

/// The start of an address's text: `0x` and its first eight digits.
pub open spec fn short_address(a: Address) -> Seq<char> {
    "0x"@ + hex_text(a.hi as int, 8)
}

/// The bytes that a returned `string` holds, if they are there.
pub open spec fn abi_string(raw: Seq<u8>) -> Option<Seq<u8>> {
    let len = be_value(raw.subrange(60, 64));
    if raw.len() >= 64 && len > 0 && 64 + len <= raw.len() {
        Some(raw.subrange(64, 64 + len))
    } else {
        None
    }
}

/// A token's symbol from what `symbol()` returned: both ABI `string` and legacy `bytes32` symbols,
/// or the short address where neither holds visible characters.
pub open spec fn symbol_text(token: Address, raw: Option<Seq<u8>>) -> Seq<char> {
    match raw {
        None => short_address(token),
        Some(raw) => {
            let text = if raw.len() == 32 {
                graphic(raw)
            } else {
                match abi_string(raw) {
                    Some(bytes) => graphic(bytes),
                    None => Seq::empty(),
                }
            };
            if text.len() == 0 {
                short_address(token)
            } else {
                text
            }
        },
    }
}

/// The visible ASCII characters from `from` up to `to`.
fn clean(raw: &[u8], from: usize, to: usize) -> (r: String)
    requires
        from <= to <= raw@.len(),
    ensures
        r@ == graphic(raw@.subrange(from as int, to as int)),
{
    let mut out = String::new();
    let mut i: usize = from;
    assert(raw@.subrange(from as int, from as int) =~= Seq::<u8>::empty());
    while i < to
        invariant
            from <= i <= to <= raw@.len(),
            out@ == graphic(raw@.subrange(from as int, i as int)),
        decreases to - i,
    {
        proof {
            assert(raw@.subrange(from as int, i + 1).drop_last() =~= raw@.subrange(
                from as int,
                i as int,
            ));
        }
        let b: u8 = raw[i];
        if b >= 0x21 && b <= 0x7e {
            out.push(b as char);
        }
        i = i + 1;
    }
    out
}

/// The start of an address's text: `0x` and its first eight digits.
pub fn short_hex(a: Address) -> (r: String)
    ensures
        r@ == short_address(a),
{
    let digits = hex_digits(a.hi, 8);
    "0x".to_owned().concat(digits.as_str())
}

/// The low `n` hexadecimal digits of a number.
fn hex_digits(x: u32, n: u32) -> (r: String)
    ensures
        r@ == hex_text(x as int, n as nat),
    decreases n,
{
    if n == 0 {
        return String::new();
    }
    let mut s = hex_digits(x / 16, n - 1);
    let d: u8 = (x % 16) as u8;
    s.push(
        if d < 10 {
            (0x30 + d) as char
        } else {
            (0x61 + (d - 10)) as char
        },
    );
    s
}

/// A token's symbol from what `symbol()` returned, if anything.
pub fn symbol_reply(token: Address, raw: Option<&[u8]>) -> (r: String)
    ensures
        r@ == symbol_text(
            token,
            match raw {
                Some(raw) => Some(raw@),
                None => None,
            },
        ),
{
    if let Some(raw) = raw {
        let n: usize = raw.len();
        if n == 32 {
            let s = clean(raw, 0, n);
            proof {
                assert(raw@.subrange(0, n as int) =~= raw@);
            }
            if !s.as_str().is_empty() {
                return s;
            }
        } else if n >= 64 {
            proof {
                let tail = raw@.subrange(60, 64);
                reveal_with_fuel(be_value, 5);
                assert(tail.drop_last() =~= seq![tail[0], tail[1], tail[2]]);
                assert(tail.drop_last().drop_last() =~= seq![tail[0], tail[1]]);
                assert(tail.drop_last().drop_last().drop_last() =~= seq![tail[0]]);
                assert(tail.drop_last().drop_last().drop_last().drop_last()
                    =~= Seq::<u8>::empty());
            }
            let len: u64 = (raw[60] as u64) * 0x100_0000 + (raw[61] as u64) * 0x1_0000 + (
            raw[62] as u64) * 0x100 + (raw[63] as u64);
            if len > 0 && len <= (n - 64) as u64 {
                let s = clean(raw, 64, 64 + len as usize);
                if !s.as_str().is_empty() {
                    return s;
                }
            }
        }
    }
    short_hex(token)
}

/// A token for the book, from what `decimals()` and `symbol()` returned; none where the token
/// returned no decimals.
pub fn token_reply(token: Address, decimals: Option<&[u8]>, symbol: Option<&[u8]>) -> (r: Option<
    (Address, String, u8),
>)
    ensures
        match r {
            Some((address, text, d)) => {
                &&& decimals is Some
                &&& decimals->0@.len() >= 32
                &&& address == token
                &&& d == word_at(decimals->0@, 0) % 256
                &&& text@ == symbol_text(
                    token,
                    match symbol {
                        Some(raw) => Some(raw@),
                        None => None,
                    },
                )
            },
            None => decimals is None || decimals->0@.len() < 32,
        },
{
    match decimals {
        Some(raw) => match decimals_reply(raw) {
            Some(d) => Some((token, symbol_reply(token, symbol), d)),
            None => None,
        },
        None => None,
    }
}

} // verus!
