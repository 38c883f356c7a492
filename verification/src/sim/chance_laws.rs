//! Laws of chance: how weights are read, and how draws are made.
use crate::sim::pdf::{entries, fixed_point, weights_of, PdfFault};
use crate::sim::rng::{
    accepted_state, draws_to_one, lemma_draw_comes_closer, lemma_one_is_accepted, mixed,
    rejection_bound, stepped, value_below,
};
use crate::text::{
    all_digits, digits_value, is_digit, lemma_digits_grow, lemma_place_of, trimmed,
};
use crate::types::two64;
use vstd::arithmetic::div_mod::{lemma_fundamental_div_mod, lemma_mod_sub_multiples_vanish};
use vstd::arithmetic::power::{lemma_pow_adds, lemma_pow_positive, pow};
use vstd::prelude::*;

verus! {

/// Digits that are put after others shift them by as many places.
pub proof fn lemma_digits_join(a: Seq<char>, b: Seq<char>)
    ensures
        digits_value(a + b) == digits_value(a) * pow(10, b.len()) + digits_value(b),
    decreases b.len(),
{
    if b.len() == 0 {
        assert(a + b == a);
        assert(pow(10, 0) == 1) by {
            reveal(pow);
        }
    } else {
        let rest = b.drop_last();
        lemma_digits_join(a, rest);
        assert((a + b).drop_last() == a + rest);
        let (x, p) = (digits_value(a), pow(10, rest.len()));
        assert(pow(10, b.len()) == 10 * p) by {
            reveal(pow);
        }
        assert(x * (10 * p) == (x * p) * 10) by (nonlinear_arith);
    }
}

/// What is written with a point, read without it.
pub open spec fn is_exactly(v: int, digits: Seq<char>, places: nat) -> bool {
    v * pow(10, places) == digits_value(digits) * 1_000_000_000
}

/// A weight is read as the decimal number that is written, in billionths, if there are no more
/// than nine places and it fits.
pub proof fn weights_are_read_exactly(s: Seq<char>, whole: Seq<char>, part: Seq<char>)
    requires
        all_digits(whole),
        all_digits(part),
        whole.len() + part.len() > 0,
        s == whole + seq!['.'] + part,
    ensures
        part.len() > 9 ==> fixed_point(s) == Err::<u64, PdfFault>(PdfFault::TooPrecise(s)),
        part.len() <= 9 ==> match fixed_point(s) {
            Ok(v) => is_exactly(v as int, whole + part, part.len()),
            Err(e) => e == PdfFault::BadWeight(s) && forall|v: int| #[trigger]
                is_exactly(v, whole + part, part.len()) ==> v > u64::MAX,
        },
{
    let dot = whole.len() as int;
    assert forall|j: int| 0 <= j < dot implies s[j] != '.' by {
        assert(s[j] == whole[j]);
        assert(is_digit(whole[j]));
    }
    lemma_place_of(s, '.', dot);
    assert(s.take(dot) == whole);
    assert(s.skip(dot + 1) == part);
    if whole.len() > 0 {
        assert(is_digit(whole[0]));
        assert(s[0] == whole[0]);
    }
    if part.len() <= 9 {
        let n = part.len();
        let (x, y) = (digits_value(whole), digits_value(part));
        lemma_digits_join(whole, part);
        lemma_pow_adds(10, (9 - n) as nat, n);
        assert(pow(10, 9) == 1_000_000_000) by {
            reveal_with_fuel(pow, 10);
        }
        let (p, q) = (pow(10, n), pow(10, (9 - n) as nat));
        lemma_pow_positive(10, n);
        lemma_pow_positive(10, (9 - n) as nat);
        assert(q * p == 1_000_000_000);
        let value = x * 1_000_000_000 + y * q;
        assert((y * q) * p == y * 1_000_000_000) by (nonlinear_arith)
            requires
                q * p == 1_000_000_000,
        ;
        assert((x * 1_000_000_000 + y * q) * p == (x * p) * 1_000_000_000 + (y * q) * p)
            by (nonlinear_arith);
        assert(value * p == digits_value(whole + part) * 1_000_000_000);
        assert(whole.take(0) == Seq::<char>::empty() && part.take(0) == Seq::<char>::empty());
        lemma_digits_grow(whole, 0);
        lemma_digits_grow(part, 0);
        assert(y * q >= 0) by (nonlinear_arith)
            requires
                y >= 0,
                q >= 0,
        ;
        assert forall|v: int| #[trigger] is_exactly(v, whole + part, n) implies v == value by {
            assert(v == value) by (nonlinear_arith)
                requires
                    v * p == value * p,
                    p > 0,
            ;
        }
    }
}

/// A weight without a point is a whole number.
pub proof fn whole_weights_are_read_exactly(s: Seq<char>)
    requires
        all_digits(s),
        s.len() > 0,
    ensures
        digits_value(s) * 1_000_000_000 <= u64::MAX ==> fixed_point(s) == Ok::<u64, PdfFault>(
            (digits_value(s) * 1_000_000_000) as u64,
        ),
        digits_value(s) * 1_000_000_000 > u64::MAX ==> fixed_point(s) == Err::<u64, PdfFault>(
            PdfFault::BadWeight(s),
        ),
{
    assert forall|j: int| 0 <= j < s.len() implies s[j] != '.' by {
        assert(is_digit(s[j]));
    }
    lemma_place_of(s, '.', s.len() as int);
    assert(s.take(s.len() as int) == s);
    assert(is_digit(s[0]));
}

/// The state after `k` steps.
pub open spec fn steps_on(state: u64, k: nat) -> u64
    decreases k,
{
    if k == 0 {
        state
    } else {
        stepped(steps_on(state, (k - 1) as nat))
    }
}

/// The low half of a draw's product is among those that would favour some values.
pub open spec fn is_rejected(state: u64, n: u64) -> bool {
    (mixed(state) * n) % two64() < two64() % (n as int)
}

proof fn lemma_steps_from(state: u64, k: nat)
    ensures
        steps_on(stepped(state), k) == steps_on(state, k + 1),
    decreases k,
{
    reveal_with_fuel(steps_on, 2);
    if k > 0 {
        lemma_steps_from(state, (k - 1) as nat);
    }
}

proof fn lemma_rejection(n: u64)
    requires
        n > 0,
    ensures
        rejection_bound(n) == two64() % (n as int),
{
    lemma_mod_sub_multiples_vanish(two64(), n as int);
}

/// A draw is made from the first state that is not rejected.
pub proof fn the_first_accepted_state_is_drawn_from(state: u64, n: u64) -> (k: nat)
    requires
        n > 0,
    ensures
        accepted_state(state, n) == steps_on(state, k),
        !is_rejected(steps_on(state, k), n),
        forall|j: nat| j < k ==> is_rejected(#[trigger] steps_on(state, j), n),
    decreases draws_to_one(state),
{
    lemma_rejection(n);
    assert(steps_on(state, 0) == state);
    if is_rejected(state, n) {
        lemma_one_is_accepted(state, n);
        lemma_draw_comes_closer(state);
        let k = the_first_accepted_state_is_drawn_from(stepped(state), n);
        lemma_steps_from(state, k);
        assert forall|j: nat| j < k + 1 implies is_rejected(#[trigger] steps_on(state, j), n) by {
            if j > 0 {
                lemma_steps_from(state, (j - 1) as nat);
                assert(is_rejected(steps_on(stepped(state), (j - 1) as nat), n));
            }
        }
        k + 1
    } else {
        0
    }
}

/// The value that is drawn is the part of the range that the mixed state falls in.
pub proof fn draws_split_the_range_evenly(state: u64, n: u64)
    requires
        n > 0,
    ensures
        value_below(state, n) * two64() <= mixed(state) * n < (value_below(state, n) + 1)
            * two64(),
        0 <= value_below(state, n) < n,
{
    let x = mixed(state);
    lemma_fundamental_div_mod((x * n) as int, two64());
    assert(0 <= x * n < n * two64()) by (nonlinear_arith)
        requires
            0 <= x < two64(),
            n > 0,
    ;
}

/// The entries of a list are its parts without the blanks around them; blank parts are left out.
pub proof fn blank_parts_are_left_out(parts: Seq<Seq<char>>)
    ensures
        entries(parts) == parts.map_values(|p: Seq<char>| trimmed(p)).filter(
            |p: Seq<char>| p.len() > 0,
        ),
    decreases parts.len(),
{
    reveal(Seq::filter);
    let cut = parts.map_values(|p: Seq<char>| trimmed(p));
    if parts.len() > 0 {
        let rest = parts.drop_last();
        blank_parts_are_left_out(rest);
        assert(cut.drop_last() == rest.map_values(|p: Seq<char>| trimmed(p)));
    } else {
        assert(cut == Seq::<Seq<char>>::empty());
        assert(parts == Seq::<Seq<char>>::empty());
    }
}

/// A list is read if every entry is, in order; else it fails as its first entry that is not read.
pub proof fn lists_are_read_entry_by_entry(list: Seq<Seq<char>>)
    ensures
        match weights_of(list) {
            Ok(weights) => weights.len() == list.len() && forall|i: int|
                0 <= i < list.len() ==> fixed_point(#[trigger] list[i]) == Ok::<u64, PdfFault>(
                    weights[i],
                ),
            Err(fault) => exists|i: int|
                0 <= i < list.len() && fixed_point(#[trigger] list[i]) == Err::<u64, PdfFault>(
                    fault,
                ) && forall|j: int| 0 <= j < i ==> fixed_point(#[trigger] list[j]) is Ok,
        },
    decreases list.len(),
{
    if list.len() > 0 {
        let rest = list.drop_last();
        lists_are_read_entry_by_entry(rest);
        assert(forall|i: int| 0 <= i < rest.len() ==> rest[i] == #[trigger] list[i]);
        let n = rest.len() as int;
        match weights_of(rest) {
            Ok(before) => {
                assert forall|j: int| 0 <= j < n implies fixed_point(#[trigger] list[j]) is Ok by {
                    assert(rest[j] == list[j]);
                }
                assert(list[n] == list.last());
                if let Ok(weights) = weights_of(list) {
                    assert forall|i: int| 0 <= i < list.len() implies fixed_point(
                        #[trigger] list[i],
                    ) == Ok::<u64, PdfFault>(weights[i]) by {
                        if i < n {
                            assert(rest[i] == list[i]);
                        }
                    }
                }
            },
            Err(fault) => {
                let i = choose|i: int|
                    0 <= i < n && fixed_point(#[trigger] rest[i]) == Err::<u64, PdfFault>(fault)
                        && forall|j: int| 0 <= j < i ==> fixed_point(#[trigger] rest[j]) is Ok;
                assert(list[i] == rest[i]);
                assert forall|j: int| 0 <= j < i implies fixed_point(#[trigger] list[j]) is Ok by {
                    assert(rest[j] == list[j]);
                }
            },
        }
    }
}

} // verus!
