//! Laws of texts: how they are cut, compared and written.
use crate::report::{padded, units};
use crate::sim::chance_laws::lemma_digits_join;
use crate::text::{
    all_digits, decimal_text, decimals_read_back, digits_value, is_blank, is_digit, pieces,
    place_of, text_before, trimmed, trimmed_back, trimmed_front,
};
use vstd::arithmetic::power::pow;
use vstd::prelude::*;

verus! {

/// A character is found at its first place.
pub proof fn characters_are_found_first(s: Seq<char>, c: char)
    ensures
        0 <= place_of(s, c) <= s.len(),
        forall|i: int| 0 <= i < place_of(s, c) ==> #[trigger] s[i] != c,
        place_of(s, c) < s.len() ==> s[place_of(s, c)] == c,
    decreases s.len(),
{
    if s.len() > 0 && s[0] != c {
        let rest = s.drop_first();
        characters_are_found_first(rest, c);
        assert(forall|i: int| 0 < i < s.len() ==> rest[i - 1] == #[trigger] s[i]);
    }
}

/// One text comes before another where they first differ, or where it is the start of the other.
pub proof fn texts_compare_where_they_differ(a: Seq<char>, b: Seq<char>, k: int)
    requires
        0 <= k <= a.len(),
        k <= b.len(),
        forall|i: int| 0 <= i < k ==> a[i] == b[i],
        k < a.len() && k < b.len() ==> a[k] != b[k],
    ensures
        text_before(a, b) <==> k < b.len() && (k == a.len() || (k < a.len() && a[k] < b[k])),
    decreases k,
{
    if k > 0 {
        let (x, y) = (a.drop_first(), b.drop_first());
        assert(a[0] == b[0]);
        assert forall|i: int| 0 <= i < k - 1 implies x[i] == y[i] by {
            assert(a[i + 1] == b[i + 1]);
        }
        texts_compare_where_they_differ(x, y, k - 1);
    }
}

/// All of a text is blank.
pub open spec fn all_blank(s: Seq<char>) -> bool {
    forall|i: int| 0 <= i < s.len() ==> is_blank(#[trigger] s[i])
}

/// Trimming takes blanks off both ends, and all of them.
pub proof fn trimming_takes_the_blanks_off(s: Seq<char>)
    ensures
        exists|i: int, j: int|
            0 <= i <= j <= s.len() && #[trigger] s.subrange(i, j) == trimmed(s) && all_blank(
                s.take(i),
            ) && all_blank(s.skip(j)),
        trimmed(s).len() > 0 ==> !is_blank(trimmed(s)[0]) && !is_blank(trimmed(s).last()),
{
    let i = lemma_front(s);
    let front = s.skip(i);
    let n = lemma_back(front);
    let j = i + n;
    assert(s.subrange(i, j) == front.take(n));
    assert(s.subrange(i, j) == trimmed(s));
    assert(s.skip(j) == front.skip(n));
    if trimmed(s).len() > 0 {
        assert(trimmed(s)[0] == front[0]);
    }
}

proof fn lemma_front(s: Seq<char>) -> (i: int)
    ensures
        0 <= i <= s.len(),
        trimmed_front(s) == s.skip(i),
        all_blank(s.take(i)),
        i < s.len() ==> !is_blank(s[i]),
    decreases s.len(),
{
    if s.len() > 0 && is_blank(s[0]) {
        let rest = s.drop_first();
        let i = lemma_front(rest);
        assert(s.skip(i + 1) == rest.skip(i));
        assert forall|k: int| 0 <= k < s.take(i + 1).len() implies is_blank(
            #[trigger] s.take(i + 1)[k],
        ) by {
            if k > 0 {
                assert(rest.take(i)[k - 1] == s[k]);
            }
        }
        i + 1
    } else {
        assert(s.skip(0) == s);
        0
    }
}

proof fn lemma_back(s: Seq<char>) -> (n: int)
    ensures
        0 <= n <= s.len(),
        trimmed_back(s) == s.take(n),
        all_blank(s.skip(n)),
        n > 0 ==> !is_blank(s[n - 1]),
    decreases s.len(),
{
    if s.len() > 0 && is_blank(s.last()) {
        let rest = s.drop_last();
        let n = lemma_back(rest);
        assert(s.take(n) == rest.take(n));
        assert forall|k: int| 0 <= k < s.skip(n).len() implies is_blank(#[trigger] s.skip(n)[k]) by {
            if k < rest.len() - n {
                assert(rest.skip(n)[k] == s.skip(n)[k]);
            }
        }
        n
    } else {
        assert(s.take(s.len() as int) == s);
        s.len() as int
    }
}

/// Pieces with the separator put back between them.
pub open spec fn put_together(parts: Seq<Seq<char>>, sep: char) -> Seq<char>
    decreases parts.len(),
{
    if parts.len() == 0 {
        Seq::empty()
    } else if parts.len() == 1 {
        parts[0]
    } else {
        put_together(parts.drop_last(), sep).push(sep) + parts.last()
    }
}

/// The pieces of a text hold no separator, and put together with separators they are the text.
pub proof fn texts_are_cut_at_the_separators(s: Seq<char>, sep: char)
    ensures
        pieces(s, sep).len() >= 1,
        put_together(pieces(s, sep), sep) == s,
        forall|i: int|
            0 <= i < pieces(s, sep).len() ==> !(#[trigger] pieces(s, sep)[i]).contains(sep),
    decreases s.len(),
{
    if s.len() > 0 {
        let rest = s.drop_last();
        let before = pieces(rest, sep);
        let after = pieces(s, sep);
        texts_are_cut_at_the_separators(rest, sep);
        assert(s == rest.push(s.last()));
        if s.last() == sep {
            assert(after.drop_last() == before);
            assert(put_together(after, sep) == put_together(before, sep).push(sep) + Seq::empty());
        } else {
            let last = before.last().push(s.last());
            assert(after.drop_last() == before.drop_last());
            assert(after.last() == last);
            if before.len() == 1 {
                assert(put_together(before, sep) == before[0]);
                assert(put_together(after, sep) == last);
            } else {
                let front = put_together(before.drop_last(), sep).push(sep);
                assert(front + last == (front + before.last()).push(s.last()));
            }
            assert forall|i: int| 0 <= i < after.len() implies !(#[trigger] after[i]).contains(
                sep,
            ) by {
                if i < after.len() - 1 {
                    assert(after[i] == before[i]);
                } else {
                    assert(!before[before.len() - 1].contains(sep));
                    assert forall|k: int| 0 <= k < last.len() implies last[k] != sep by {
                        if k < before.last().len() {
                            assert(before.last().contains(before.last()[k]));
                        }
                    }
                }
            }
        }
    } else {
        assert(pieces(s, sep) == seq![s]);
    }
}

proof fn lemma_digits_count(n: int, k: nat)
    requires
        0 <= n < pow(10, k),
        k >= 1,
    ensures
        1 <= decimal_text(n).len() <= k,
    decreases k,
{
    assert(pow(10, k) == 10 * pow(10, (k - 1) as nat) && pow(10, 0) == 1) by {
        reveal_with_fuel(pow, 2);
    }
    if n >= 10 {
        lemma_digits_count(n / 10, (k - 1) as nat);
    }
}

proof fn lemma_padded(s: Seq<char>)
    requires
        s.len() <= 6,
        all_digits(s),
    ensures
        padded(s).len() == 6,
        all_digits(padded(s)),
        digits_value(padded(s)) == digits_value(s),
    decreases 6 - s.len(),
{
    if s.len() < 6 {
        let next = seq!['0'] + s;
        let zero = seq!['0'];
        assert(zero.drop_last() == Seq::<char>::empty());
        assert(digits_value(Seq::<char>::empty()) == 0);
        assert(digits_value(zero) == 0);
        lemma_digits_join(zero, s);
        assert(0 * pow(10, s.len()) == 0);
        assert forall|i: int| 0 <= i < next.len() implies is_digit(#[trigger] next[i]) by {
            if i > 0 {
                assert(next[i] == s[i - 1]);
            }
        }
        lemma_padded(next);
    }
}

/// An amount in millionths is written with a point and six places, and reads back without it.
pub proof fn amounts_are_written_to_six_places(amount: int)
    requires
        amount >= 0,
    ensures
        exists|whole: Seq<char>, part: Seq<char>|
            units(amount, 1_000_000) == #[trigger] (whole + "."@ + part) && part.len() == 6
                && all_digits(whole) && all_digits(part) && digits_value(whole + part) == amount,
{
    let (q, r) = (amount / 1_000_000, amount % 1_000_000);
    let whole = decimal_text(q);
    let part = padded(decimal_text(r));
    assert(pow(10, 6) == 1_000_000) by {
        reveal_with_fuel(pow, 7);
    }
    decimals_read_back(q);
    decimals_read_back(r);
    lemma_digits_count(r, 6);
    lemma_padded(decimal_text(r));
    lemma_digits_join(whole, part);
    assert(pow(10, part.len()) == 1_000_000);
    assert(digits_value(whole + part) == q * 1_000_000 + r);
    assert(units(amount, 1_000_000) == whole + "."@ + part);
}

} // verus!
