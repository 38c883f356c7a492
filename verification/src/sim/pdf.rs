//! Discrete latency distribution.
//!
//! A distribution is written as a comma-separated weight list, e.g. `"0.5,0.25,0.25"`, meaning:
//!   - index 0: P(our arb tx lands on time)     = 0.50
//!   - index 1: P(it lands 1 swap/event late)   = 0.25
//!   - index 2: P(it lands 2 swaps/events late) = 0.25
//!
//! Index = how many subsequent swap events execute against the target pool(s) before our
//! transaction does. The weights must sum to exactly 1.
//!
//! There are no floats: weights are fixed-point integers scaled by [`SCALE`] (1e9), so that the
//! sum is exact. Sampling draws a uniform integer in `[0, SCALE)`.
use crate::sim::rng::{accepted_state, stepped, value_below, SplitMix64};
use crate::text::{
    all_digits, chars_of, digits_between, digits_to_u64, digits_value, is_digit, lemma_digits_grow, pieces,
    place, place_of, split_on, texts, trim, trimmed,
};
use vstd::arithmetic::power::{lemma_pow_positive, pow};
use vstd::prelude::*;

verus! {

/// Fixed-point scale for probabilities (1.0 == 1e9).
pub const SCALE: u64 = 1_000_000_000;

/// Why a weight list is no distribution.
#[derive(Debug, PartialEq, Eq)]
pub enum PdfError {
    /// There is no weight.
    Empty,
    /// A weight is not a valid non-negative decimal.
    BadWeight(String),
    /// The weights do not sum to [`SCALE`].
    NotNormalized { got: u64 },
    /// A weight has more than nine fractional digits.
    TooPrecise(String),
}

/// A [`PdfError`] over the characters of the weight that it names.
pub enum PdfFault {
    Empty,
    BadWeight(Seq<char>),
    NotNormalized(int),
    TooPrecise(Seq<char>),
}

impl PdfError {
    /// The error as a mathematical value.
    pub open spec fn model(self) -> PdfFault {
        match self {
            PdfError::Empty => PdfFault::Empty,
            PdfError::BadWeight(s) => PdfFault::BadWeight(s@),
            PdfError::NotNormalized { got } => PdfFault::NotNormalized(got as int),
            PdfError::TooPrecise(s) => PdfFault::TooPrecise(s@),
        }
    }
}

/// The sum of weights.
pub open spec fn total(weights: Seq<u64>) -> int
    decreases weights.len(),
{
    if weights.len() == 0 {
        0
    } else {
        total(weights.drop_last()) + weights.last()
    }
}

/// A non-negative decimal, scaled by [`SCALE`]. The part before the dot may be left out only where
/// there are digits behind it.
pub open spec fn fixed_point(s: Seq<char>) -> Result<u64, PdfFault> {
    let dot = place_of(s, '.');
    let whole = s.take(dot);
    let part = if dot < s.len() {
        s.skip(dot + 1)
    } else {
        Seq::empty()
    };
    let value = digits_value(whole) * SCALE + digits_value(part) * pow(
        10,
        (9 - part.len()) as nat,
    );
    if s.len() == 0 || s[0] == '-' || !all_digits(whole) || !all_digits(part) || (whole.len() == 0
        && part.len() == 0) {
        Err(PdfFault::BadWeight(s))
    } else if part.len() > 9 {
        Err(PdfFault::TooPrecise(s))
    } else if value > u64::MAX {
        Err(PdfFault::BadWeight(s))
    } else {
        Ok(value as u64)
    }
}

/// The entries of a list that are not blank, trimmed.
pub open spec fn entries(parts: Seq<Seq<char>>) -> Seq<Seq<char>>
    decreases parts.len(),
{
    if parts.len() == 0 {
        parts
    } else {
        let before = entries(parts.drop_last());
        let entry = trimmed(parts.last());
        if entry.len() == 0 {
            before
        } else {
            before.push(entry)
        }
    }
}

/// The weights that the entries write, or the fault of the first that writes none.
pub open spec fn weights_of(list: Seq<Seq<char>>) -> Result<Seq<u64>, PdfFault>
    decreases list.len(),
{
    if list.len() == 0 {
        Ok(Seq::empty())
    } else {
        match (weights_of(list.drop_last()), fixed_point(list.last())) {
            (Err(fault), _) => Err(fault),
            (_, Err(fault)) => Err(fault),
            (Ok(before), Ok(weight)) => Ok(before.push(weight)),
        }
    }
}

/// The weights of a written distribution.
pub open spec fn written_weights(s: Seq<char>) -> Result<Seq<u64>, PdfFault> {
    weights_of(entries(pieces(s, ',')))
}

/// The weights, where they are a distribution.
pub open spec fn normalized(weights: Seq<u64>) -> Result<Seq<u64>, PdfFault> {
    if weights.len() == 0 {
        Err(PdfFault::Empty)
    } else if total(weights) != SCALE {
        Err(PdfFault::NotNormalized(total(weights)))
    } else {
        Ok(weights)
    }
}

/// The distribution that `s` writes.
pub open spec fn written_distribution(s: Seq<char>) -> Result<Seq<u64>, PdfFault> {
    match written_weights(s) {
        Err(fault) => Err(fault),
        Ok(weights) => normalized(weights),
    }
}

/// What an outcome is over mathematical values.
pub open spec fn weights_view(r: Result<Vec<u64>, PdfError>) -> Result<Seq<u64>, PdfFault> {
    match r {
        Ok(weights) => Ok(weights@),
        Err(e) => Err(e.model()),
    }
}

/// What an outcome is over mathematical values.
pub open spec fn pdf_view(r: Result<LatencyPdf, PdfError>) -> Result<Seq<u64>, PdfFault> {
    match r {
        Ok(pdf) => Ok(pdf.weights@),
        Err(e) => Err(e.model()),
    }
}

/// A draw falls in the share of `[0, SCALE)` that belongs to the delay `k`.
pub open spec fn in_share(weights: Seq<u64>, draw: int, k: int) -> bool {
    &&& 0 <= k < weights.len()
    &&& total(weights.take(k)) <= draw < total(weights.take(k + 1))
}

/// The delay that a draw stands for.
pub open spec fn delay_of(weights: Seq<u64>, draw: int) -> int {
    choose|k: int| in_share(weights, draw, k)
}

/// A distribution of delays.
#[derive(Debug, Clone, PartialEq, Eq)]
pub struct LatencyPdf {
    /// `weights[k]` = scaled probability that our tx lands `k` events late.
    pub weights: Vec<u64>,
    /// Cumulative weights for sampling (`cumulative[k]` = sum of `weights[0..=k]`).
    pub cumulative: Vec<u64>,
}

/// Partial sums of weights do not shrink.
proof fn lemma_total_grows(weights: Seq<u64>, i: int, j: int)
    requires
        0 <= i <= j <= weights.len(),
    ensures
        0 <= total(weights.take(i)) <= total(weights.take(j)),
    decreases j,
{
    if j > 0 {
        assert(weights.take(j).drop_last() =~= weights.take(j - 1));
        if i < j {
            lemma_total_grows(weights, i, j - 1);
        } else {
            lemma_total_grows(weights, j - 1, j - 1);
        }
    }
}

/// A fault of an entry is the fault of the list, where it is the first.
proof fn lemma_first_fault(list: Seq<Seq<char>>, n: int)
    requires
        0 <= n <= list.len(),
        weights_of(list.take(n)) is Err,
    ensures
        weights_of(list) == weights_of(list.take(n)),
    decreases list.len(),
{
    if n < list.len() {
        assert(list.drop_last().take(n) =~= list.take(n));
        lemma_first_fault(list.drop_last(), n);
    } else {
        assert(list.take(n) =~= list);
    }
}

impl LatencyPdf {
    /// The weights sum to one, and the cumulative weights are their partial sums.
    pub open spec fn wf(self) -> bool {
        &&& self.weights.len() > 0
        &&& total(self.weights@) == SCALE
        &&& self.cumulative.len() == self.weights.len()
        &&& forall|k: int|
            0 <= k < self.weights.len() ==> #[trigger] self.cumulative@[k] == total(
                self.weights@.take(k + 1),
            )
    }

    /// Parse `"0.5,0.25,0.25"` into a validated distribution.
    pub fn parse(s: &str) -> (r: Result<LatencyPdf, PdfError>)
        requires
            written_weights(s@) matches Ok(weights) ==> total(weights) <= u64::MAX,
        ensures
            pdf_view(r) == written_distribution(s@),
            r matches Ok(pdf) ==> pdf.wf(),
    {
        match parse_weights(s) {
            Ok(weights) => Self::from_weights(weights),
            Err(e) => Err(e),
        }
    }

    /// Build from already-scaled weights (must sum to [`SCALE`]).
    pub fn from_weights(weights: Vec<u64>) -> (r: Result<LatencyPdf, PdfError>)
        requires
            total(weights@) <= u64::MAX,
        ensures
            pdf_view(r) == normalized(weights@),
            r matches Ok(pdf) ==> pdf.wf(),
    {
        if weights.len() == 0 {
            return Err(PdfError::Empty);
        }
        let mut cumulative: Vec<u64> = Vec::new();
        let mut acc: u64 = 0;
        let mut i: usize = 0;
        while i < weights.len()
            invariant
                i <= weights.len(),
                total(weights@) <= u64::MAX,
                acc == total(weights@.take(i as int)),
                cumulative.len() == i,
                forall|k: int|
                    0 <= k < i ==> #[trigger] cumulative@[k] == total(weights@.take(k + 1)),
            decreases weights.len() - i,
        {
            proof {
                assert(weights@.take(i + 1).drop_last() =~= weights@.take(i as int));
                lemma_total_grows(weights@, i + 1, weights@.len() as int);
                assert(weights@.take(weights@.len() as int) =~= weights@);
            }
            acc = acc + weights[i];
            cumulative.push(acc);
            i = i + 1;
        }
        assert(weights@.take(weights@.len() as int) =~= weights@);
        if acc != SCALE {
            return Err(PdfError::NotNormalized { got: acc });
        }
        Ok(LatencyPdf { weights, cumulative })
    }

    /// Largest latency (in events) this distribution can produce.
    pub fn max_delay(&self) -> (r: usize)
        requires
            self.wf(),
        ensures
            r == self.weights.len() - 1,
    {
        self.weights.len() - 1
    }

    /// Scaled weight for `k` events late (0 if out of range).
    pub fn weight(&self, k: usize) -> (r: u64)
        ensures
            r == (if k < self.weights.len() {
                self.weights@[k as int]
            } else {
                0
            }),
    {
        if k < self.weights.len() {
            self.weights[k]
        } else {
            0
        }
    }

    /// Sample a delay (number of events late) using the provided generator: the bucket in whose
    /// share of `[0, SCALE)` the draw falls.
    pub fn sample(&self, rng: &mut SplitMix64) -> (r: usize)
        requires
            self.wf(),
        ensures
            final(rng).state == accepted_state(stepped(old(rng).state), SCALE),
            in_share(self.weights@, value_below(final(rng).state, SCALE), r as int),
            r == delay_of(self.weights@, value_below(final(rng).state, SCALE)),
            self.weights@[r as int] > 0,
    {
        let draw: u64 = rng.below(SCALE);
        let ghost weights = self.weights@;
        let last: usize = self.cumulative.len() - 1;
        let mut k: usize = 0;
        assert(weights.take(0) =~= Seq::<u64>::empty());
        assert(weights.take(weights.len() as int) =~= weights);
        while k < last && draw >= self.cumulative[k]
            invariant
                self.wf(),
                weights == self.weights@,
                k <= last,
                last == self.weights.len() - 1,
                total(weights.take(k as int)) <= draw,
            decreases last - k,
        {
            k = k + 1;
        }
        proof {
            assert(self.cumulative@[k as int] == total(weights.take(k + 1)));
            assert(weights.take(k + 1).drop_last() =~= weights.take(k as int));
            assert(in_share(weights, draw as int, k as int));
            lemma_one_share(weights, draw as int, k as int, delay_of(weights, draw as int));
        }
        k
    }
}

/// The weights that a comma-separated list writes.
pub fn parse_weights(s: &str) -> (r: Result<Vec<u64>, PdfError>)
    ensures
        weights_view(r) == written_weights(s@),
{
    let parts = split_on(s, ',');
    let ghost list = entries(texts(parts@));
    let mut weights: Vec<u64> = Vec::new();
    let mut i: usize = 0;
    proof {
        assert(texts(parts@).take(0) =~= Seq::<Seq<char>>::empty());
        assert(weights@ =~= Seq::<u64>::empty());
    }
    while i < parts.len()
        invariant
            i <= parts.len(),
            list == entries(texts(parts@)),
            list == entries(pieces(s@, ',')),
            weights_of(entries(texts(parts@).take(i as int))) == Ok::<Seq<u64>, PdfFault>(weights@),
        decreases parts.len() - i,
    {
        let entry = trim(parts[i]);
        let ghost upto = texts(parts@).take(i as int);
        let ghost next = texts(parts@).take(i + 1);
        proof {
            assert(next.drop_last() =~= upto);
            assert(next.last() == parts@[i as int]@);
            lemma_entries_prefix(texts(parts@), i + 1);
        }
        if !entry.is_empty() {
            proof {
                assert(entries(next).drop_last() =~= entries(upto));
            }
            match parse_fixed(entry) {
                Ok(weight) => {
                    weights.push(weight);
                },
                Err(e) => {
                    proof {
                        lemma_first_fault(list, entries(next).len() as int);
                    }
                    return Err(e);
                },
            }
        }
        i = i + 1;
    }
    assert(texts(parts@).take(i as int) =~= texts(parts@));
    Ok(weights)
}

/// The entries of the first parts are the first entries.
proof fn lemma_entries_prefix(parts: Seq<Seq<char>>, n: int)
    requires
        0 <= n <= parts.len(),
    ensures
        entries(parts.take(n)).len() <= entries(parts).len(),
        entries(parts).take(entries(parts.take(n)).len() as int) == entries(parts.take(n)),
    decreases parts.len(),
{
    if n < parts.len() {
        lemma_entries_prefix(parts.drop_last(), n);
        assert(parts.drop_last().take(n) =~= parts.take(n));
        let m = entries(parts.take(n)).len() as int;
        assert(entries(parts).take(m) =~= entries(parts.drop_last()).take(m));
    } else {
        assert(parts.take(n) =~= parts);
        assert(entries(parts).take(entries(parts).len() as int) =~= entries(parts));
    }
}

/// Parse a non-negative decimal like "0.25" or "1" into fixed-point scaled by 1e9, with no
/// floating point.
pub fn parse_fixed(s: &str) -> (r: Result<u64, PdfError>)
    ensures
        (match r {
            Ok(v) => Ok::<u64, PdfFault>(v),
            Err(e) => Err(e.model()),
        }) == fixed_point(s@),
{
    let chars = chars_of(s);
    let len: usize = chars.len();
    if len == 0 || chars[0] == '-' {
        return Err(PdfError::BadWeight(s.to_owned()));
    }
    let dot: usize = place(&chars, '.');
    let from: usize = if dot < len {
        dot + 1
    } else {
        len
    };
    let ghost whole = s@.take(dot as int);
    let ghost part = if dot < s@.len() {
        s@.skip(dot + 1)
    } else {
        Seq::empty()
    };
    assert(chars@.subrange(0, dot as int) =~= whole);
    assert(chars@.subrange(from as int, len as int) =~= part);
    if !digits_between(&chars, 0, dot) || !digits_between(&chars, from, len) || (dot == 0 && from
        == len) {
        return Err(PdfError::BadWeight(s.to_owned()));
    }
    if len - from > 9 {
        return Err(PdfError::TooPrecise(s.to_owned()));
    }
    let ghost value = digits_value(whole) * SCALE + digits_value(part) * pow(
        10,
        (9 - part.len()) as nat,
    );
    proof {
        lemma_digits_grow(whole, 0);
        lemma_digits_grow(part, 0);
        lemma_pow_positive(10, (9 - part.len()) as nat);
        assert(value >= digits_value(whole) && value >= digits_value(whole) * SCALE) by (nonlinear_arith)
            requires
                value == digits_value(whole) * 1_000_000_000 + digits_value(part) * pow(
                    10,
                    (9 - part.len()) as nat,
                ),
                digits_value(whole) >= 0,
                digits_value(part) >= 0,
                pow(10, (9 - part.len()) as nat) > 0,
                SCALE == 1_000_000_000,
        ;
    }
    let units: u64 = match digits_to_u64(&chars, 0, dot) {
        Some(v) => v,
        None => return Err(PdfError::BadWeight(s.to_owned())),
    };
    let fraction: u64 = padded_fraction(&chars, from);
    match units.checked_mul(SCALE) {
        None => Err(PdfError::BadWeight(s.to_owned())),
        Some(scaled) => match scaled.checked_add(fraction) {
            None => Err(PdfError::BadWeight(s.to_owned())),
            Some(v) => Ok(v),
        },
    }
}

/// The fractional digits from `from` on, padded to nine.
fn padded_fraction(chars: &Vec<char>, from: usize) -> (r: u64)
    requires
        from <= chars.len() <= from + 9,
        all_digits(chars@.skip(from as int)),
    ensures
        r == digits_value(chars@.skip(from as int)) * pow(
            10,
            (9 - (chars.len() - from)) as nat,
        ),
{
    let ghost part = chars@.skip(from as int);
    let mut value: u64 = 0;
    let mut k: usize = 0;
    let count: usize = chars.len() - from;
    reveal_with_fuel(pow, 10);
    assert(part.take(0) =~= Seq::<char>::empty());
    while k < 9
        invariant
            k <= 9,
            count == chars.len() - from,
            count <= 9,
            from <= chars.len(),
            part == chars@.skip(from as int),
            all_digits(part),
            value < pow(10, k as nat),
            k <= count ==> value == digits_value(part.take(k as int)),
            k > count ==> value == digits_value(part) * pow(10, (k - count) as nat),
        decreases 9 - k,
    {
        reveal_with_fuel(pow, 11);
        proof {
            assert(part.take(part.len() as int) =~= part);
        }
        if k < count {
            let c = chars[from + k];
            proof {
                assert(is_digit(part[k as int]));
                assert(part.take(k + 1).drop_last() =~= part.take(k as int));
            }
            value = value * 10 + (c as u32 - '0' as u32) as u64;
        } else {
            value = value * 10;
            proof {
                let p = pow(10, (k - count) as nat);
                assert(digits_value(part) * (10 * p) == digits_value(part) * p * 10)
                    by (nonlinear_arith);
                assert(digits_value(part) * 10 == digits_value(part) * (10 * 1))
                    by (nonlinear_arith);
            }
        }
        k = k + 1;
    }
    proof {
        assert(part.take(part.len() as int) =~= part);
    }
    value
}

/// A draw falls in one share.
proof fn lemma_one_share(weights: Seq<u64>, draw: int, j: int, k: int)
    requires
        in_share(weights, draw, j),
        in_share(weights, draw, k),
    ensures
        j == k,
{
    if j < k {
        lemma_total_grows(weights, j + 1, k);
    } else if k < j {
        lemma_total_grows(weights, k + 1, j);
    }
}

/// A draw below a partial sum falls in a share.
proof fn lemma_share_exists(weights: Seq<u64>, draw: int, n: int)
    requires
        0 <= n <= weights.len(),
        0 <= draw < total(weights.take(n)),
    ensures
        exists|k: int| in_share(weights, draw, k),
    decreases n,
{
    assert(weights.take(0) =~= Seq::<u64>::empty());
    if n > 0 {
        if draw < total(weights.take(n - 1)) {
            lemma_share_exists(weights, draw, n - 1);
        } else {
            assert(in_share(weights, draw, n - 1));
        }
    }
}

/// The shares of the delays fill `[0, SCALE)` without overlap, each as large as its weight: a
/// delay is drawn with exactly its probability.
pub proof fn shares_partition_the_scale(pdf: LatencyPdf, draw: int, k: int)
    requires
        pdf.wf(),
        0 <= draw < SCALE,
        0 <= k < pdf.weights.len(),
    ensures
        in_share(pdf.weights@, draw, delay_of(pdf.weights@, draw)),
        in_share(pdf.weights@, draw, k) ==> k == delay_of(pdf.weights@, draw),
        total(pdf.weights@.take(k + 1)) - total(pdf.weights@.take(k)) == pdf.weights@[k],
        total(pdf.weights@.take(0)) == 0,
        total(pdf.weights@.take(pdf.weights.len() as int)) == SCALE,
{
    let weights = pdf.weights@;
    assert(weights.take(k + 1).drop_last() =~= weights.take(k));
    assert(weights.take(weights.len() as int) =~= weights);
    assert(weights.take(0) =~= Seq::<u64>::empty());
    lemma_share_exists(weights, draw, weights.len() as int);
    if in_share(weights, draw, k) {
        lemma_one_share(weights, draw, k, delay_of(weights, draw));
    }
}

} // verus!
