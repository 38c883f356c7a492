//! The chain's number and identifier types.
//!
//! Each type holds plain machine words and is modelled by a mathematical integer. Wide
//! arithmetic is done by `alloy_primitives`; the functions that call it are the ones marked
//! `external_body`, and what each of them claims stands in its contract.
use std::cmp::Ordering;
use vstd::arithmetic::power::pow;
use vstd::arithmetic::power2::pow2;
use vstd::prelude::*;
use vstd::std_specs::cmp::PartialOrdSpecImpl;

verus! {

/// 2^64.
pub open spec fn two64() -> int {
    0x1_0000_0000_0000_0000int
}

/// 2^128.
pub open spec fn two128() -> int {
    0x1_0000_0000_0000_0000_0000_0000_0000_0000int
}

/// 2^160.
pub open spec fn two160() -> int {
    0x1_0000_0000_0000_0000_0000_0000_0000_0000_0000_0000int
}

/// 2^192.
pub open spec fn two192() -> int {
    0x1_0000_0000_0000_0000_0000_0000_0000_0000_0000_0000_0000_0000int
}

/// 2^255.
pub open spec fn two255() -> int {
    0x8000_0000_0000_0000_0000_0000_0000_0000_0000_0000_0000_0000_0000_0000_0000_0000int
}

/// 2^256.
pub open spec fn two256() -> int {
    0x1_0000_0000_0000_0000_0000_0000_0000_0000_0000_0000_0000_0000_0000_0000_0000_0000int
}

/// The integer whose four base-2^64 digits, least significant first, are given.
pub open spec fn limbs4(l0: u64, l1: u64, l2: u64, l3: u64) -> int {
    l0 + l1 * two64() + l2 * two128() + l3 * two192()
}

/// An unsigned 256-bit integer, held as four 64-bit limbs, least significant first.
#[derive(Clone, Copy, Debug, PartialEq, Eq, Hash, Structural)]
pub struct U256 {
    pub l0: u64,
    pub l1: u64,
    pub l2: u64,
    pub l3: u64,
}

impl View for U256 {
    type V = int;

    closed spec fn view(&self) -> int {
        limbs4(self.l0, self.l1, self.l2, self.l3)
    }
}

/// Every `U256` stands for an integer in `[0, 2^256)`.
pub broadcast proof fn lemma_u256_range(x: U256)
    ensures
        0 <= #[trigger] x@ < two256(),
{
}

/// Two `U256` that stand for the same integer are the same value.
pub proof fn lemma_u256_ext(a: U256, b: U256)
    requires
        a@ == b@,
    ensures
        a == b,
{
    assert(a.l3 == b.l3);
    assert(a.l2 == b.l2);
    assert(a.l1 == b.l1);
}

/// The view of a `U256` in terms of its limbs.
pub proof fn lemma_u256_limbs(x: U256)
    ensures
        x@ == limbs4(x.l0, x.l1, x.l2, x.l3),
{
}

impl PartialOrdSpecImpl for U256 {
    open spec fn obeys_partial_cmp_spec() -> bool {
        true
    }

    open spec fn partial_cmp_spec(&self, other: &U256) -> Option<Ordering> {
        if self@ < other@ {
            Some(Ordering::Less)
        } else if self@ == other@ {
            Some(Ordering::Equal)
        } else {
            Some(Ordering::Greater)
        }
    }
}

impl PartialOrd for U256 {
    fn partial_cmp(&self, other: &U256) -> (r: Option<Ordering>) {
        if self.l3 != other.l3 {
            if self.l3 < other.l3 {
                Some(Ordering::Less)
            } else {
                Some(Ordering::Greater)
            }
        } else if self.l2 != other.l2 {
            if self.l2 < other.l2 {
                Some(Ordering::Less)
            } else {
                Some(Ordering::Greater)
            }
        } else if self.l1 != other.l1 {
            if self.l1 < other.l1 {
                Some(Ordering::Less)
            } else {
                Some(Ordering::Greater)
            }
        } else if self.l0 < other.l0 {
            Some(Ordering::Less)
        } else if self.l0 == other.l0 {
            Some(Ordering::Equal)
        } else {
            Some(Ordering::Greater)
        }
    }
}

impl U256 {
    /// The integer with the given limbs, least significant first.
    pub fn from_limbs(l0: u64, l1: u64, l2: u64, l3: u64) -> (r: U256)
        ensures
            r@ == limbs4(l0, l1, l2, l3),
            r == (U256 { l0, l1, l2, l3 }),
    {
        U256 { l0, l1, l2, l3 }
    }

    /// Zero.
    pub fn zero() -> (r: U256)
        ensures
            r@ == 0,
    {
        U256 { l0: 0, l1: 0, l2: 0, l3: 0 }
    }

    /// One.
    pub fn one() -> (r: U256)
        ensures
            r@ == 1,
    {
        U256 { l0: 1, l1: 0, l2: 0, l3: 0 }
    }

    /// The largest 256-bit integer.
    pub fn max_value() -> (r: U256)
        ensures
            r@ == two256() - 1,
    {
        U256 { l0: u64::MAX, l1: u64::MAX, l2: u64::MAX, l3: u64::MAX }
    }

    /// `v` as a 256-bit integer.
    pub fn from_u64(v: u64) -> (r: U256)
        ensures
            r@ == v,
    {
        U256 { l0: v, l1: 0, l2: 0, l3: 0 }
    }

    /// `v` as a 256-bit integer.
    pub fn from_u128(v: u128) -> (r: U256)
        ensures
            r@ == v,
    {
        let lo: u64 = (v % 0x1_0000_0000_0000_0000) as u64;
        let hi: u64 = (v / 0x1_0000_0000_0000_0000) as u64;
        U256 { l0: lo, l1: hi, l2: 0, l3: 0 }
    }

    /// The low 128 bits.
    pub fn low_u128(&self) -> (r: u128)
        ensures
            r == self@ % two128(),
    {
        let r: u128 = (self.l1 as u128) * 0x1_0000_0000_0000_0000 + (self.l0 as u128);
        proof {
            let q: int = self.l2 + self.l3 * two64();
            assert(self@ == q * two128() + r);
            vstd::arithmetic::div_mod::lemma_fundamental_div_mod_converse(
                self@,
                two128(),
                q,
                r as int,
            );
        }
        r
    }

    /// The value as a `u128` when it fits.
    pub fn to_u128(&self) -> (r: Option<u128>)
        ensures
            match r {
                Some(v) => v == self@,
                None => self@ >= two128(),
            },
    {
        if self.l2 == 0 && self.l3 == 0 {
            Some((self.l1 as u128) * 0x1_0000_0000_0000_0000 + (self.l0 as u128))
        } else {
            None
        }
    }

    /// Whether the value is zero.
    pub fn is_zero(&self) -> (r: bool)
        ensures
            r == (self@ == 0),
    {
        self.l0 == 0 && self.l1 == 0 && self.l2 == 0 && self.l3 == 0
    }

    /// Whether the two values are the same integer.
    pub fn equals(&self, other: &U256) -> (r: bool)
        ensures
            r == (self@ == other@),
            r == (*self == *other),
    {
        self.l0 == other.l0 && self.l1 == other.l1 && self.l2 == other.l2 && self.l3 == other.l3
    }

    /// The smaller of the two values.
    pub fn min_of(self, other: U256) -> (r: U256)
        ensures
            r@ == if self@ <= other@ { self@ } else { other@ },
            r == self || r == other,
    {
        if self <= other {
            self
        } else {
            other
        }
    }

    /// The larger of the two values.
    pub fn max_of(self, other: U256) -> (r: U256)
        ensures
            r@ == if self@ >= other@ { self@ } else { other@ },
            r == self || r == other,
    {
        if self >= other {
            self
        } else {
            other
        }
    }
}

impl U256 {
    /// `ruint::Uint::wrapping_add` on the limbs: the sum modulo 2^256.
    #[verifier::external_body]
    pub(crate) fn wrapping_add(self, rhs: U256) -> (r: U256)
        ensures
            r@ == (self@ + rhs@) % two256(),
    {
        let a = alloy_primitives::U256::from_limbs([self.l0, self.l1, self.l2, self.l3]);
        let b = alloy_primitives::U256::from_limbs([rhs.l0, rhs.l1, rhs.l2, rhs.l3]);
        let [l0, l1, l2, l3] = a.wrapping_add(b).into_limbs();
        U256 { l0, l1, l2, l3 }
    }

    /// `ruint::Uint::wrapping_sub` on the limbs: the difference modulo 2^256.
    #[verifier::external_body]
    pub(crate) fn wrapping_sub(self, rhs: U256) -> (r: U256)
        ensures
            r@ == (self@ - rhs@) % two256(),
    {
        let a = alloy_primitives::U256::from_limbs([self.l0, self.l1, self.l2, self.l3]);
        let b = alloy_primitives::U256::from_limbs([rhs.l0, rhs.l1, rhs.l2, rhs.l3]);
        let [l0, l1, l2, l3] = a.wrapping_sub(b).into_limbs();
        U256 { l0, l1, l2, l3 }
    }

    /// `ruint::Uint::wrapping_mul` on the limbs: the product modulo 2^256.
    #[verifier::external_body]
    pub(crate) fn wrapping_mul(self, rhs: U256) -> (r: U256)
        ensures
            r@ == (self@ * rhs@) % two256(),
    {
        let a = alloy_primitives::U256::from_limbs([self.l0, self.l1, self.l2, self.l3]);
        let b = alloy_primitives::U256::from_limbs([rhs.l0, rhs.l1, rhs.l2, rhs.l3]);
        let [l0, l1, l2, l3] = a.wrapping_mul(b).into_limbs();
        U256 { l0, l1, l2, l3 }
    }

    /// `ruint::Uint::checked_add` on the limbs: the sum, or `None` when it does not fit.
    #[verifier::external_body]
    pub(crate) fn checked_add(self, rhs: U256) -> (r: Option<U256>)
        ensures
            match r {
                Some(v) => v@ == self@ + rhs@,
                None => self@ + rhs@ >= two256(),
            },
    {
        let a = alloy_primitives::U256::from_limbs([self.l0, self.l1, self.l2, self.l3]);
        let b = alloy_primitives::U256::from_limbs([rhs.l0, rhs.l1, rhs.l2, rhs.l3]);
        let [l0, l1, l2, l3] = a.checked_add(b)?.into_limbs();
        Some(U256 { l0, l1, l2, l3 })
    }

    /// `ruint::Uint::checked_sub` on the limbs: the difference, or `None` when it is negative.
    #[verifier::external_body]
    pub(crate) fn checked_sub(self, rhs: U256) -> (r: Option<U256>)
        ensures
            match r {
                Some(v) => v@ == self@ - rhs@,
                None => self@ < rhs@,
            },
    {
        let a = alloy_primitives::U256::from_limbs([self.l0, self.l1, self.l2, self.l3]);
        let b = alloy_primitives::U256::from_limbs([rhs.l0, rhs.l1, rhs.l2, rhs.l3]);
        let [l0, l1, l2, l3] = a.checked_sub(b)?.into_limbs();
        Some(U256 { l0, l1, l2, l3 })
    }

    /// `ruint::Uint::checked_mul` on the limbs: the product, or `None` when it does not fit.
    #[verifier::external_body]
    pub(crate) fn checked_mul(self, rhs: U256) -> (r: Option<U256>)
        ensures
            match r {
                Some(v) => v@ == self@ * rhs@,
                None => self@ * rhs@ >= two256(),
            },
    {
        let a = alloy_primitives::U256::from_limbs([self.l0, self.l1, self.l2, self.l3]);
        let b = alloy_primitives::U256::from_limbs([rhs.l0, rhs.l1, rhs.l2, rhs.l3]);
        let [l0, l1, l2, l3] = a.checked_mul(b)?.into_limbs();
        Some(U256 { l0, l1, l2, l3 })
    }

    /// `ruint::Uint::wrapping_div` on the limbs: the quotient rounded down. The outside
    /// function panics on a zero divisor.
    #[verifier::external_body]
    pub(crate) fn div_floor(self, rhs: U256) -> (r: U256)
        requires
            rhs@ != 0,
        ensures
            r@ == self@ / rhs@,
    {
        let a = alloy_primitives::U256::from_limbs([self.l0, self.l1, self.l2, self.l3]);
        let b = alloy_primitives::U256::from_limbs([rhs.l0, rhs.l1, rhs.l2, rhs.l3]);
        let [l0, l1, l2, l3] = a.wrapping_div(b).into_limbs();
        U256 { l0, l1, l2, l3 }
    }

    /// `ruint::Uint::wrapping_rem` on the limbs: the remainder. The outside function panics
    /// on a zero divisor.
    #[verifier::external_body]
    pub(crate) fn remainder(self, rhs: U256) -> (r: U256)
        requires
            rhs@ != 0,
        ensures
            r@ == self@ % rhs@,
    {
        let a = alloy_primitives::U256::from_limbs([self.l0, self.l1, self.l2, self.l3]);
        let b = alloy_primitives::U256::from_limbs([rhs.l0, rhs.l1, rhs.l2, rhs.l3]);
        let [l0, l1, l2, l3] = a.wrapping_rem(b).into_limbs();
        U256 { l0, l1, l2, l3 }
    }

    /// `ruint::Uint::wrapping_shl` on the limbs: `self * 2^n`, the bits above 2^256 dropped.
    #[verifier::external_body]
    pub(crate) fn shift_left(self, n: usize) -> (r: U256)
        ensures
            r@ == (self@ * pow2(n as nat)) % two256(),
    {
        let a = alloy_primitives::U256::from_limbs([self.l0, self.l1, self.l2, self.l3]);
        let [l0, l1, l2, l3] = a.wrapping_shl(n).into_limbs();
        U256 { l0, l1, l2, l3 }
    }

    /// `ruint::Uint::wrapping_shr` on the limbs: `self / 2^n` rounded down.
    #[verifier::external_body]
    pub(crate) fn shift_right(self, n: usize) -> (r: U256)
        ensures
            r@ == self@ / (pow2(n as nat) as int),
    {
        let a = alloy_primitives::U256::from_limbs([self.l0, self.l1, self.l2, self.l3]);
        let [l0, l1, l2, l3] = a.wrapping_shr(n).into_limbs();
        U256 { l0, l1, l2, l3 }
    }

    /// `ruint::Uint::pow` on the limbs: the power modulo 2^256.
    #[verifier::external_body]
    pub(crate) fn wrapping_pow(self, exp: U256) -> (r: U256)
        ensures
            r@ == pow(self@, exp@ as nat) % two256(),
    {
        let a = alloy_primitives::U256::from_limbs([self.l0, self.l1, self.l2, self.l3]);
        let e = alloy_primitives::U256::from_limbs([exp.l0, exp.l1, exp.l2, exp.l3]);
        let [l0, l1, l2, l3] = a.pow(e).into_limbs();
        U256 { l0, l1, l2, l3 }
    }

    /// `ruint::Uint::bit` on the limbs: whether the bit of weight `2^i` is set.
    #[verifier::external_body]
    pub(crate) fn bit(&self, i: usize) -> (r: bool)
        ensures
            r == ((self@ / (pow2(i as nat) as int)) % 2 == 1),
    {
        alloy_primitives::U256::from_limbs([self.l0, self.l1, self.l2, self.l3]).bit(i)
    }
}


/// An unsigned 512-bit integer, held as eight 64-bit limbs, least significant first: the
/// intermediate of a 256-bit multiply and divide.
#[derive(Clone, Copy, Debug)]
pub struct U512 {
    pub limbs: [u64; 8],
}

impl View for U512 {
    type V = int;

    open spec fn view(&self) -> int {
        limbs4(self.limbs@[0], self.limbs@[1], self.limbs@[2], self.limbs@[3]) + limbs4(
            self.limbs@[4],
            self.limbs@[5],
            self.limbs@[6],
            self.limbs@[7],
        ) * two256()
    }
}

/// 2^512.
pub open spec fn two512() -> int {
    two256() * two256()
}

impl U512 {
    /// `x` widened to 512 bits.
    pub fn from_u256(x: U256) -> (r: U512)
        ensures
            r@ == x@,
    {
        proof {
            lemma_u256_limbs(x);
        }
        U512 { limbs: [x.l0, x.l1, x.l2, x.l3, 0, 0, 0, 0] }
    }

    /// The value as 256 bits, when it fits.
    pub fn to_u256(&self) -> (r: Option<U256>)
        ensures
            match r {
                Some(v) => v@ == self@,
                None => self@ >= two256(),
            },
    {
        let a = self.limbs;
        if a[4] == 0 && a[5] == 0 && a[6] == 0 && a[7] == 0 {
            Some(U256::from_limbs(a[0], a[1], a[2], a[3]))
        } else {
            None
        }
    }

    /// Whether the value is zero.
    pub fn is_zero(&self) -> (r: bool)
        ensures
            r == (self@ == 0),
    {
        let a = self.limbs;
        a[0] == 0 && a[1] == 0 && a[2] == 0 && a[3] == 0 && a[4] == 0 && a[5] == 0 && a[6] == 0
            && a[7] == 0
    }

    /// `ruint::Uint::wrapping_mul` at 512 bits: the product modulo 2^512.
    #[verifier::external_body]
    pub(crate) fn wrapping_mul(self, rhs: U512) -> (r: U512)
        ensures
            r@ == (self@ * rhs@) % two512(),
    {
        let a = alloy_primitives::U512::from_limbs(self.limbs);
        let b = alloy_primitives::U512::from_limbs(rhs.limbs);
        U512 { limbs: a.wrapping_mul(b).into_limbs() }
    }

    /// `ruint::Uint::wrapping_add` at 512 bits: the sum modulo 2^512.
    #[verifier::external_body]
    pub(crate) fn wrapping_add(self, rhs: U512) -> (r: U512)
        ensures
            r@ == (self@ + rhs@) % two512(),
    {
        let a = alloy_primitives::U512::from_limbs(self.limbs);
        let b = alloy_primitives::U512::from_limbs(rhs.limbs);
        U512 { limbs: a.wrapping_add(b).into_limbs() }
    }

    /// `ruint::Uint::div_rem` at 512 bits: the quotient rounded down, and the remainder. The
    /// outside function panics on a zero divisor.
    #[verifier::external_body]
    pub(crate) fn div_rem(self, rhs: U512) -> (r: (U512, U512))
        requires
            rhs@ != 0,
        ensures
            r.0@ == self@ / rhs@,
            r.1@ == self@ % rhs@,
    {
        let a = alloy_primitives::U512::from_limbs(self.limbs);
        let b = alloy_primitives::U512::from_limbs(rhs.limbs);
        let (q, m) = a.div_rem(b);
        (U512 { limbs: q.into_limbs() }, U512 { limbs: m.into_limbs() })
    }
}

/// A signed 256-bit integer in two's complement.
#[derive(Clone, Copy, Debug, PartialEq, Eq, Structural)]
pub struct I256 {
    pub raw: U256,
}

impl View for I256 {
    type V = int;

    open spec fn view(&self) -> int {
        if self.raw@ < two255() {
            self.raw@
        } else {
            self.raw@ - two256()
        }
    }
}

/// `v` is representable as a signed 256-bit integer.
pub open spec fn fits_i256(v: int) -> bool {
    -two255() <= v < two255()
}

/// The quotient of `a / b` rounded toward zero, as signed machine division rounds it.
pub open spec fn quot(a: int, b: int) -> int {
    let q = (if a < 0 { -a } else { a }) / (if b < 0 { -b } else { b });
    if (a < 0) == (b < 0) {
        q
    } else {
        -q
    }
}

/// The remainder that belongs to [`quot`]; it has the sign of `a`.
pub open spec fn quot_rem(a: int, b: int) -> int {
    let m = (if a < 0 { -a } else { a }) % (if b < 0 { -b } else { b });
    if a < 0 {
        -m
    } else {
        m
    }
}

impl PartialOrdSpecImpl for I256 {
    open spec fn obeys_partial_cmp_spec() -> bool {
        true
    }

    open spec fn partial_cmp_spec(&self, other: &I256) -> Option<Ordering> {
        if self@ < other@ {
            Some(Ordering::Less)
        } else if self@ == other@ {
            Some(Ordering::Equal)
        } else {
            Some(Ordering::Greater)
        }
    }
}

impl PartialOrd for I256 {
    fn partial_cmp(&self, other: &I256) -> (r: Option<Ordering>) {
        broadcast use lemma_u256_range;

        let a: bool = self.is_negative();
        let b: bool = other.is_negative();
        if a && !b {
            Some(Ordering::Less)
        } else if b && !a {
            Some(Ordering::Greater)
        } else if self.raw < other.raw {
            Some(Ordering::Less)
        } else if self.raw > other.raw {
            Some(Ordering::Greater)
        } else {
            Some(Ordering::Equal)
        }
    }
}

impl I256 {
    /// Whether the value is below zero.
    pub fn is_negative(&self) -> (r: bool)
        ensures
            r == (self@ < 0),
    {
        broadcast use lemma_u256_range;

        proof {
            lemma_u256_limbs(self.raw);
        }
        self.raw.l3 >= 0x8000_0000_0000_0000
    }

    /// `x` as a signed integer, when it is below 2^255.
    pub fn from_u256(x: U256) -> (r: Option<I256>)
        ensures
            match r {
                Some(v) => v@ == x@,
                None => x@ >= two255(),
            },
    {
        broadcast use lemma_u256_range;

        let v = I256 { raw: x };
        if v.is_negative() {
            None
        } else {
            Some(v)
        }
    }

    /// `v` as a 256-bit signed integer.
    pub fn from_u128(v: u128) -> (r: I256)
        ensures
            r@ == v,
    {
        I256 { raw: U256::from_u128(v) }
    }

    /// `alloy_primitives::Signed` addition: the sum. The outside operator panics, or wraps in
    /// an optimized build, where the sum does not fit.
    #[verifier::external_body]
    pub(crate) fn plus(self, rhs: I256) -> (r: I256)
        requires
            fits_i256(self@ + rhs@),
        ensures
            r@ == self@ + rhs@,
    {
        let (p, q) = (self.raw, rhs.raw);
        let a = alloy_primitives::I256::from_limbs([p.l0, p.l1, p.l2, p.l3]);
        let b = alloy_primitives::I256::from_limbs([q.l0, q.l1, q.l2, q.l3]);
        let [l0, l1, l2, l3] = (a + b).into_limbs();
        I256 { raw: U256 { l0, l1, l2, l3 } }
    }

    /// `alloy_primitives::Signed` subtraction: the difference, where it fits.
    #[verifier::external_body]
    pub(crate) fn minus(self, rhs: I256) -> (r: I256)
        requires
            fits_i256(self@ - rhs@),
        ensures
            r@ == self@ - rhs@,
    {
        let (p, q) = (self.raw, rhs.raw);
        let a = alloy_primitives::I256::from_limbs([p.l0, p.l1, p.l2, p.l3]);
        let b = alloy_primitives::I256::from_limbs([q.l0, q.l1, q.l2, q.l3]);
        let [l0, l1, l2, l3] = (a - b).into_limbs();
        I256 { raw: U256 { l0, l1, l2, l3 } }
    }

    /// `alloy_primitives::Signed` multiplication: the product, where it fits.
    #[verifier::external_body]
    pub(crate) fn times(self, rhs: I256) -> (r: I256)
        requires
            fits_i256(self@ * rhs@),
        ensures
            r@ == self@ * rhs@,
    {
        let (p, q) = (self.raw, rhs.raw);
        let a = alloy_primitives::I256::from_limbs([p.l0, p.l1, p.l2, p.l3]);
        let b = alloy_primitives::I256::from_limbs([q.l0, q.l1, q.l2, q.l3]);
        let [l0, l1, l2, l3] = (a * b).into_limbs();
        I256 { raw: U256 { l0, l1, l2, l3 } }
    }

    /// `alloy_primitives::Signed` division: the quotient rounded toward zero. The outside
    /// operator panics on a zero divisor and on the one quotient that does not fit.
    #[verifier::external_body]
    pub(crate) fn over(self, rhs: I256) -> (r: I256)
        requires
            rhs@ != 0,
            fits_i256(quot(self@, rhs@)),
        ensures
            r@ == quot(self@, rhs@),
    {
        let (p, q) = (self.raw, rhs.raw);
        let a = alloy_primitives::I256::from_limbs([p.l0, p.l1, p.l2, p.l3]);
        let b = alloy_primitives::I256::from_limbs([q.l0, q.l1, q.l2, q.l3]);
        let [l0, l1, l2, l3] = (a / b).into_limbs();
        I256 { raw: U256 { l0, l1, l2, l3 } }
    }

    /// `alloy_primitives::Signed` remainder: it has the sign of the dividend. The outside
    /// operator panics on a zero divisor and on the one quotient that does not fit.
    #[verifier::external_body]
    pub(crate) fn modulo(self, rhs: I256) -> (r: I256)
        requires
            rhs@ != 0,
            fits_i256(quot(self@, rhs@)),
        ensures
            r@ == quot_rem(self@, rhs@),
    {
        let (p, q) = (self.raw, rhs.raw);
        let a = alloy_primitives::I256::from_limbs([p.l0, p.l1, p.l2, p.l3]);
        let b = alloy_primitives::I256::from_limbs([q.l0, q.l1, q.l2, q.l3]);
        let [l0, l1, l2, l3] = (a % b).into_limbs();
        I256 { raw: U256 { l0, l1, l2, l3 } }
    }
}

/// A 20-byte account or contract address, held as its high 32 and low 128 bits.
#[derive(Clone, Copy, Debug, PartialEq, Eq, Hash, Structural)]
pub struct Address {
    pub hi: u32,
    pub lo: u128,
}

impl Address {
    /// The address as a 160-bit integer.
    pub open spec fn value(&self) -> int {
        self.hi * two128() + self.lo
    }

    /// The zero address.
    pub fn zero() -> (r: Address)
        ensures
            r.value() == 0,
    {
        Address { hi: 0, lo: 0 }
    }

    /// The address all of whose bytes are `b`.
    pub fn repeat_byte(b: u8) -> (r: Address)
        ensures
            r.hi == b * 0x0101_0101,
            r.lo == b * 0x0101_0101_0101_0101_0101_0101_0101_0101,
    {
        Address {
            hi: (b as u32) * 0x0101_0101,
            lo: (b as u128) * 0x0101_0101_0101_0101_0101_0101_0101_0101,
        }
    }

    /// The address in the low 20 bytes of a 32-byte word.
    pub fn from_word(w: U256) -> (r: Address)
        ensures
            r.value() == w@ % two160(),
    {
        let lo: u128 = w.low_u128();
        let hi: u32 = (w.l2 % 0x1_0000_0000) as u32;
        proof {
            lemma_u256_limbs(w);
            let top: int = w.l2 as int / 0x1_0000_0000 + w.l3 * 0x1_0000_0000;
            assert(w@ == (w.l2 + w.l3 * two64()) * two128() + w.l1 * two64() + w.l0);
            vstd::arithmetic::div_mod::lemma_fundamental_div_mod_converse(
                w@,
                two128(),
                w.l2 + w.l3 * two64(),
                w.l1 * two64() + w.l0,
            );
            assert(w@ == top * two160() + hi * two128() + lo);
            vstd::arithmetic::div_mod::lemma_fundamental_div_mod_converse(
                w@,
                two160(),
                top,
                hi * two128() + lo,
            );
        }
        Address { hi, lo }
    }

    /// The 32-byte word that holds the address in its low 20 bytes.
    pub fn to_word(&self) -> (r: U256)
        ensures
            r@ == self.value(),
    {
        let l0: u64 = (self.lo % 0x1_0000_0000_0000_0000) as u64;
        let l1: u64 = (self.lo / 0x1_0000_0000_0000_0000) as u64;
        let r = U256::from_limbs(l0, l1, self.hi as u64, 0);
        r
    }
}

/// The EIP-55 text of an address: `0x` and 40 hexadecimal digits in mixed case.
pub uninterp spec fn checksum_text(address: int) -> Seq<char>;

impl Address {
    /// `alloy_primitives::Address::to_checksum` without a chain id: the address's EIP-55 text,
    /// 42 characters long. Which digits are capitals is not stated.
    #[verifier::external_body]
    pub(crate) fn checksum(&self) -> (r: String)
        ensures
            r@ == checksum_text(self.value()),
            r@.len() == 42,
    {
        let (l0, l1) = (self.lo as u64, (self.lo >> 64) as u64);
        let word = alloy_primitives::U256::from_limbs([l0, l1, self.hi as u64, 0]);
        alloy_primitives::Address::from_word(word.into()).to_checksum(None)
    }
}

/// Two addresses with the same 160-bit value are the same address.
pub proof fn lemma_address_ext(a: Address, b: Address)
    requires
        a.value() == b.value(),
    ensures
        a == b,
{
}

impl PartialOrdSpecImpl for Address {
    open spec fn obeys_partial_cmp_spec() -> bool {
        true
    }

    open spec fn partial_cmp_spec(&self, other: &Address) -> Option<Ordering> {
        if self.value() < other.value() {
            Some(Ordering::Less)
        } else if self.value() == other.value() {
            Some(Ordering::Equal)
        } else {
            Some(Ordering::Greater)
        }
    }
}

impl PartialOrd for Address {
    fn partial_cmp(&self, other: &Address) -> (r: Option<Ordering>) {
        if self.hi < other.hi {
            Some(Ordering::Less)
        } else if self.hi > other.hi {
            Some(Ordering::Greater)
        } else if self.lo < other.lo {
            Some(Ordering::Less)
        } else if self.lo > other.lo {
            Some(Ordering::Greater)
        } else {
            Some(Ordering::Equal)
        }
    }
}

/// A 32-byte hash or topic, as the integer its bytes spell most significant first.
#[derive(Clone, Copy, Debug, PartialEq, Eq, Hash, Structural)]
pub struct B256 {
    pub word: U256,
}

impl B256 {
    /// The word all of whose bytes are `b`.
    pub fn repeat_byte(b: u8) -> (r: B256)
        ensures
            r.word.l0 == b * 0x0101_0101_0101_0101,
            r.word.l1 == r.word.l0,
            r.word.l2 == r.word.l0,
            r.word.l3 == r.word.l0,
    {
        let limb: u64 = (b as u64) * 0x0101_0101_0101_0101;
        B256 { word: U256::from_limbs(limb, limb, limb, limb) }
    }
}

} // verus!
