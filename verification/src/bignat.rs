//! Arbitrary-precision natural numbers, held as canonical big-endian bytes.
//!
//! The arithmetic itself is done by `num_bigint::BigUint`; each operation below converts its
//! operands from bytes, makes one call, and converts the result back. The contracts state
//! what the operation computes on the numbers that the byte strings denote.
use vstd::prelude::*;
use vstd::arithmetic::power::*;
use crate::numeral::{bytes_num, digits_below, lemma_leading_digit, lemma_seq_num_bound, nat_digits_u8};
use num_bigint::BigUint;
use num_bigint::ToBigUint;
use num_integer::Integer;
use num_traits::Pow;
use num_traits::ToPrimitive;
use num_traits::Zero;

verus! {

/// A natural number, stored as its big-endian bytes.
pub struct BigNat {
    bytes: Vec<u8>,
}

/// The shape of `BigUint::to_bytes_be`: at least one byte, and no leading zero byte
/// unless the number is zero (then the string is the single byte 0).
pub open spec fn canonical_be(s: Seq<u8>) -> bool {
    s.len() >= 1 && (s.len() == 1 || s[0] != 0)
}

impl BigNat {
    /// The big-endian bytes held.
    pub closed spec fn bytes_view(&self) -> Seq<u8> {
        self.bytes@
    }

    /// The number denoted.
    pub open spec fn value(&self) -> nat {
        bytes_num(self.bytes_view())
    }

    /// The bytes are canonical.
    pub open spec fn wf(&self) -> bool {
        canonical_be(self.bytes_view())
    }

    /// The canonical big-endian bytes of the number.
    pub fn to_bytes_be(&self) -> (r: Vec<u8>)
        ensures
            r@ == self.bytes_view(),
    {
        let mut r: Vec<u8> = Vec::new();
        let n = self.bytes.len();
        for i in 0..n
            invariant
                n == self.bytes@.len(),
                r@ == self.bytes@.subrange(0, i as int),
        {
            r.push(self.bytes[i]);
            assert(r@ =~= self.bytes@.subrange(0, i + 1));
        }
        assert(r@ =~= self.bytes@);
        r
    }
}

/// Bytes are digits below 256.
pub proof fn lemma_bytes_below(s: Seq<u8>)
    ensures
        digits_below(nat_digits_u8(s), 256),
{
    assert forall|i: int| 0 <= i < nat_digits_u8(s).len() implies #[trigger] nat_digits_u8(s)[i]
        < 256 by {
        assert(nat_digits_u8(s)[i] == s[i] as nat);
    }
}

/// A canonical string of `L` bytes denotes a number in `[256^(L-1), 256^L)`, or zero when `L`
/// is 1.
pub proof fn lemma_canonical_bounds(s: Seq<u8>)
    requires
        canonical_be(s),
    ensures
        bytes_num(s) < pow(256, s.len()),
        s.len() > 1 ==> bytes_num(s) >= pow(256, (s.len() - 1) as nat),
{
    lemma_bytes_below(s);
    lemma_seq_num_bound(nat_digits_u8(s), 256);
    if s.len() > 1 {
        assert(nat_digits_u8(s)[0] == s[0] as nat);
        lemma_leading_digit(nat_digits_u8(s), 256);
    }
}

/// `ToBigUint::to_biguint` on a `u32` (num_bigint): always `Some`, holding the same number.
#[verifier::external_body]
pub(crate) fn big_from_u32(x: u32) -> (r: Option<BigNat>)
    ensures
        r is Some,
        r->0.wf(),
        r->0.value() == x,
{
    match x.to_biguint() {
        Some(b) => Some(BigNat { bytes: b.to_bytes_be() }),
        None => None,
    }
}

/// `Zero::zero` for `BigUint` (num_traits, num_bigint): the number zero.
#[verifier::external_body]
pub(crate) fn big_zero() -> (r: BigNat)
    ensures
        r.wf(),
        r.value() == 0,
{
    BigNat { bytes: BigUint::zero().to_bytes_be() }
}

/// `BigUint::from_bytes_be` (num_bigint): the number that big-endian bytes denote.
#[verifier::external_body]
pub(crate) fn big_from_bytes_be(bytes: &[u8]) -> (r: BigNat)
    ensures
        r.wf(),
        r.value() == bytes_num(bytes@),
{
    BigNat { bytes: BigUint::from_bytes_be(bytes).to_bytes_be() }
}

/// `BigUint * &BigUint` (num_bigint): the product.
#[verifier::external_body]
pub(crate) fn big_mul(a: &BigNat, b: &BigNat) -> (r: BigNat)
    ensures
        r.wf(),
        r.value() == a.value() * b.value(),
{
    let x = BigUint::from_bytes_be(&a.bytes);
    let y = BigUint::from_bytes_be(&b.bytes);
    BigNat { bytes: (x * &y).to_bytes_be() }
}

/// `BigUint + BigUint` (num_bigint): the sum.
#[verifier::external_body]
pub(crate) fn big_add(a: &BigNat, b: &BigNat) -> (r: BigNat)
    ensures
        r.wf(),
        r.value() == a.value() + b.value(),
{
    let x = BigUint::from_bytes_be(&a.bytes);
    let y = BigUint::from_bytes_be(&b.bytes);
    BigNat { bytes: (x + y).to_bytes_be() }
}

/// `BigUint - &BigUint` (num_bigint), which panics when the result would be negative: the
/// difference.
#[verifier::external_body]
pub(crate) fn big_sub(a: &BigNat, b: &BigNat) -> (r: BigNat)
    requires
        a.value() >= b.value(),
    ensures
        r.wf(),
        r.value() == a.value() - b.value(),
{
    let x = BigUint::from_bytes_be(&a.bytes);
    let y = BigUint::from_bytes_be(&b.bytes);
    BigNat { bytes: (x - &y).to_bytes_be() }
}

/// `BigUint % BigUint` (num_bigint), which panics on a zero divisor: the remainder.
#[verifier::external_body]
pub(crate) fn big_rem(a: &BigNat, b: &BigNat) -> (r: BigNat)
    requires
        b.value() > 0,
    ensures
        r.wf(),
        r.value() == a.value() % b.value(),
{
    let x = BigUint::from_bytes_be(&a.bytes);
    let y = BigUint::from_bytes_be(&b.bytes);
    BigNat { bytes: (x % y).to_bytes_be() }
}

/// `Integer::div_rem` for `BigUint` (num_integer, num_bigint), which panics on a zero divisor:
/// the quotient and the remainder.
#[verifier::external_body]
pub(crate) fn big_div_rem(a: &BigNat, b: &BigNat) -> (r: (BigNat, BigNat))
    requires
        b.value() > 0,
    ensures
        r.0.wf(),
        r.1.wf(),
        r.0.value() == a.value() / b.value(),
        r.1.value() == a.value() % b.value(),
{
    let x = BigUint::from_bytes_be(&a.bytes);
    let y = BigUint::from_bytes_be(&b.bytes);
    let (q, m) = x.div_rem(&y);
    (BigNat { bytes: q.to_bytes_be() }, BigNat { bytes: m.to_bytes_be() })
}

/// `Pow<usize>` for `BigUint` (num_traits, num_bigint): the power.
#[verifier::external_body]
pub(crate) fn big_pow(a: &BigNat, e: usize) -> (r: BigNat)
    ensures
        r.wf(),
        r.value() == pow(a.value() as int, e as nat),
{
    let x = BigUint::from_bytes_be(&a.bytes);
    BigNat { bytes: Pow::pow(x, e).to_bytes_be() }
}

/// `Zero::is_zero` for `BigUint` (num_traits, num_bigint).
#[verifier::external_body]
pub(crate) fn big_is_zero(a: &BigNat) -> (r: bool)
    ensures
        r == (a.value() == 0),
{
    BigUint::from_bytes_be(&a.bytes).is_zero()
}

/// `ToPrimitive::to_u32` for `BigUint` (num_traits, num_bigint): the number when it fits in a
/// `u32`, else `None`.
#[verifier::external_body]
pub(crate) fn big_to_u32(a: &BigNat) -> (r: Option<u32>)
    ensures
        r is Some <==> a.value() <= u32::MAX,
        r matches Some(v) ==> v == a.value(),
{
    BigUint::from_bytes_be(&a.bytes).to_u32()
}

/// `BigUint < BigUint` (num_bigint's `PartialOrd`): numeric comparison.
#[verifier::external_body]
pub(crate) fn big_lt(a: &BigNat, b: &BigNat) -> (r: bool)
    ensures
        r == (a.value() < b.value()),
{
    BigUint::from_bytes_be(&a.bytes) < BigUint::from_bytes_be(&b.bytes)
}

} // verus!
