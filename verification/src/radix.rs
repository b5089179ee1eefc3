//! Conversions between numeral strings, byte strings and numbers: NUM_radix, STR_radix, NUM
//! and the fixed-length byte string of a number.
use vstd::prelude::*;
use vstd::arithmetic::power::{pow, lemma_pow_positive, lemma_pow_increases};
use vstd::arithmetic::div_mod::{
    lemma_basic_div,
    lemma_div_denominator,
    lemma_div_is_strictly_smaller,
    lemma_fundamental_div_mod,
    lemma_mod_bound,
};
use crate::numeral::{
    bytes_num,
    bytes_of,
    digit_at,
    digits_below,
    lemma_leading_zeros,
    lemma_pow_succ,
    lemma_seq_num_bound,
    lemma_str_num,
    nat_digits_u32,
    nat_digits_u8,
    num_radix_spec,
    str_radix_spec,
    zero_digits,
};
use crate::bignat::{
    BigNat,
    big_add,
    big_div_rem,
    big_from_bytes_be,
    big_from_u32,
    big_is_zero,
    big_mul,
    big_to_u32,
    big_zero,
    lemma_bytes_below,
    lemma_canonical_bounds,
};
use crate::ff1error::FF1Error;

verus! {

/// Every digit of `s` is below `radix`.
pub open spec fn digits_valid(s: Seq<u32>, radix: nat) -> bool {
    forall|i: int| 0 <= i < s.len() ==> #[trigger] s[i] < radix
}

/// `s[k]` is the first digit of `s` that is not below `radix`.
pub open spec fn first_invalid_digit(s: Seq<u32>, radix: nat, k: int) -> bool {
    &&& 0 <= k < s.len()
    &&& s[k] >= radix
    &&& forall|j: int| 0 <= j < k ==> #[trigger] s[j] < radix
}

/// A quotient is zero exactly when the dividend is below the divisor.
proof fn lemma_div_zero_iff(x: nat, p: int)
    requires
        p > 0,
    ensures
        (x as int / p == 0) <==> (x < p),
{
    if x < p {
        lemma_basic_div(x as int, p);
    } else {
        lemma_fundamental_div_mod(x as int, p);
        lemma_mod_bound(x as int, p);
        if x as int / p == 0 {
            assert(p * (x as int / p) == 0) by (nonlinear_arith)
                requires
                    x as int / p == 0,
            ;
        }
    }
}

/// NUM_radix(X): the number that the digit string `s` denotes in base `radix`, or the first
/// digit that is not below `radix`.
pub fn num_radix(s: &[u32], radix: u32) -> (r: Result<BigNat, FF1Error>)
    ensures
        r is Ok <==> digits_valid(s@, radix as nat),
        r matches Ok(n) ==> n.wf() && n.value() == num_radix_spec(s@, radix as nat),
        r matches Err(e) ==> exists|k: int|
            first_invalid_digit(s@, radix as nat, k) && e == FF1Error::InvalidDigit(s@[k], radix),
{
    let big_radix = match big_from_u32(radix) {
        Some(b) => b,
        None => return Err(FF1Error::BigUintConversion),
    };
    let mut num = big_zero();
    let n = s.len();
    assert(nat_digits_u32(s@.take(0)) =~= Seq::<nat>::empty());
    for i in 0..n
        invariant
            n == s@.len(),
            big_radix.wf(),
            big_radix.value() == radix,
            num.wf(),
            num.value() == num_radix_spec(s@.take(i as int), radix as nat),
            forall|j: int| 0 <= j < i ==> #[trigger] s@[j] < radix,
    {
        let digit = s[i];
        if digit >= radix {
            assert(first_invalid_digit(s@, radix as nat, i as int));
            return Err(FF1Error::InvalidDigit(digit, radix));
        }
        let big_digit = match big_from_u32(digit) {
            Some(b) => b,
            None => return Err(FF1Error::BigUintConversion),
        };
        num = big_add(&big_mul(&num, &big_radix), &big_digit);
        assert(nat_digits_u32(s@.take(i + 1)).drop_last() =~= nat_digits_u32(s@.take(i as int)));
    }
    assert(s@.take(n as int) =~= s@);
    Ok(num)
}

/// STR^len_radix(c): the `len`-digit base-`radix` string of `c`, or `StrLenMismatch` when `c`
/// needs more than `len` digits.
pub fn str_radix(c: BigNat, radix: u32, len: usize) -> (r: Result<Vec<u32>, FF1Error>)
    requires
        c.wf(),
        c.value() > 0 ==> radix >= 2,
    ensures
        c.value() == 0 ==> r is Ok && r->Ok_0@ == Seq::new(
            len as nat,
            |i: int| 0u32,
        ),
        radix >= 2 ==> (r is Ok <==> c.value() < pow(radix as int, len as nat)),
        radix >= 2 ==> (r matches Ok(v) ==> v@ == str_radix_spec(
            c.value(),
            radix as nat,
            len as nat,
        )),
        r matches Err(e) ==> e == FF1Error::StrLenMismatch,
{
    let ghost c0 = c.value();
    let ghost r = radix as nat;
    if big_is_zero(&c) {
        let zeros = vec![0u32; len];
        assert(zeros@ =~= Seq::new(len as nat, |i: int| 0u32)) by {
            assert forall|i: int| 0 <= i < len implies zeros@[i] == 0u32 by {
                assert(cloned::<u32>(0u32, zeros@[i]));
            }
        }
        if radix >= 2 {
            proof {
                lemma_pow_positive(r as int, len as nat);
            }
            assert(zeros@ =~= str_radix_spec(c0, r, len as nat)) by {
                assert forall|i: int| 0 <= i < len implies zeros@[i] == #[trigger] str_radix_spec(
                    c0,
                    r,
                    len as nat,
                )[i] by {
                    assert(cloned::<u32>(0u32, zeros@[i]));
                    lemma_pow_positive(r as int, (len - 1 - i) as nat);
                    lemma_basic_div(0, pow(r as int, (len - 1 - i) as nat));
                }
            }
        }
        return Ok(zeros);
    }
    proof {
        lemma_pow_positive(r as int, len as nat);
    }
    let big_radix = match big_from_u32(radix) {
        Some(b) => b,
        None => return Err(FF1Error::BigUintConversion),
    };
    let mut s: Vec<u32> = Vec::with_capacity(len);
    let mut c = c;
    proof {
        lemma_pow_positive(r as int, 0);
        vstd::arithmetic::power::lemma_pow0(r as int);
    }
    while !big_is_zero(&c)
        invariant
            r == radix,
            r >= 2,
            big_radix.value() == r,
            c0 > 0,
            c.value() == c0 as int / pow(r as int, s@.len()),
            forall|j: int| 0 <= j < s@.len() ==> s@[j] == digit_at(c0, r, j as nat),
            s@.len() > 0 ==> c0 as int / pow(r as int, (s@.len() - 1) as nat) > 0,
        decreases c.value(),
    {
        let ghost i = s@.len();
        proof {
            lemma_pow_positive(r as int, i);
            lemma_div_denominator(c0 as int, pow(r as int, i), r as int);
            lemma_pow_succ(r as int, i);
            assert(pow(r as int, i) * r == r * pow(r as int, i)) by (nonlinear_arith);
            lemma_div_is_strictly_smaller(c.value() as int, r as int);
        }
        let (quotient, remainder) = big_div_rem(&c, &big_radix);
        proof {
            lemma_mod_bound(c.value() as int, r as int);
        }
        let digit = match big_to_u32(&remainder) {
            Some(d) => d,
            None => return Err(FF1Error::BigUintConversion),
        };
        s.push(digit);
        c = quotient;
    }
    let ghost k = s@.len();
    proof {
        lemma_pow_positive(r as int, k);
        lemma_div_zero_iff(c0, pow(r as int, k));
    }
    if s.len() > len {
        proof {
            lemma_pow_positive(r as int, (k - 1) as nat);
            lemma_div_zero_iff(c0, pow(r as int, (k - 1) as nat));
            lemma_pow_increases(r, len as nat, (k - 1) as nat);
        }
        return Err(FF1Error::StrLenMismatch);
    }
    proof {
        lemma_pow_increases(r, k, len as nat);
    }
    let ghost before = s@;
    s.resize(len, 0u32);
    assert forall|j: int| 0 <= j < len implies s@[j] == digit_at(c0, r, j as nat) by {
        if j < k {
            if len > k {
                assert(s@.subrange(0, k as int) == before);
                assert(s@[j] == s@.subrange(0, k as int)[j]);
            } else {
                assert(s@ == before.subrange(0, len as int));
            }
            assert(s@[j] == before[j]);
        } else {
            assert(cloned::<u32>(0u32, s@[j]));
            lemma_pow_positive(r as int, j as nat);
            lemma_pow_increases(r, k, j as nat);
            lemma_basic_div(c0 as int, pow(r as int, j as nat));
            assert(0int % (r as int) == 0);
        }
    }
    let mut out: Vec<u32> = Vec::with_capacity(len);
    for i in 0..len
        invariant
            s@.len() == len,
            forall|j: int| 0 <= j < len ==> s@[j] == digit_at(c0, r, j as nat),
            out@.len() == i,
            forall|j: int| 0 <= j < i ==> out@[j] == s@[len - 1 - j],
    {
        out.push(s[len - 1 - i]);
    }
    assert(out@ =~= str_radix_spec(c0, r, len as nat)) by {
        assert forall|j: int| 0 <= j < len implies out@[j] == #[trigger] str_radix_spec(
            c0,
            r,
            len as nat,
        )[j] by {
            assert(out@[j] == s@[len - 1 - j]);
        }
    }
    Ok(out)
}

/// NUM(X): the number that big-endian bytes denote.
pub fn num_bytes(bytes: &[u8]) -> (r: BigNat)
    ensures
        r.wf(),
        r.value() == bytes_num(bytes@),
{
    big_from_bytes_be(bytes)
}

/// STR of a byte string is the byte string itself.
pub proof fn lemma_bytes_of_num(s: Seq<u8>)
    ensures
        bytes_of(bytes_num(s), s.len()) == s,
{
    lemma_bytes_below(s);
    lemma_str_num(nat_digits_u8(s), 256);
    assert(bytes_of(bytes_num(s), s.len()) =~= s);
}

/// STR_radix of NUM_radix gives back a digit string whose digits are below the radix.
pub proof fn lemma_str_radix_num(s: Seq<u32>, radix: nat)
    requires
        radix > 0,
        digits_valid(s, radix),
    ensures
        str_radix_spec(num_radix_spec(s, radix), radix, s.len()) == s,
{
    assert(digits_below(nat_digits_u32(s), radix)) by {
        assert forall|i: int| 0 <= i < s.len() implies #[trigger] nat_digits_u32(s)[i] < radix by {
            assert(s[i] < radix);
        }
    }
    lemma_str_num(nat_digits_u32(s), radix);
    assert(str_radix_spec(num_radix_spec(s, radix), radix, s.len()) =~= s);
}

/// [x]^len: the `len`-byte big-endian string of `n`, or `NumToBytesConversion` when the
/// canonical bytes of `n` are longer than `len`.
pub fn bytes_radix(n: &BigNat, len: usize) -> (r: Result<Vec<u8>, FF1Error>)
    requires
        n.wf(),
    ensures
        r is Err <==> n.bytes_view().len() > len,
        r matches Err(e) ==> e == FF1Error::NumToBytesConversion,
        r matches Ok(v) ==> v@ == bytes_of(n.value(), len as nat),
        len > 0 && n.value() < pow(256, len as nat) ==> r is Ok,
{
    proof {
        lemma_canonical_bounds(n.bytes_view());
        if len > 0 && n.value() < pow(256, len as nat) && n.bytes_view().len() > len {
            lemma_pow_increases(256, len as nat, (n.bytes_view().len() - 1) as nat);
        }
    }
    let bytes = n.to_bytes_be();
    if bytes.len() > len {
        Err(FF1Error::NumToBytesConversion)
    } else {
        let padding_len = len - bytes.len();
        let mut result: Vec<u8> = Vec::with_capacity(len);
        for i in 0..padding_len
            invariant
                result@.len() == i,
                forall|j: int| 0 <= j < i ==> result@[j] == 0u8,
        {
            result.push(0u8);
        }
        let ghost zeros = result@;
        result.extend_from_slice(&bytes);
        proof {
            assert forall|j: int| 0 <= j < bytes@.len() implies result@[padding_len + j]
                == #[trigger] bytes@[j] by {
                assert(cloned::<u8>(bytes@[padding_len + j - padding_len], result@[padding_len + j]));
            }
            assert(nat_digits_u8(result@) =~= zero_digits(padding_len as nat) + nat_digits_u8(
                bytes@,
            ));
            lemma_leading_zeros(padding_len as nat, nat_digits_u8(bytes@), 256);
            lemma_bytes_of_num(result@);
        }
        Ok(result)
    }
}

/// A valid digit string of length `len` denotes a number below `radix^len`.
pub proof fn lemma_num_radix_bound(s: Seq<u32>, radix: nat)
    requires
        radix > 0,
        digits_valid(s, radix),
    ensures
        num_radix_spec(s, radix) < pow(radix as int, s.len()),
{
    assert(digits_below(nat_digits_u32(s), radix)) by {
        assert forall|i: int| 0 <= i < s.len() implies #[trigger] nat_digits_u32(s)[i] < radix by {
            assert(s[i] < radix);
        }
    }
    lemma_seq_num_bound(nat_digits_u32(s), radix);
}

} // verus!
