//! Numeral strings and the numbers they denote.
//!
//! A numeral string is a sequence of digits, most significant first. `seq_num` gives the
//! number a string denotes in a base, `seq_str` gives the fixed-length string of a number.
//! The lemmas here relate the two; they are the facts the rest of the crate reasons with.
use vstd::prelude::*;
use vstd::arithmetic::power::*;
use vstd::arithmetic::div_mod::*;

verus! {

/// The number that the big-endian digit string `s` denotes in base `r`.
pub open spec fn seq_num(s: Seq<nat>, r: nat) -> nat
    decreases s.len(),
{
    if s.len() == 0 {
        0
    } else {
        seq_num(s.drop_last(), r) * r + s.last()
    }
}

/// The base-`r` digit of `x` of weight `r^k`.
pub open spec fn digit_at(x: nat, r: nat, k: nat) -> nat {
    ((x as int / pow(r as int, k)) % (r as int)) as nat
}

/// The `m` least significant base-`r` digits of `x`, most significant first.
pub open spec fn seq_str(x: nat, r: nat, m: nat) -> Seq<nat> {
    Seq::new(m, |i: int| digit_at(x, r, (m - 1 - i) as nat))
}

/// Every digit of `s` is below `r`.
pub open spec fn digits_below(s: Seq<nat>, r: nat) -> bool {
    forall|i: int| 0 <= i < s.len() ==> #[trigger] s[i] < r
}

/// A string of `k` zero digits.
pub open spec fn zero_digits(k: nat) -> Seq<nat> {
    Seq::new(k, |i: int| 0nat)
}

/// `u32` digits read as natural numbers.
pub open spec fn nat_digits_u32(s: Seq<u32>) -> Seq<nat> {
    s.map_values(|d: u32| d as nat)
}

/// Bytes read as natural numbers.
pub open spec fn nat_digits_u8(s: Seq<u8>) -> Seq<nat> {
    s.map_values(|d: u8| d as nat)
}

/// NUM_radix: the number a string of `u32` digits denotes in base `radix`.
pub open spec fn num_radix_spec(s: Seq<u32>, radix: nat) -> nat {
    seq_num(nat_digits_u32(s), radix)
}

/// NUM: the number a byte string denotes, big-endian.
pub open spec fn bytes_num(s: Seq<u8>) -> nat {
    seq_num(nat_digits_u8(s), 256)
}

/// STR^m_radix: the `m`-digit base-`radix` string of `x mod radix^m`.
pub open spec fn str_radix_spec(x: nat, radix: nat, m: nat) -> Seq<u32> {
    seq_str(x, radix, m).map_values(|d: nat| d as u32)
}

/// The `len`-byte big-endian string of `x mod 256^len`.
pub open spec fn bytes_of(x: nat, len: nat) -> Seq<u8> {
    seq_str(x, 256, len).map_values(|d: nat| d as u8)
}

/// One step of the power function.
pub proof fn lemma_pow_succ(b: int, e: nat)
    ensures
        pow(b, e + 1) == b * pow(b, e),
{
    reveal(pow);
}

/// A string of digits below `r` denotes a number below `r^len`.
pub proof fn lemma_seq_num_bound(s: Seq<nat>, r: nat)
    requires
        r > 0,
        digits_below(s, r),
    ensures
        seq_num(s, r) < pow(r as int, s.len()),
    decreases s.len(),
{
    if s.len() == 0 {
        lemma_pow0(r as int);
    } else {
        let s1 = s.drop_last();
        assert(digits_below(s1, r)) by {
            assert forall|i: int| 0 <= i < s1.len() implies #[trigger] s1[i] < r by {
                assert(s1[i] == s[i]);
            }
        }
        lemma_seq_num_bound(s1, r);
        lemma_pow_succ(r as int, (s.len() - 1) as nat);
        let x1 = seq_num(s1, r);
        let p = pow(r as int, (s.len() - 1) as nat);
        let d = s.last();
        assert(d < r) by {
            assert(s[s.len() - 1] < r);
        }
        assert(x1 * r + d < r * p) by (nonlinear_arith)
            requires
                x1 < p,
                d < r,
                r > 0,
        ;
    }
}

/// The number of a concatenation.
pub proof fn lemma_seq_num_append(s1: Seq<nat>, s2: Seq<nat>, r: nat)
    ensures
        seq_num(s1 + s2, r) == seq_num(s1, r) * pow(r as int, s2.len()) + seq_num(s2, r),
    decreases s2.len(),
{
    if s2.len() == 0 {
        assert(s1 + s2 =~= s1);
        lemma_pow0(r as int);
    } else {
        let s2p = s2.drop_last();
        assert((s1 + s2).drop_last() =~= s1 + s2p);
        assert((s1 + s2).last() == s2.last());
        lemma_seq_num_append(s1, s2p, r);
        lemma_pow_succ(r as int, s2p.len());
        let n1 = seq_num(s1, r) as int;
        let n2p = seq_num(s2p, r) as int;
        let p = pow(r as int, s2p.len());
        let d = s2.last() as int;
        assert((n1 * p + n2p) * r + d == n1 * (r * p) + (n2p * r + d)) by (nonlinear_arith);
    }
}

/// Digits of `x / r` are the digits of `x` shifted by one place.
pub proof fn lemma_digit_shift(x: nat, r: nat, k: nat)
    requires
        r > 0,
    ensures
        digit_at(x / r, r, k) == digit_at(x, r, k + 1),
{
    lemma_pow_positive(r as int, k);
    lemma_div_denominator(x as int, r as int, pow(r as int, k));
    lemma_pow_succ(r as int, k);
}

/// A fixed-length string is the shorter string of the quotient followed by the last digit.
pub proof fn lemma_seq_str_split(x: nat, r: nat, m: nat)
    requires
        r > 0,
        m > 0,
    ensures
        seq_str(x, r, m) == seq_str(x / r, r, (m - 1) as nat).push(x % r),
{
    let a = seq_str(x, r, m);
    let b = seq_str(x / r, r, (m - 1) as nat).push(x % r);
    assert forall|i: int| 0 <= i < m implies #[trigger] a[i] == b[i] by {
        if i < m - 1 {
            lemma_digit_shift(x, r, (m - 2 - i) as nat);
        } else {
            lemma_pow0(r as int);
        }
    }
    assert(a =~= b);
}

/// NUM of STR^m is the number reduced modulo `r^m`.
pub proof fn lemma_num_str(x: nat, r: nat, m: nat)
    requires
        r > 0,
    ensures
        seq_num(seq_str(x, r, m), r) == x % (pow(r as int, m) as nat),
    decreases m,
{
    lemma_pow_positive(r as int, m);
    if m == 0 {
        lemma_pow0(r as int);
        assert(seq_str(x, r, m) =~= Seq::<nat>::empty());
    } else {
        lemma_seq_str_split(x, r, m);
        let s = seq_str(x, r, m);
        let sp = seq_str(x / r, r, (m - 1) as nat);
        assert(s.drop_last() =~= sp);
        lemma_num_str(x / r, r, (m - 1) as nat);
        let p = pow(r as int, (m - 1) as nat);
        lemma_pow_positive(r as int, (m - 1) as nat);
        lemma_pow_succ(r as int, (m - 1) as nat);
        lemma_mod_breakdown(x as int, r as int, p);
        assert(((x / r) as int % p) * r == r * ((x as int / r as int) % p)) by (nonlinear_arith);
    }
}

/// STR of NUM gives back a string whose digits are below the base.
pub proof fn lemma_str_num(s: Seq<nat>, r: nat)
    requires
        r > 0,
        digits_below(s, r),
    ensures
        seq_str(seq_num(s, r), r, s.len()) == s,
    decreases s.len(),
{
    if s.len() == 0 {
        assert(seq_str(seq_num(s, r), r, s.len()) =~= s);
    } else {
        let sp = s.drop_last();
        assert(digits_below(sp, r)) by {
            assert forall|i: int| 0 <= i < sp.len() implies #[trigger] sp[i] < r by {
                assert(sp[i] == s[i]);
            }
        }
        lemma_str_num(sp, r);
        let v = seq_num(s, r);
        let vp = seq_num(sp, r);
        assert(s.last() < r) by {
            assert(s[s.len() - 1] < r);
        }
        lemma_fundamental_div_mod_converse(v as int, r as int, vp as int, s.last() as int);
        lemma_seq_str_split(v, r, s.len());
        assert(seq_str(v, r, s.len()) =~= s);
    }
}

/// A string with a nonzero leading digit denotes at least `r^(len - 1)`.
pub proof fn lemma_leading_digit(s: Seq<nat>, r: nat)
    requires
        r > 0,
        s.len() >= 1,
        s[0] >= 1,
    ensures
        seq_num(s, r) >= pow(r as int, (s.len() - 1) as nat),
{
    let s1 = s.subrange(0, 1);
    let s2 = s.subrange(1, s.len() as int);
    assert(s =~= s1 + s2);
    lemma_seq_num_append(s1, s2, r);
    assert(s1.drop_last() =~= Seq::<nat>::empty());
    assert(seq_num(s1.drop_last(), r) == 0);
    assert(seq_num(s1, r) == s[0]);
    let p = pow(r as int, s2.len());
    lemma_pow_positive(r as int, s2.len());
    let d = s[0] as int;
    let n2 = seq_num(s2, r) as int;
    assert(d * p + n2 >= p) by (nonlinear_arith)
        requires
            d >= 1,
            p > 0,
            n2 >= 0,
    ;
}

/// A string of zeros denotes zero.
pub proof fn lemma_zero_digits_num(k: nat, r: nat)
    ensures
        seq_num(zero_digits(k), r) == 0,
    decreases k,
{
    if k > 0 {
        assert(zero_digits(k).drop_last() =~= zero_digits((k - 1) as nat));
        lemma_zero_digits_num((k - 1) as nat, r);
        let z = seq_num(zero_digits((k - 1) as nat), r);
        assert(z * r == 0) by (nonlinear_arith)
            requires
                z == 0,
        ;
    }
}

/// Leading zeros do not change the number.
pub proof fn lemma_leading_zeros(k: nat, s: Seq<nat>, r: nat)
    ensures
        seq_num(zero_digits(k) + s, r) == seq_num(s, r),
{
    lemma_seq_num_append(zero_digits(k), s, r);
    lemma_zero_digits_num(k, r);
}

/// Digits of a fixed-length string are below the base.
pub proof fn lemma_seq_str_below(x: nat, r: nat, m: nat)
    requires
        r > 0,
    ensures
        digits_below(seq_str(x, r, m), r),
{
    assert forall|i: int| 0 <= i < m implies #[trigger] seq_str(x, r, m)[i] < r by {
        lemma_pow_positive(r as int, (m - 1 - i) as nat);
    }
}

/// The bytes of `bytes_of(x, len)` denote `x mod 256^len`.
pub proof fn lemma_bytes_num_of(x: nat, len: nat)
    ensures
        bytes_num(bytes_of(x, len)) == x % (pow(256, len) as nat),
{
    lemma_seq_str_below(x, 256, len);
    assert(nat_digits_u8(bytes_of(x, len)) =~= seq_str(x, 256, len)) by {
        assert forall|i: int| 0 <= i < len implies #[trigger] nat_digits_u8(bytes_of(x, len))[i]
            == seq_str(x, 256, len)[i] by {
            assert(seq_str(x, 256, len)[i] < 256);
        }
    }
    lemma_num_str(x, 256, len);
}

} // verus!
