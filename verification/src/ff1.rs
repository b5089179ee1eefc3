//! FF1 encryption: parameter checks, the ten Feistel rounds, and their specification.
use vstd::prelude::*;
use vstd::arithmetic::power::{
    pow,
    lemma_pow0,
    lemma_pow1,
    lemma_pow_increases,
    lemma_pow_multiplies,
    lemma_pow_positive,
    lemma_pow_strictly_increases_converse,
};
use vstd::arithmetic::div_mod::{lemma_fundamental_div_mod, lemma_small_mod};
use crate::numeral::{
    bytes_num,
    lemma_num_str,
    bytes_of,
    lemma_pow_succ,
    lemma_seq_str_below,
    nat_digits_u32,
    lemma_bytes_num_of,
    num_radix_spec,
    seq_str,
    str_radix_spec,
};
use crate::bignat::{
    big_add,
    big_from_u32,
    big_lt,
    big_pow,
    big_rem,
    big_sub,
    lemma_canonical_bounds,
};
use crate::cipher::{ciph, ciph_spec, prf, prf_spec, xor_bytes, xor_seq};
use crate::radix::{
    bytes_radix,
    digits_valid,
    first_invalid_digit,
    lemma_num_radix_bound,
    lemma_bytes_of_num,
    lemma_str_radix_num,
    num_bytes,
    num_radix,
    str_radix,
};
use crate::ff1error::FF1Error;

verus! {

/// `b` is the least count of bytes with `256^b >= x`.
pub open spec fn is_byte_len_for(x: nat, b: nat) -> bool {
    pow(256, b) >= x && (b == 0 || pow(256, (b - 1) as nat) < x)
}

/// The least count of bytes `b` with `256^b >= x`. For `x = radix^v` this is
/// `ceil(ceil(v * log2(radix)) / 8)`.
pub open spec fn byte_len_for(x: nat) -> nat {
    choose|b: nat| is_byte_len_for(x, b)
}

/// P = [1]^1 || [2]^1 || [1]^1 || [radix]^3 || [10]^1 || [u mod 256]^1 || [n]^4 || [t]^4.
pub open spec fn p_block(radix: nat, u: nat, n: nat, t: nat) -> Seq<u8> {
    seq![1u8, 2u8, 1u8] + bytes_of(radix, 3) + seq![10u8, (u % 256) as u8] + bytes_of(n, 4)
        + bytes_of(t, 4)
}

/// The count of zero bytes that brings `t + b + 1` up to a multiple of 16.
pub open spec fn q_padding(t: nat, b: nat) -> nat {
    ((16 - ((t + 1 + b) % 16) as int) % 16) as nat
}

/// Q = T || [0]^((-t-b-1) mod 16) || [i]^1 || [NUM_radix(B)]^b.
pub open spec fn q_block(tweak: Seq<u8>, b: nat, i: nat, num_b: nat) -> Seq<u8> {
    tweak + Seq::new(q_padding(tweak.len(), b), |k: int| 0u8) + seq![i as u8] + bytes_of(num_b, b)
}

/// [j]^16: `j` as sixteen big-endian bytes, of which only the last four can be nonzero here.
pub open spec fn j_block(j: nat) -> Seq<u8> {
    Seq::new(12, |k: int| 0u8) + bytes_of(j, 4)
}

/// Block `j` of the keystream: `R` itself, then `CIPH_K(R xor [j]^16)`.
pub open spec fn s_block(key: Seq<u8>, r: Seq<u8>, j: nat) -> Seq<u8> {
    if j == 0 {
        r
    } else {
        ciph_spec(key, xor_seq(r, j_block(j)))
    }
}

/// The first `k` blocks of the keystream.
pub open spec fn s_stream(key: Seq<u8>, r: Seq<u8>, k: nat) -> Seq<u8>
    decreases k,
{
    if k == 0 {
        Seq::empty()
    } else {
        s_stream(key, r, (k - 1) as nat) + s_block(key, r, (k - 1) as nat)
    }
}

/// The quantities of one FF1 encryption that do not change from round to round.
pub struct Ff1Setup {
    pub key: Seq<u8>,
    pub radix: nat,
    pub tweak: Seq<u8>,
    pub n: nat,
}

impl Ff1Setup {
    /// u = floor(n / 2).
    pub open spec fn u(self) -> nat {
        self.n / 2
    }

    /// v = n - u.
    pub open spec fn v(self) -> nat {
        (self.n - self.u()) as nat
    }

    /// b = ceil(ceil(v * log2(radix)) / 8).
    pub open spec fn b(self) -> nat {
        byte_len_for(pow(self.radix as int, self.v()) as nat)
    }

    /// d = 4 * ceil(b / 4) + 4.
    pub open spec fn d(self) -> nat {
        4 * ((self.b() + 3) / 4) + 4
    }

    /// The block P.
    pub open spec fn p(self) -> Seq<u8> {
        p_block(self.radix, self.u(), self.n, self.tweak.len())
    }

    /// m: u in even rounds, v in odd ones.
    pub open spec fn m(self, i: nat) -> nat {
        if i % 2 == 0 {
            self.u()
        } else {
            self.v()
        }
    }

    /// R = PRF(P || Q) in round `i`, with B the right half.
    pub open spec fn r_block(self, i: nat, bb: Seq<u32>) -> Seq<u8> {
        prf_spec(
            self.key,
            self.p() + q_block(self.tweak, self.b(), i, num_radix_spec(bb, self.radix)),
        )
    }

    /// S: the first d bytes of the keystream from R.
    pub open spec fn s(self, r: Seq<u8>) -> Seq<u8> {
        s_stream(self.key, r, (self.d() + 15) / 16).take(self.d() as int)
    }

    /// C = STR^m_radix((NUM_radix(A) + NUM(S)) mod radix^m) in round `i`.
    pub open spec fn round(self, i: nat, a: Seq<u32>, bb: Seq<u32>) -> Seq<u32> {
        let y = bytes_num(self.s(self.r_block(i, bb)));
        let m = self.m(i);
        let c = (num_radix_spec(a, self.radix) + y) % (pow(self.radix as int, m) as nat);
        str_radix_spec(c, self.radix, m)
    }

    /// The halves (A, B) after `i` rounds, starting from the split of `x`.
    pub open spec fn rounds(self, x: Seq<u32>, i: nat) -> (Seq<u32>, Seq<u32>)
        decreases i,
    {
        if i == 0 {
            (x.take(self.u() as int), x.skip(self.u() as int))
        } else {
            let (a, bb) = self.rounds(x, (i - 1) as nat);
            (bb, self.round((i - 1) as nat, a, bb))
        }
    }
}

/// FF1.Encrypt(K, T, X) with SM4 as CIPH: A || B after ten rounds.
pub open spec fn ff1_spec(key: Seq<u8>, radix: nat, tweak: Seq<u8>, x: Seq<u32>) -> Seq<u32> {
    let st = Ff1Setup { key, radix, tweak, n: x.len() };
    let (a, bb) = st.rounds(x, 10);
    a + bb
}

/// The parameters are in range: radix in `2..=65536`, `minlen <= n <= maxlen`,
/// `t <= max_tlen` and `radix^minlen >= 100`.
pub open spec fn params_valid(
    radix: nat,
    minlen: nat,
    maxlen: nat,
    max_tlen: nat,
    t: nat,
    n: nat,
) -> bool {
    &&& 2 <= radix <= 65536
    &&& minlen <= n <= maxlen
    &&& t <= max_tlen
    &&& pow(radix as int, minlen) >= 100
}

/// The index of the first digit of `s` that is not below `radix` (meaningful when there is one).
pub open spec fn first_invalid_index(s: Seq<u32>, radix: nat) -> int {
    choose|k: int| first_invalid_digit(s, radix, k)
}

/// A result with its digits taken as a sequence.
pub open spec fn result_digits(r: Result<Vec<u32>, FF1Error>) -> Result<Seq<u32>, FF1Error> {
    match r {
        Ok(v) => Ok(v@),
        Err(e) => Err(e),
    }
}

/// What `ff1_encrypt` gives: the error of the first check that fails, in the order radix,
/// length, tweak length, `radix^minlen >= 100`, digits; else the FF1 ciphertext.
pub open spec fn ff1_outcome(
    key: Seq<u8>,
    radix: u32,
    minlen: usize,
    maxlen: usize,
    max_tlen: usize,
    tweak: Seq<u8>,
    x: Seq<u32>,
) -> Result<Seq<u32>, FF1Error> {
    if !(2 <= radix <= 65536) {
        Err(FF1Error::InvalidRadix { radix })
    } else if !(minlen <= x.len() <= maxlen) {
        Err(FF1Error::InvalidLength { n: x.len() as usize })
    } else if tweak.len() > max_tlen {
        Err(FF1Error::InvalidTweakLength { t: tweak.len() as usize })
    } else if pow(radix as int, minlen as nat) < 100 {
        Err(FF1Error::ConstraintViolation { radix, minlen })
    } else if !digits_valid(x, radix as nat) {
        Err(FF1Error::InvalidDigit(x[first_invalid_index(x, radix as nat)], radix))
    } else {
        Ok(ff1_spec(key, radix as nat, tweak, x))
    }
}

/// There is only one first invalid digit.
pub proof fn lemma_first_invalid_unique(s: Seq<u32>, radix: nat, k: int)
    requires
        first_invalid_digit(s, radix, k),
    ensures
        first_invalid_index(s, radix) == k,
{
    let c = first_invalid_index(s, radix);
    assert(first_invalid_digit(s, radix, c));
    if c < k {
        assert(s[c] < radix);
    } else if c > k {
        assert(s[k] < radix);
    }
}

/// Powers are monotone in the base.
proof fn lemma_pow_base_le(a: nat, b: nat, e: nat)
    requires
        a <= b,
    ensures
        pow(a as int, e) <= pow(b as int, e),
    decreases e,
{
    if e == 0 {
        lemma_pow0(a as int);
        lemma_pow0(b as int);
    } else {
        lemma_pow_base_le(a, b, (e - 1) as nat);
        lemma_pow_succ(a as int, (e - 1) as nat);
        lemma_pow_succ(b as int, (e - 1) as nat);
        lemma_pow_positive_or_zero(a, (e - 1) as nat);
        let pa = pow(a as int, (e - 1) as nat);
        let pb = pow(b as int, (e - 1) as nat);
        assert(a * pa <= b * pb) by (nonlinear_arith)
            requires
                a <= b,
                0 <= pa <= pb,
        ;
    }
}

/// Powers of a natural number are natural.
proof fn lemma_pow_positive_or_zero(a: nat, e: nat)
    ensures
        pow(a as int, e) >= 0,
    decreases e,
{
    if e == 0 {
        lemma_pow0(a as int);
    } else {
        lemma_pow_positive_or_zero(a, (e - 1) as nat);
        lemma_pow_succ(a as int, (e - 1) as nat);
        let p = pow(a as int, (e - 1) as nat);
        assert(a * p >= 0) by (nonlinear_arith)
            requires
                p >= 0,
        ;
    }
}

/// There is one least byte count.
proof fn lemma_byte_len_unique(x: nat, b: nat)
    requires
        is_byte_len_for(x, b),
    ensures
        byte_len_for(x) == b,
{
    let c = byte_len_for(x);
    assert(is_byte_len_for(x, c));
    if c < b {
        lemma_pow_increases(256, c, (b - 1) as nat);
    } else if c > b {
        lemma_pow_increases(256, b, (c - 1) as nat);
    }
}

/// The first three powers of 256.
proof fn lemma_pow256_small()
    ensures
        pow(256, 0) == 1,
        pow(256, 1) == 256,
        pow(256, 2) == 65536,
        pow(256, 3) == 16777216,
        pow(256, 4) == 4294967296,
{
    lemma_pow0(256);
    lemma_pow_succ(256, 0);
    lemma_pow_succ(256, 1);
    lemma_pow_succ(256, 2);
    lemma_pow_succ(256, 3);
}

/// The four low bytes of `x`, big-endian.
fn be_bytes4(x: usize) -> (r: [u8; 4])
    ensures
        r@ == bytes_of(x as nat, 4),
{
    let r = [(x >> 24) as u8, (x >> 16) as u8, (x >> 8) as u8, x as u8];
    proof {
        lemma_pow256_small();
        assert(((x >> 24) as u8) as int == (x as int / 16777216) % 256) by (bit_vector);
        assert(((x >> 16) as u8) as int == (x as int / 65536) % 256) by (bit_vector);
        assert(((x >> 8) as u8) as int == (x as int / 256) % 256) by (bit_vector);
        assert((x as u8) as int == (x as int / 1) % 256) by (bit_vector);
        assert(r@ =~= bytes_of(x as nat, 4));
    }
    r
}

/// b = ceil(ceil(v * log2(radix)) / 8), computed exactly: the least `b` with
/// `256^b >= radix^v`, which is the byte length of `radix^v - 1`.
pub fn feistel_byte_len(radix: u32, v: usize) -> (r: Result<usize, FF1Error>)
    requires
        2 <= radix <= 65536,
        1 <= v,
    ensures
        r is Ok,
        is_byte_len_for(pow(radix as int, v as nat) as nat, r->Ok_0 as nat),
        r->Ok_0 == byte_len_for(pow(radix as int, v as nat) as nat),
        1 <= r->Ok_0 <= 2 * v,
{
    let big_radix = match big_from_u32(radix) {
        Some(x) => x,
        None => return Err(FF1Error::BigUintConversion),
    };
    let power = big_pow(&big_radix, v);
    let one = match big_from_u32(1) {
        Some(x) => x,
        None => return Err(FF1Error::BigUintConversion),
    };
    let ghost p = power.value();
    proof {
        lemma_pow1(radix as int);
        lemma_pow_increases(radix as nat, 1, v as nat);
    }
    let below = big_sub(&power, &one);
    let bytes = below.to_bytes_be();
    let b = bytes.len();
    proof {
        let l = below.bytes_view().len();
        lemma_canonical_bounds(below.bytes_view());
        lemma_pow0(256);
        assert(is_byte_len_for(p, l));
        lemma_byte_len_unique(p, l);
        lemma_pow_base_le(radix as nat, 65536, v as nat);
        lemma_pow256_small();
        lemma_pow_multiplies(256, 2, v as nat);
        lemma_pow_strictly_increases_converse(256, (l - 1) as nat, 2 * v as nat);
    }
    Ok(b)
}

/// Appends the bytes of `src` to `dst`.
fn append_bytes(dst: &mut Vec<u8>, src: &[u8])
    ensures
        final(dst)@ == old(dst)@ + src@,
{
    let ghost before = dst@;
    dst.extend_from_slice(src);
    assert forall|k: int| 0 <= k < src@.len() implies dst@[before.len() + k] == #[trigger] src@[k] by {
        assert(cloned::<u8>(src@[before.len() + k - before.len()], dst@[before.len() + k]));
    }
    assert(dst@ =~= before + src@);
}

/// Digit strings of STR_radix are valid digit strings of the requested length.
pub proof fn lemma_str_radix_valid(c: nat, radix: nat, m: nat)
    requires
        2 <= radix <= u32::MAX,
    ensures
        str_radix_spec(c, radix, m).len() == m,
        digits_valid(str_radix_spec(c, radix, m), radix),
{
    lemma_seq_str_below(c, radix, m);
    assert forall|i: int| 0 <= i < m implies #[trigger] str_radix_spec(c, radix, m)[i] < radix by {
        assert(seq_str(c, radix, m)[i] < radix);
    }
}

/// S: the first `d` bytes of R || CIPH_K(R xor [1]^16) || ... || CIPH_K(R xor [ceil(d/16)-1]^16).
fn keystream(key: &[u8; 16], r: &[u8; 16], d: usize) -> (res: Result<Vec<u8>, FF1Error>)
    requires
        1 <= d,
        d + 15 <= usize::MAX,
    ensures
        res is Ok,
        res->Ok_0@ == s_stream(key@, r@, ((d + 15) / 16) as nat).take(d as int),
{
    let num_s_blocks = (d + 15) / 16;
    let mut s_bytes: Vec<u8> = Vec::new();
    append_bytes(&mut s_bytes, r);
    assert(s_bytes@ =~= s_stream(key@, r@, 1)) by {
        assert(s_stream(key@, r@, 0) =~= Seq::<u8>::empty());
    }
    if num_s_blocks > 1 {
        let mut r_xor_j = *r;
        for j in 1..num_s_blocks
            invariant
                r_xor_j@ == r@,
                s_bytes@ == s_stream(key@, r@, j as nat),
                s_bytes@.len() == 16 * j,
        {
            let j_bytes = be_bytes4(j);
            let mut j_bytes16 = [0u8; 16];
            j_bytes16[12] = j_bytes[0];
            j_bytes16[13] = j_bytes[1];
            j_bytes16[14] = j_bytes[2];
            j_bytes16[15] = j_bytes[3];
            assert(j_bytes16@ =~= j_block(j as nat));
            xor_bytes(&mut r_xor_j, &j_bytes16);
            let s_block = ciph(key, &r_xor_j)?;
            append_bytes(&mut s_bytes, &s_block);
            r_xor_j = *r;
        }
    }
    assert(s_bytes@.len() == 16 * num_s_blocks);
    s_bytes.truncate(d);
    assert(s_bytes@ =~= s_stream(key@, r@, num_s_blocks as nat).take(d as int));
    Ok(s_bytes)
}

/// One Feistel round: C = STR^m_radix((NUM_radix(A) + NUM(S)) mod radix^m), where S is the
/// keystream from R = PRF(P || Q) and Q holds the tweak, the round number and NUM_radix(B).
fn feistel_round(
    key: &[u8; 16],
    radix: u32,
    tweak: &[u8],
    p_array: &[u8; 16],
    u: usize,
    v: usize,
    b: usize,
    d: usize,
    i: usize,
    a_digits: &Vec<u32>,
    b_digits: &Vec<u32>,
    Ghost(st): Ghost<Ff1Setup>,
) -> (r: Result<Vec<u32>, FF1Error>)
    requires
        st.key == key@,
        st.radix == radix,
        st.tweak == tweak@,
        2 <= radix <= 65536,
        u == st.u(),
        v == st.v(),
        b == st.b(),
        d == st.d(),
        1 <= v,
        1 <= b <= 2 * v,
        is_byte_len_for(pow(radix as int, v as nat) as nat, b as nat),
        p_array@ == st.p(),
        i < 10,
        a_digits@.len() == st.m(i as nat),
        b_digits@.len() == (if i % 2 == 0 { v } else { u }),
        digits_valid(a_digits@, radix as nat),
        digits_valid(b_digits@, radix as nat),
        tweak@.len() + 2 * st.n + 64 <= usize::MAX,
    ensures
        r is Ok,
        r->Ok_0@ == st.round(i as nat, a_digits@, b_digits@),
{
    let t = tweak.len();
    let num_b = num_radix(b_digits.as_slice(), radix)?;
    proof {
        lemma_num_radix_bound(b_digits@, radix as nat);
        lemma_pow_increases(radix as nat, b_digits@.len(), v as nat);
    }
    let num_b_bytes = bytes_radix(&num_b, b)?;

    // Q = T || [0]^((-t-b-1) mod 16) || [i]^1 || [NUM_radix(B)]^b
    let q_len_before_padding = t + 1 + b;
    let num_zeros = (16 - (q_len_before_padding % 16)) % 16;
    let mut q: Vec<u8> = Vec::with_capacity(t + num_zeros + 1 + b);
    append_bytes(&mut q, tweak);
    for k in 0..num_zeros
        invariant
            q@ == tweak@ + Seq::new(k as nat, |j: int| 0u8),
    {
        q.push(0u8);
        assert(q@ =~= tweak@ + Seq::new((k + 1) as nat, |j: int| 0u8));
    }
    q.push(i as u8);
    append_bytes(&mut q, &num_b_bytes);
    assert(q@ =~= q_block(tweak@, b as nat, i as nat, num_radix_spec(b_digits@, radix as nat)));

    // R = PRF(P || Q)
    let mut prf_input: Vec<u8> = Vec::with_capacity(16 + q.len());
    append_bytes(&mut prf_input, p_array);
    append_bytes(&mut prf_input, &q);
    assert(prf_input@ =~= st.p() + q@);
    let r = prf(key, &prf_input)?;

    // S, y = NUM(S)
    let s_bytes = keystream(key, &r, d)?;
    let y = num_bytes(&s_bytes);

    // c = (NUM_radix(A) + y) mod radix^m, C = STR^m_radix(c)
    let m = if i % 2 == 0 {
        u
    } else {
        v
    };
    let num_a = num_radix(a_digits.as_slice(), radix)?;
    let big_radix = match big_from_u32(radix) {
        Some(x) => x,
        None => return Err(FF1Error::BigUintConversion),
    };
    let modulus = big_pow(&big_radix, m);
    proof {
        lemma_pow_positive(radix as int, m as nat);
    }
    let c = big_rem(&big_add(&num_a, &y), &modulus);
    let c_digits = str_radix(c, radix, m)?;
    Ok(c_digits)
}

/// After any number of rounds the halves have lengths (u, v) or (v, u), alternately, and
/// hold valid digits.
pub proof fn lemma_rounds_shape(st: Ff1Setup, x: Seq<u32>, i: nat)
    requires
        2 <= st.radix <= u32::MAX,
        x.len() == st.n,
        digits_valid(x, st.radix),
    ensures
        st.rounds(x, i).0.len() == (if i % 2 == 0 { st.u() } else { st.v() }),
        st.rounds(x, i).1.len() == (if i % 2 == 0 { st.v() } else { st.u() }),
        digits_valid(st.rounds(x, i).0, st.radix),
        digits_valid(st.rounds(x, i).1, st.radix),
    decreases i,
{
    if i == 0 {
        let a = x.take(st.u() as int);
        let bb = x.skip(st.u() as int);
        assert forall|k: int| 0 <= k < a.len() implies #[trigger] a[k] < st.radix by {
            assert(a[k] == x[k]);
        }
        assert forall|k: int| 0 <= k < bb.len() implies #[trigger] bb[k] < st.radix by {
            assert(bb[k] == x[k + st.u()]);
        }
    } else {
        lemma_rounds_shape(st, x, (i - 1) as nat);
        let (a, bb) = st.rounds(x, (i - 1) as nat);
        let m = st.m((i - 1) as nat);
        let y = bytes_num(st.s(st.r_block((i - 1) as nat, bb)));
        let c = (num_radix_spec(a, st.radix) + y) % (pow(st.radix as int, m) as nat);
        lemma_str_radix_valid(c, st.radix, m);
    }
}

/// FF1 preserves the format: the ciphertext has as many digits as the plaintext, each below
/// the radix.
pub proof fn lemma_ff1_preserves_format(key: Seq<u8>, radix: nat, tweak: Seq<u8>, x: Seq<u32>)
    requires
        2 <= radix <= 65536,
        digits_valid(x, radix),
    ensures
        ff1_spec(key, radix, tweak, x).len() == x.len(),
        digits_valid(ff1_spec(key, radix, tweak, x), radix),
{
    let st = Ff1Setup { key, radix, tweak, n: x.len() };
    lemma_rounds_shape(st, x, 10);
    let (a, bb) = st.rounds(x, 10);
    let y = a + bb;
    assert forall|k: int| 0 <= k < y.len() implies #[trigger] y[k] < radix by {
        if k < a.len() {
            assert(y[k] == a[k]);
        } else {
            assert(y[k] == bb[k - a.len()]);
        }
    }
}

/// Encrypts the numeral string `x_digits` in base `radix` with FF1 (NIST SP 800-38G), using
/// SM4 under `key` as the block cipher and `tweak` as the tweak.
///
/// The parameters are checked in this order: the radix must be in `2..=65536`, the length of
/// `x_digits` in `minlen..=maxlen`, the tweak no longer than `max_tlen`, `radix^minlen` at
/// least 100, and every digit below the radix (the first that is not is reported). When all
/// hold, the result is the ciphertext: as many digits as `x_digits`, each below the radix.
pub fn ff1_encrypt(
    key: &[u8; 16],
    radix: u32,
    minlen: usize,
    maxlen: usize,
    max_tlen: usize,
    tweak: &[u8],
    x_digits: &[u32],
) -> (r: Result<Vec<u32>, FF1Error>)
    requires
        params_valid(
            radix as nat,
            minlen as nat,
            maxlen as nat,
            max_tlen as nat,
            tweak@.len(),
            x_digits@.len(),
        ) ==> tweak@.len() + 2 * x_digits@.len() + 64 <= usize::MAX,
    ensures
        !(2 <= radix <= 65536) ==> r == Err::<Vec<u32>, FF1Error>(
            FF1Error::InvalidRadix { radix },
        ),
        2 <= radix <= 65536 && !(minlen <= x_digits@.len() <= maxlen) ==> r == Err::<
            Vec<u32>,
            FF1Error,
        >(FF1Error::InvalidLength { n: x_digits@.len() as usize }),
        2 <= radix <= 65536 && minlen <= x_digits@.len() <= maxlen && tweak@.len() > max_tlen
            ==> r == Err::<Vec<u32>, FF1Error>(
            FF1Error::InvalidTweakLength { t: tweak@.len() as usize },
        ),
        2 <= radix <= 65536 && minlen <= x_digits@.len() <= maxlen && tweak@.len() <= max_tlen
            && pow(radix as int, minlen as nat) < 100 ==> r == Err::<Vec<u32>, FF1Error>(
            FF1Error::ConstraintViolation { radix, minlen },
        ),
        params_valid(
            radix as nat,
            minlen as nat,
            maxlen as nat,
            max_tlen as nat,
            tweak@.len(),
            x_digits@.len(),
        ) && !digits_valid(x_digits@, radix as nat) ==> exists|k: int|
            first_invalid_digit(x_digits@, radix as nat, k) && r == Err::<Vec<u32>, FF1Error>(
                FF1Error::InvalidDigit(x_digits@[k], radix),
            ),
        params_valid(
            radix as nat,
            minlen as nat,
            maxlen as nat,
            max_tlen as nat,
            tweak@.len(),
            x_digits@.len(),
        ) && digits_valid(x_digits@, radix as nat) ==> r is Ok && r->Ok_0@ == ff1_spec(
            key@,
            radix as nat,
            tweak@,
            x_digits@,
        ),
        r matches Ok(y) ==> y@.len() == x_digits@.len() && digits_valid(y@, radix as nat),
        result_digits(r) == ff1_outcome(
            key@,
            radix,
            minlen,
            maxlen,
            max_tlen,
            tweak@,
            x_digits@,
        ),
{
    let n = x_digits.len();
    let t = tweak.len();

    if !(2 <= radix && radix <= 65536) {
        return Err(FF1Error::InvalidRadix { radix });
    }
    if !(minlen <= n && n <= maxlen) {
        return Err(FF1Error::InvalidLength { n });
    }
    if t > max_tlen {
        return Err(FF1Error::InvalidTweakLength { t });
    }

    // radix^minlen >= 100
    let big_radix = match big_from_u32(radix) {
        Some(x) => x,
        None => return Err(FF1Error::BigUintConversion),
    };
    let min_radix_pow = big_pow(&big_radix, minlen);
    let hundred = big_from_u32(100).unwrap();
    if big_lt(&min_radix_pow, &hundred) {
        return Err(FF1Error::ConstraintViolation { radix, minlen });
    }

    for k in 0..n
        invariant
            n == x_digits@.len(),
            t == tweak@.len(),
            params_valid(
                radix as nat,
                minlen as nat,
                maxlen as nat,
                max_tlen as nat,
                t as nat,
                n as nat,
            ),
            forall|j: int| 0 <= j < k ==> #[trigger] x_digits@[j] < radix,
    {
        let digit = x_digits[k];
        if digit >= radix {
            assert(first_invalid_digit(x_digits@, radix as nat, k as int));
            proof {
                lemma_first_invalid_unique(x_digits@, radix as nat, k as int);
            }
            return Err(FF1Error::InvalidDigit(digit, radix));
        }
    }
    assert(digits_valid(x_digits@, radix as nat));

    let ghost st = Ff1Setup { key: key@, radix: radix as nat, tweak: tweak@, n: n as nat };
    proof {
        lemma_pow0(radix as int);
        assert(minlen > 0);
    }

    // 1. u = floor(n/2); v = n - u.
    let u = n / 2;
    let v = n - u;

    // 2. A = X[1..u]; B = X[u+1..n].
    let mut a_digits: Vec<u32> = Vec::with_capacity(u);
    for k in 0..u
        invariant
            u <= n,
            n == x_digits@.len(),
            a_digits@ == x_digits@.take(k as int),
    {
        a_digits.push(x_digits[k]);
        assert(a_digits@ =~= x_digits@.take(k + 1));
    }
    let mut b_digits: Vec<u32> = Vec::with_capacity(v);
    for k in u..n
        invariant
            u <= n,
            n == x_digits@.len(),
            b_digits@ == x_digits@.subrange(u as int, k as int),
    {
        b_digits.push(x_digits[k]);
        assert(b_digits@ =~= x_digits@.subrange(u as int, k + 1));
    }
    assert(a_digits@ =~= st.rounds(x_digits@, 0).0);
    assert(b_digits@ =~= st.rounds(x_digits@, 0).1);

    // 3. b = ceil(ceil(v * log2(radix)) / 8).
    let b = feistel_byte_len(radix, v)?;

    // 4. d = 4 * ceil(b / 4) + 4.
    let ceil_b_div_4 = (b + 3) / 4;
    let d = 4 * ceil_b_div_4 + 4;

    // 5. P = [1]^1 || [2]^1 || [1]^1 || [radix]^3 || [10]^1 || [u mod 256]^1 || [n]^4 || [t]^4.
    let radix_bytes = be_bytes4(radix as usize);
    let n_bytes = be_bytes4(n);
    let t_bytes = be_bytes4(t);
    let p_array: [u8; 16] = [
        1,
        2,
        1,
        radix_bytes[1],
        radix_bytes[2],
        radix_bytes[3],
        10,
        (u % 256) as u8,
        n_bytes[0],
        n_bytes[1],
        n_bytes[2],
        n_bytes[3],
        t_bytes[0],
        t_bytes[1],
        t_bytes[2],
        t_bytes[3],
    ];
    assert(p_array@ =~= st.p());

    // 6. Ten Feistel rounds.
    for i in 0..10
        invariant
            st.key == key@,
            st.radix == radix,
            st.tweak == tweak@,
            st.n == n,
            n == x_digits@.len(),
            2 <= radix <= 65536,
            u == st.u(),
            v == st.v(),
            b == st.b(),
            d == st.d(),
            1 <= v,
            1 <= b <= 2 * v,
            is_byte_len_for(pow(radix as int, v as nat) as nat, b as nat),
            p_array@ == st.p(),
            tweak@.len() + 2 * st.n + 64 <= usize::MAX,
            digits_valid(x_digits@, radix as nat),
            a_digits@ == st.rounds(x_digits@, i as nat).0,
            b_digits@ == st.rounds(x_digits@, i as nat).1,
    {
        proof {
            lemma_rounds_shape(st, x_digits@, i as nat);
        }
        let c_digits = feistel_round(
            key,
            radix,
            tweak,
            &p_array,
            u,
            v,
            b,
            d,
            i,
            &a_digits,
            &b_digits,
            Ghost(st),
        )?;
        a_digits = b_digits;
        b_digits = c_digits;
    }

    // 7. A || B.
    let mut result_digits = a_digits;
    result_digits.append(&mut b_digits);
    proof {
        lemma_ff1_preserves_format(key@, radix as nat, tweak@, x_digits@);
    }
    Ok(result_digits)
}

/// Two numbers below `r` that agree after adding `y` modulo `r` are equal.
proof fn lemma_add_mod_cancel(n1: nat, n2: nat, y: nat, r: nat)
    requires
        r > 0,
        n1 < r,
        n2 < r,
        (n1 + y) % r == (n2 + y) % r,
    ensures
        n1 == n2,
{
    let s1 = (n1 + y) as int;
    let s2 = (n2 + y) as int;
    lemma_fundamental_div_mod(s1, r as int);
    lemma_fundamental_div_mod(s2, r as int);
    let q1 = s1 / (r as int);
    let q2 = s2 / (r as int);
    let m = s1 % (r as int);
    assert(n1 - n2 == r * (q1 - q2)) by (nonlinear_arith)
        requires
            s1 == r * q1 + m,
            s2 == r * q2 + m,
            s1 == n1 + y,
            s2 == n2 + y,
    ;
    if q1 > q2 {
        assert(r * (q1 - q2) >= r) by (nonlinear_arith)
            requires
                r > 0,
                q1 - q2 >= 1,
        ;
    } else if q1 < q2 {
        assert(r * (q2 - q1) >= r) by (nonlinear_arith)
            requires
                r > 0,
                q2 - q1 >= 1,
        ;
        assert(r * (q1 - q2) == -(r * (q2 - q1))) by (nonlinear_arith);
    }
}

/// A Feistel round is one-to-one in the left half: the right half and the output determine it.
proof fn lemma_round_injective(st: Ff1Setup, i: nat, a1: Seq<u32>, a2: Seq<u32>, bb: Seq<u32>)
    requires
        2 <= st.radix <= u32::MAX,
        a1.len() == st.m(i),
        a2.len() == st.m(i),
        digits_valid(a1, st.radix),
        digits_valid(a2, st.radix),
        st.round(i, a1, bb) == st.round(i, a2, bb),
    ensures
        a1 == a2,
{
    let radix = st.radix;
    let m = st.m(i);
    lemma_pow_positive(radix as int, m);
    let big_r = pow(radix as int, m) as nat;
    let y = bytes_num(st.s(st.r_block(i, bb)));
    let n1 = num_radix_spec(a1, radix);
    let n2 = num_radix_spec(a2, radix);
    let c1 = (n1 + y) % big_r;
    let c2 = (n2 + y) % big_r;
    lemma_seq_str_below(c1, radix, m);
    lemma_seq_str_below(c2, radix, m);
    assert(seq_str(c1, radix, m) =~= seq_str(c2, radix, m)) by {
        assert forall|k: int| 0 <= k < m implies #[trigger] seq_str(c1, radix, m)[k] == seq_str(
            c2,
            radix,
            m,
        )[k] by {
            assert(str_radix_spec(c1, radix, m)[k] == str_radix_spec(c2, radix, m)[k]);
        }
    }
    lemma_num_str(c1, radix, m);
    lemma_num_str(c2, radix, m);
    lemma_small_mod(c1, big_r);
    lemma_small_mod(c2, big_r);
    lemma_num_radix_bound(a1, radix);
    lemma_num_radix_bound(a2, radix);
    lemma_add_mod_cancel(n1, n2, y, big_r);
    lemma_str_radix_num(a1, radix);
    lemma_str_radix_num(a2, radix);
}

/// The rounds are one-to-one: the halves after `i` rounds determine the input.
pub proof fn lemma_rounds_injective(st: Ff1Setup, x1: Seq<u32>, x2: Seq<u32>, i: nat)
    requires
        2 <= st.radix <= u32::MAX,
        x1.len() == st.n,
        x2.len() == st.n,
        digits_valid(x1, st.radix),
        digits_valid(x2, st.radix),
        st.rounds(x1, i) == st.rounds(x2, i),
    ensures
        x1 == x2,
    decreases i,
{
    if i == 0 {
        assert(x1 =~= x1.take(st.u() as int) + x1.skip(st.u() as int));
        assert(x2 =~= x2.take(st.u() as int) + x2.skip(st.u() as int));
    } else {
        let j = (i - 1) as nat;
        lemma_rounds_shape(st, x1, j);
        lemma_rounds_shape(st, x2, j);
        let (a1, b1) = st.rounds(x1, j);
        let (a2, b2) = st.rounds(x2, j);
        assert(b1 == b2);
        assert(st.round(j, a1, b1) == st.round(j, a2, b1));
        lemma_round_injective(st, j, a1, a2, b1);
        lemma_rounds_injective(st, x1, x2, j);
    }
}

/// FF1 is one-to-one on valid numeral strings of a given length: distinct plaintexts under the
/// same key and tweak give distinct ciphertexts.
pub proof fn lemma_ff1_injective(
    key: Seq<u8>,
    radix: nat,
    tweak: Seq<u8>,
    x1: Seq<u32>,
    x2: Seq<u32>,
)
    requires
        2 <= radix <= 65536,
        x1.len() == x2.len(),
        digits_valid(x1, radix),
        digits_valid(x2, radix),
        ff1_spec(key, radix, tweak, x1) == ff1_spec(key, radix, tweak, x2),
    ensures
        x1 == x2,
{
    let st = Ff1Setup { key, radix, tweak, n: x1.len() };
    lemma_rounds_shape(st, x1, 10);
    lemma_rounds_shape(st, x2, 10);
    let (a1, b1) = st.rounds(x1, 10);
    let (a2, b2) = st.rounds(x2, 10);
    let y = a1 + b1;
    assert(y == a2 + b2);
    assert(a1 =~= y.subrange(0, a1.len() as int));
    assert(a2 =~= (a2 + b2).subrange(0, a2.len() as int));
    assert(b1 =~= y.subrange(a1.len() as int, y.len() as int));
    assert(b2 =~= (a2 + b2).subrange(a2.len() as int, y.len() as int));
    lemma_rounds_injective(st, x1, x2, 10);
}

/// The bounds `minlen`, `maxlen` and `max_tlen` only decide whether an input is accepted:
/// two accepted encryptions of the same input under the same key, radix and tweak give the
/// same ciphertext.
pub proof fn lemma_outcome_ignores_bounds(
    key: Seq<u8>,
    radix: u32,
    minlen1: usize,
    maxlen1: usize,
    max_tlen1: usize,
    minlen2: usize,
    maxlen2: usize,
    max_tlen2: usize,
    tweak: Seq<u8>,
    x: Seq<u32>,
    y1: Seq<u32>,
    y2: Seq<u32>,
)
    requires
        ff1_outcome(key, radix, minlen1, maxlen1, max_tlen1, tweak, x) == Ok::<
            Seq<u32>,
            FF1Error,
        >(y1),
        ff1_outcome(key, radix, minlen2, maxlen2, max_tlen2, tweak, x) == Ok::<
            Seq<u32>,
            FF1Error,
        >(y2),
    ensures
        y1 == y2,
{
}

/// Encryption is one-to-one: under the same key, radix, bounds and tweak, two accepted
/// plaintexts of the same length with the same ciphertext are the same plaintext.
pub proof fn lemma_outcome_injective(
    key: Seq<u8>,
    radix: u32,
    minlen: usize,
    maxlen: usize,
    max_tlen: usize,
    tweak: Seq<u8>,
    x1: Seq<u32>,
    x2: Seq<u32>,
    y1: Seq<u32>,
    y2: Seq<u32>,
)
    requires
        x1.len() == x2.len(),
        ff1_outcome(key, radix, minlen, maxlen, max_tlen, tweak, x1) == Ok::<Seq<u32>, FF1Error>(
            y1,
        ),
        ff1_outcome(key, radix, minlen, maxlen, max_tlen, tweak, x2) == Ok::<Seq<u32>, FF1Error>(
            y2,
        ),
        y1 == y2,
    ensures
        x1 == x2,
{
    lemma_ff1_injective(key, radix as nat, tweak, x1, x2);
}

/// The layout of the PRF input of a round: P = [1] [2] [1] || radix in 3 bytes || [10] ||
/// [floor(n/2) mod 256] || n in 4 bytes || t in 4 bytes, then Q = T || zero bytes || [i] ||
/// NUM_radix(B) in b bytes, where the zero bytes are the fewest (fewer than 16) that make
/// the whole a multiple of 16 bytes.
pub open spec fn is_round_message(st: Ff1Setup, i: nat, bb: Seq<u32>, msg: Seq<u8>) -> bool {
    let t = st.tweak.len();
    let b = st.b();
    let len = msg.len();
    &&& len % 16 == 0
    &&& 16 + t + 1 + b <= len < 16 + t + 1 + b + 16
    &&& msg[0] == 1u8
    &&& msg[1] == 2u8
    &&& msg[2] == 1u8
    &&& bytes_num(msg.subrange(3, 6)) == st.radix
    &&& msg[6] == 10u8
    &&& msg[7] as nat == (st.n / 2) % 256
    &&& bytes_num(msg.subrange(8, 12)) == st.n % 4294967296
    &&& bytes_num(msg.subrange(12, 16)) == t % 4294967296
    &&& msg.subrange(16, 16 + t as int) == st.tweak
    &&& forall|k: int| 16 + t <= k < len - b - 1 ==> #[trigger] msg[k] == 0u8
    &&& msg[len - b - 1] as nat == i
    &&& bytes_num(msg.subrange(len - b, len as int)) == num_radix_spec(bb, st.radix) % (pow(
        256,
        b,
    ) as nat)
}

/// In every round, R is PRF applied to a message laid out as `is_round_message` says.
pub proof fn lemma_round_prf_input(st: Ff1Setup, i: nat, bb: Seq<u32>)
    requires
        2 <= st.radix <= 65536,
        i < 10,
    ensures
        exists|msg: Seq<u8>|
            is_round_message(st, i, bb, msg) && st.r_block(i, bb) == prf_spec(st.key, msg),
{
    let t = st.tweak.len();
    let b = st.b();
    let nb = num_radix_spec(bb, st.radix);
    let p = st.p();
    let q = q_block(st.tweak, b, i, nb);
    let msg = p + q;
    let pad = q_padding(t, b);
    lemma_pow256_small();
    lemma_bytes_num_of(st.radix, 3);
    lemma_bytes_num_of(st.n, 4);
    lemma_bytes_num_of(t, 4);
    lemma_bytes_num_of(nb, b);
    assert(p.len() == 16);
    assert(msg.subrange(3, 6) =~= bytes_of(st.radix, 3));
    assert(msg.subrange(8, 12) =~= bytes_of(st.n, 4));
    assert(msg.subrange(12, 16) =~= bytes_of(t, 4));
    assert(msg.subrange(16, 16 + t as int) =~= st.tweak);
    assert(msg.len() == 16 + t + pad + 1 + b);
    assert(msg.subrange(msg.len() - b, msg.len() as int) =~= bytes_of(nb, b));
    assert(msg[msg.len() - b - 1] == i as u8);
    assert forall|k: int| 16 + t <= k < msg.len() - b - 1 implies #[trigger] msg[k] == 0u8 by {
        assert(msg[k] == q[k - 16]);
    }
    let len = msg.len();
    assert(len % 16 == 0);
    assert(16 + t + 1 + b <= len < 16 + t + 1 + b + 16);
    assert(msg[0] == 1u8 && msg[1] == 2u8 && msg[2] == 1u8 && msg[6] == 10u8);
    lemma_small_mod(st.radix, 16777216);
    assert(bytes_num(msg.subrange(3, 6)) == st.radix);
    assert(msg[7] as nat == (st.n / 2) % 256);
    assert(bytes_num(msg.subrange(8, 12)) == st.n % 4294967296);
    assert(bytes_num(msg.subrange(12, 16)) == t % 4294967296);
    assert(is_round_message(st, i, bb, msg));
    assert(st.r_block(i, bb) == prf_spec(st.key, msg));
}

/// d - 4 is the least multiple of 4 that is at least b.
pub proof fn lemma_d_layout(st: Ff1Setup)
    ensures
        st.d() >= 4,
        (st.d() - 4) % 4 == 0,
        st.b() <= st.d() - 4 < st.b() + 4,
{
}

/// j, for j below 2^32, written as 16 big-endian bytes is the mask of `j_block`.
proof fn lemma_j_block_value(j: nat)
    requires
        j < 4294967296,
    ensures
        j_block(j) == bytes_of(j, 16),
{
    lemma_pow256_small();
    assert forall|k: int| 0 <= k < 16 implies #[trigger] j_block(j)[k] == bytes_of(j, 16)[k] by {
        if k < 12 {
            lemma_pow_increases(256, 4, (15 - k) as nat);
            lemma_pow_positive(256, (15 - k) as nat);
            vstd::arithmetic::div_mod::lemma_basic_div(j as int, pow(256, (15 - k) as nat));
        }
    }
    assert(j_block(j) =~= bytes_of(j, 16));
}

/// Block 0 of the keystream is R, and block j (1 <= j < 2^32) is CIPH_K(R xor M) for the
/// 16-byte mask M that denotes j.
pub proof fn lemma_keystream_block(key: Seq<u8>, r: Seq<u8>, j: nat, mask: Seq<u8>)
    requires
        j < 4294967296,
        mask.len() == 16,
        bytes_num(mask) == j,
    ensures
        s_block(key, r, 0) == r,
        j >= 1 ==> s_block(key, r, j) == ciph_spec(key, xor_seq(r, mask)),
{
    lemma_bytes_of_num(mask);
    lemma_j_block_value(j);
}

/// The keystream is its blocks in order: when each of the first `k` blocks has 16 bytes, the
/// stream has 16k bytes and bytes 16j..16j+16 are block j.
pub proof fn lemma_s_stream_blocks(key: Seq<u8>, r: Seq<u8>, k: nat)
    requires
        forall|j: nat| j < k ==> (#[trigger] s_block(key, r, j)).len() == 16,
    ensures
        s_stream(key, r, k).len() == 16 * k,
        forall|j: int|
            0 <= j < k ==> #[trigger] s_stream(key, r, k).subrange(16 * j, 16 * j + 16)
                == s_block(key, r, j as nat),
    decreases k,
{
    if k > 0 {
        let kp = (k - 1) as nat;
        lemma_s_stream_blocks(key, r, kp);
        let prev = s_stream(key, r, kp);
        let blk = s_block(key, r, kp);
        assert(blk.len() == 16);
        assert forall|j: int| 0 <= j < k implies #[trigger] s_stream(key, r, k).subrange(
            16 * j,
            16 * j + 16,
        ) == s_block(key, r, j as nat) by {
            if j < kp {
                assert(s_stream(key, r, k).subrange(16 * j, 16 * j + 16) =~= prev.subrange(
                    16 * j,
                    16 * j + 16,
                ));
            } else {
                assert(s_stream(key, r, k).subrange(16 * j, 16 * j + 16) =~= blk);
            }
        }
    }
}

/// 256^k is at least k.
proof fn lemma_pow256_ge(k: nat)
    ensures
        pow(256, k) >= k,
    decreases k,
{
    if k == 0 {
        lemma_pow0(256);
    } else {
        lemma_pow256_ge((k - 1) as nat);
        lemma_pow_succ(256, (k - 1) as nat);
        lemma_pow_positive(256, (k - 1) as nat);
        let p = pow(256, (k - 1) as nat);
        assert(256 * p >= k) by (nonlinear_arith)
            requires
                p >= 1,
                p >= k - 1,
        ;
    }
}

/// A least byte count exists below any count that is large enough.
proof fn lemma_byte_len_below(x: nat, b0: nat)
    requires
        pow(256, b0) >= x,
    ensures
        exists|b: nat| is_byte_len_for(x, b),
    decreases b0,
{
    if b0 == 0 || pow(256, (b0 - 1) as nat) < x {
        assert(is_byte_len_for(x, b0));
    } else {
        lemma_byte_len_below(x, (b0 - 1) as nat);
    }
}

/// b is the least count of bytes that holds radix^v: 256^b >= radix^v > 256^(b-1), and it is
/// at least 1.
pub proof fn lemma_b_layout(st: Ff1Setup)
    requires
        2 <= st.radix,
        st.n >= 1,
    ensures
        pow(256, st.b()) >= pow(st.radix as int, st.v()),
        pow(256, (st.b() - 1) as nat) < pow(st.radix as int, st.v()),
        st.b() >= 1,
{
    let x = pow(st.radix as int, st.v()) as nat;
    lemma_pow_positive(st.radix as int, st.v());
    lemma_pow256_ge(x);
    lemma_byte_len_below(x, x);
    let b = st.b();
    assert(is_byte_len_for(x, b));
    lemma_pow1(st.radix as int);
    lemma_pow_increases(st.radix, 1, st.v());
    lemma_pow0(256);
}

/// The halves: u + v == n with u = floor(n/2), so v is u or u + 1.
pub proof fn lemma_halves(st: Ff1Setup)
    ensures
        st.u() + st.v() == st.n,
        st.u() <= st.v() <= st.u() + 1,
        2 * st.u() <= st.n,
{
}

/// A round adds NUM(S) to the left half: NUM_radix of the new half is
/// (NUM_radix(A) + NUM(S)) mod radix^m, with S the keystream of the round.
pub proof fn lemma_round_value(st: Ff1Setup, i: nat, a: Seq<u32>, bb: Seq<u32>)
    requires
        2 <= st.radix <= 65536,
    ensures
        st.round(i, a, bb).len() == st.m(i),
        num_radix_spec(st.round(i, a, bb), st.radix) == (num_radix_spec(a, st.radix) + bytes_num(
            st.s(st.r_block(i, bb)),
        )) % (pow(st.radix as int, st.m(i)) as nat),
{
    let m = st.m(i);
    let y = bytes_num(st.s(st.r_block(i, bb)));
    let c = (num_radix_spec(a, st.radix) + y) % (pow(st.radix as int, m) as nat);
    lemma_pow_positive(st.radix as int, m);
    lemma_seq_str_below(c, st.radix, m);
    assert(nat_digits_u32(str_radix_spec(c, st.radix, m)) =~= seq_str(c, st.radix, m)) by {
        assert forall|k: int| 0 <= k < m implies #[trigger] nat_digits_u32(
            str_radix_spec(c, st.radix, m),
        )[k] == seq_str(c, st.radix, m)[k] by {
            assert(seq_str(c, st.radix, m)[k] < st.radix);
        }
    }
    lemma_num_str(c, st.radix, m);
    lemma_small_mod(c, pow(st.radix as int, m) as nat);
}

/// S is the first d bytes of the keystream: when its blocks have 16 bytes, S has d bytes and
/// byte k of S is byte k mod 16 of block floor(k / 16).
pub proof fn lemma_keystream_bytes(st: Ff1Setup, r: Seq<u8>)
    requires
        forall|j: nat| j < (st.d() + 15) / 16 ==> (#[trigger] s_block(st.key, r, j)).len() == 16,
    ensures
        st.s(r).len() == st.d(),
        forall|k: int|
            0 <= k < st.d() ==> #[trigger] st.s(r)[k] == s_block(st.key, r, (k / 16) as nat)[k
                % 16],
{
    let nblk = (st.d() + 15) / 16;
    lemma_s_stream_blocks(st.key, r, nblk);
    let stream = s_stream(st.key, r, nblk);
    assert forall|k: int| 0 <= k < st.d() implies #[trigger] st.s(r)[k] == s_block(
        st.key,
        r,
        (k / 16) as nat,
    )[k % 16] by {
        let j = k / 16;
        assert(stream.subrange(16 * j, 16 * j + 16) == s_block(st.key, r, j as nat));
        assert(stream.subrange(16 * j, 16 * j + 16)[k % 16] == stream[k]);
    }
}

} // verus!
