//! The block cipher CIPH_K (one SM4 block) and the pseudorandom function PRF built on it.
use vstd::prelude::*;
use crate::ff1error::FF1Error;
use neuedu_cryptos::block_ciphers::sm4_cbc_encrypt;

verus! {

/// The error type of neuedu_cryptos' block ciphers.
#[verifier::external_type_specification]
#[verifier::external_body]
pub struct ExBlockCipherError(neuedu_cryptos::block_ciphers::Error);

/// What SM4 in CBC mode, without padding, outputs for a key, an initial vector and a message.
pub uninterp spec fn sm4_cbc_output(key: Seq<u8>, iv: Seq<u8>, message: Seq<u8>) -> Seq<u8>;

/// `neuedu_cryptos::block_ciphers::sm4_cbc_encrypt` with no padding method. With CBC mode and
/// no padding the crate's code always returns `Ok`, with one 16-byte block of output for each
/// whole 16-byte block of the message (a trailing partial block gives no output). The output
/// bytes themselves are named, not stated.
#[verifier::external_body]
fn sm4_cbc_encrypt_unpadded(key: [u8; 16], iv: [u8; 16], message: &[u8]) -> (r: Result<
    Vec<u8>,
    neuedu_cryptos::block_ciphers::Error,
>)
    ensures
        r is Ok,
        r->Ok_0@ == sm4_cbc_output(key@, iv@, message@),
        r->Ok_0@.len() == 16 * (message@.len() / 16),
{
    sm4_cbc_encrypt(key, None, iv, message)
}

/// Sixteen zero bytes.
pub open spec fn zero_block() -> Seq<u8> {
    Seq::new(16, |i: int| 0u8)
}

/// Exclusive-or of two byte sequences of equal length.
pub open spec fn xor_seq(a: Seq<u8>, b: Seq<u8>) -> Seq<u8>
    recommends
        a.len() == b.len(),
{
    Seq::new(a.len(), |i: int| a[i] ^ b[i])
}

/// CIPH_K(X): one SM4 block encryption, taken as the first block of CBC mode with a zero
/// initial vector.
pub open spec fn ciph_spec(key: Seq<u8>, block: Seq<u8>) -> Seq<u8> {
    sm4_cbc_output(key, zero_block(), block).subrange(0, 16)
}

/// The CBC-MAC chaining value after the first `k` blocks of `data`.
pub open spec fn cbc_mac(key: Seq<u8>, data: Seq<u8>, k: nat) -> Seq<u8>
    decreases k,
{
    if k == 0 {
        zero_block()
    } else {
        ciph_spec(
            key,
            xor_seq(data.subrange(16 * (k - 1), 16 * k as int), cbc_mac(key, data, (k - 1) as nat)),
        )
    }
}

/// The count of 16-byte blocks that `len` bytes take, the last one possibly partial.
pub open spec fn block_count(len: nat) -> nat {
    (len + 15) / 16
}

/// `x` followed by zero bytes up to a whole count of blocks.
pub open spec fn zero_pad(x: Seq<u8>) -> Seq<u8> {
    x + Seq::new((16 * block_count(x.len()) - x.len()) as nat, |i: int| 0u8)
}

/// PRF(X): the CBC-MAC of `X`, zero-padded to whole blocks.
pub open spec fn prf_spec(key: Seq<u8>, input: Seq<u8>) -> Seq<u8> {
    cbc_mac(key, zero_pad(input), block_count(input.len()))
}

/// XORs `b` into `a`, byte by byte.
pub fn xor_bytes(a: &mut [u8], b: &[u8])
    requires
        old(a)@.len() == b@.len(),
    ensures
        final(a)@ == xor_seq(old(a)@, b@),
{
    let n = a.len();
    for i in 0..n
        invariant
            n == a@.len(),
            n == b@.len(),
            forall|j: int| 0 <= j < i ==> a@[j] == old(a)@[j] ^ b@[j],
            forall|j: int| i <= j < n ==> a@[j] == old(a)@[j],
    {
        a[i] = a[i] ^ b[i];
    }
    assert(a@ =~= xor_seq(old(a)@, b@));
}

/// The first block of a cipher output, or `CipherLengthError` when it is shorter than a block.
pub fn leading_block(ciphertext: &[u8]) -> (r: Result<[u8; 16], FF1Error>)
    ensures
        ciphertext@.len() >= 16 ==> r is Ok && r->Ok_0@ == ciphertext@.subrange(0, 16),
        ciphertext@.len() < 16 ==> r == Err::<[u8; 16], FF1Error>(FF1Error::CipherLengthError),
{
    if ciphertext.len() >= 16 {
        let mut out = [0u8; 16];
        for i in 0..16
            invariant
                ciphertext@.len() >= 16,
                forall|j: int| 0 <= j < i ==> out@[j] == ciphertext@[j],
        {
            out[i] = ciphertext[i];
        }
        assert(out@ =~= ciphertext@.subrange(0, 16));
        Ok(out)
    } else {
        Err(FF1Error::CipherLengthError)
    }
}

/// CIPH_K(X): encrypts one block with SM4 under `key`.
pub fn ciph(key: &[u8; 16], input: &[u8; 16]) -> (r: Result<[u8; 16], FF1Error>)
    ensures
        r is Ok,
        r->Ok_0@ == ciph_spec(key@, input@),
{
    let iv = [0u8; 16];
    assert(iv@ =~= zero_block());
    match sm4_cbc_encrypt_unpadded(*key, iv, input) {
        Ok(ciphertext) => leading_block(&ciphertext),
        Err(_) => Err(FF1Error::Crypto()),
    }
}

/// PRF(X): the CBC-MAC under SM4 of `input`, zero-padded to whole blocks.
pub fn prf(key: &[u8; 16], input: &[u8]) -> (r: Result<[u8; 16], FF1Error>)
    requires
        input@.len() + 16 <= usize::MAX,
    ensures
        r is Ok,
        r->Ok_0@ == prf_spec(key@, input@),
{
    let block_size: usize = 16;
    let num_blocks = (input.len() + block_size - 1) / block_size;
    let padded_len = num_blocks * block_size;
    let mut padded_input: Vec<u8> = Vec::with_capacity(padded_len);
    padded_input.extend_from_slice(input);
    let ghost extended = padded_input@;
    assert forall|i: int| 0 <= i < input@.len() implies extended[i] == #[trigger] input@[i] by {
        assert(cloned::<u8>(input@[i], extended[i]));
    }
    padded_input.resize(padded_len, 0u8);
    let ghost padded = zero_pad(input@);
    assert forall|i: int| 0 <= i < padded.len() implies padded_input@[i] == #[trigger] padded[i] by {
        if i < input@.len() {
            assert(padded_input@.subrange(0, input@.len() as int) == extended);
            assert(padded_input@[i] == extended[i]);
        } else {
            assert(cloned::<u8>(0u8, padded_input@[i]));
        }
    }
    assert(padded_input@ =~= padded);

    let mut mac = [0u8; 16];
    assert(mac@ =~= zero_block());
    let mut k: usize = 0;
    while k < num_blocks
        invariant
            block_size == 16,
            num_blocks * 16 <= usize::MAX,
            num_blocks == block_count(input@.len()),
            padded_input@ == padded,
            padded.len() == 16 * num_blocks,
            k <= num_blocks,
            mac@ == cbc_mac(key@, padded, k as nat),
        decreases num_blocks - k,
    {
        let mut block_array = [0u8; 16];
        let start = k * block_size;
        for j in 0..16
            invariant
                start == 16 * k,
                k < num_blocks,
                padded_input@.len() == 16 * num_blocks,
                forall|i: int| 0 <= i < j ==> block_array@[i] == padded_input@[start + i],
        {
            block_array[j] = padded_input[start + j];
        }
        assert(block_array@ =~= padded.subrange(16 * k, 16 * (k + 1)));
        xor_bytes(&mut block_array, &mac);
        mac = ciph(key, &block_array)?;
        k = k + 1;
    }
    Ok(mac)
}

/// XOR with the same bytes twice gives back the first operand.
pub proof fn lemma_xor_involution(a: Seq<u8>, b: Seq<u8>)
    requires
        a.len() == b.len(),
    ensures
        xor_seq(xor_seq(a, b), b) == a,
{
    assert forall|i: int| 0 <= i < a.len() implies #[trigger] xor_seq(xor_seq(a, b), b)[i]
        == a[i] by {
        let x = a[i];
        let y = b[i];
        assert((x ^ y) ^ y == x) by (bit_vector);
    }
    assert(xor_seq(xor_seq(a, b), b) =~= a);
}

/// PRF of a single block is CIPH of that block.
pub proof fn lemma_prf_single_block(key: Seq<u8>, x: Seq<u8>)
    requires
        x.len() == 16,
    ensures
        prf_spec(key, x) == ciph_spec(key, x),
{
    assert(block_count(16) == 1);
    assert(zero_pad(x) =~= x);
    assert(x.subrange(0, 16) =~= x);
    assert forall|i: int| 0 <= i < 16 implies #[trigger] xor_seq(x, zero_block())[i] == x[i] by {
        let b = x[i];
        assert(b ^ 0u8 == b) by (bit_vector);
    }
    assert(xor_seq(x, zero_block()) =~= x);
    assert(cbc_mac(key, x, 0) == zero_block());
    assert(cbc_mac(key, x, 1) == ciph_spec(key, xor_seq(x.subrange(0, 16), zero_block())));
}

/// PRF pads its input with zero bytes to whole blocks: padding it beforehand changes nothing.
pub proof fn lemma_prf_zero_pad(key: Seq<u8>, x: Seq<u8>)
    ensures
        prf_spec(key, zero_pad(x)) == prf_spec(key, x),
{
    let k = block_count(x.len());
    assert(zero_pad(x).len() == 16 * k);
    assert(block_count(16 * k) == k);
    assert(zero_pad(zero_pad(x)) =~= zero_pad(x));
}

/// `k` zero bytes.
pub open spec fn zero_bytes(k: nat) -> Seq<u8> {
    Seq::new(k, |i: int| 0u8)
}

/// Zero bytes up to the next block boundary do not change PRF: the input is padded with zero
/// bytes, not with its length.
pub proof fn lemma_prf_trailing_zeros(key: Seq<u8>, input: Seq<u8>, k: nat)
    requires
        k <= (16 - input.len() % 16) % 16,
    ensures
        prf_spec(key, input + zero_bytes(k)) == prf_spec(key, input),
{
    let l = input.len();
    assert(block_count(l + k) == block_count(l));
    assert(zero_pad(input + zero_bytes(k)) =~= zero_pad(input));
}

/// CBC-MAC values agree on data that agree on the blocks read.
proof fn lemma_cbc_mac_prefix(key: Seq<u8>, d1: Seq<u8>, d2: Seq<u8>, k: nat)
    requires
        d1.len() >= 16 * k,
        d2.len() >= 16 * k,
        d1.take(16 * k as int) == d2.take(16 * k as int),
    ensures
        cbc_mac(key, d1, k) == cbc_mac(key, d2, k),
    decreases k,
{
    if k > 0 {
        let j = (k - 1) as nat;
        let lo: int = 16 * j as int;
        let hi: int = 16 * k as int;
        assert(d1.take(lo) =~= d1.take(hi).take(lo));
        assert(d2.take(lo) =~= d2.take(hi).take(lo));
        lemma_cbc_mac_prefix(key, d1, d2, j);
        assert(d1.subrange(lo, hi) =~= d1.take(hi).subrange(lo, hi));
        assert(d2.subrange(lo, hi) =~= d2.take(hi).subrange(lo, hi));
    }
}

/// XOR is commutative.
proof fn lemma_xor_commutes(a: Seq<u8>, b: Seq<u8>)
    requires
        a.len() == b.len(),
    ensures
        xor_seq(a, b) == xor_seq(b, a),
{
    assert forall|i: int| 0 <= i < a.len() implies #[trigger] xor_seq(a, b)[i] == xor_seq(b, a)[i] by {
        let x = a[i];
        let y = b[i];
        assert(x ^ y == y ^ x) by (bit_vector);
    }
    assert(xor_seq(a, b) =~= xor_seq(b, a));
}

/// XOR with zero bytes changes nothing.
proof fn lemma_xor_zero(a: Seq<u8>)
    requires
        a.len() == 16,
    ensures
        xor_seq(a, zero_block()) == a,
{
    assert forall|i: int| 0 <= i < 16 implies #[trigger] xor_seq(a, zero_block())[i] == a[i] by {
        let x = a[i];
        assert(x ^ 0u8 == x) by (bit_vector);
    }
    assert(xor_seq(a, zero_block()) =~= a);
}

/// The chaining step behind the PRF law: after a whole-block prefix `pre` with MAC `h`, the
/// MAC over `pre + d` equals the MAC over `d` with `h` XORed into its first block.
proof fn lemma_cbc_mac_chain(key: Seq<u8>, pre: Seq<u8>, d: Seq<u8>, d2: Seq<u8>, h: Seq<u8>, j: nat)
    requires
        pre.len() % 16 == 0,
        h.len() == 16,
        h == cbc_mac(key, pre, pre.len() / 16),
        d.len() == d2.len(),
        d.len() >= 16 * j,
        j >= 1,
        d2.take(16) == xor_seq(h, d.take(16)),
        d2.skip(16) == d.skip(16),
    ensures
        cbc_mac(key, pre + d, pre.len() / 16 + j) == cbc_mac(key, d2, j),
    decreases j,
{
    let ka = pre.len() / 16;
    let data = pre + d;
    let base: int = 16 * ka as int;
    if j == 1 {
        assert(data.take(base) =~= pre);
        assert(pre.take(base) =~= pre);
        lemma_cbc_mac_prefix(key, data, pre, ka);
        assert(data.subrange(base, base + 16) =~= d.take(16));
        assert(d2.subrange(0, 16) =~= d2.take(16));
        assert(cbc_mac(key, d2, 0) == zero_block());
        lemma_xor_zero(d2.take(16));
        lemma_xor_commutes(h, d.take(16));
    } else {
        let jp = (j - 1) as nat;
        let lo: int = 16 * jp as int;
        let hi: int = 16 * j as int;
        lemma_cbc_mac_chain(key, pre, d, d2, h, jp);
        assert(data.subrange(base + lo, base + hi) =~= d.subrange(lo, hi));
        assert(d.subrange(lo, hi) =~= d.skip(16).subrange(lo - 16, hi - 16));
        assert(d2.subrange(lo, hi) =~= d2.skip(16).subrange(lo - 16, hi - 16));
    }
}

/// PRF chains block by block: when `a` is whole blocks with PRF value `h`, the PRF of `a + b`
/// is the PRF of `b` with `h` XORed into its first block.
pub proof fn lemma_prf_chaining(key: Seq<u8>, a: Seq<u8>, b: Seq<u8>, h: Seq<u8>)
    requires
        a.len() % 16 == 0,
        b.len() >= 16,
        h.len() == 16,
        h == prf_spec(key, a),
    ensures
        prf_spec(key, a + b) == prf_spec(key, xor_seq(h, b.take(16)) + b.skip(16)),
{
    let ka = a.len() / 16;
    let b2 = xor_seq(h, b.take(16)) + b.skip(16);
    let nb = block_count(b.len());
    assert(block_count(a.len()) == ka);
    assert(zero_pad(a) =~= a);
    assert(b2.len() == b.len());
    assert(block_count(a.len() + b.len()) == ka + nb);
    assert(zero_pad(a + b) =~= a + zero_pad(b));
    let d = zero_pad(b);
    let d2 = zero_pad(b2);
    assert(d2.take(16) =~= xor_seq(h, d.take(16)));
    assert(d2.skip(16) =~= d.skip(16));
    lemma_cbc_mac_chain(key, a, d, d2, h, nb);
}

} // verus!
