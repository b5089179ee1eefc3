use sm4_ff1::ff1error::FF1Error;
use sm4_ff1::{bytes_radix, ciph, leading_block, num_bytes, num_radix, prf, str_radix, xor_bytes};
use sm4_ff1::ff1::feistel_byte_len;

const KEY: [u8; 16] = [0x01, 0x23, 0x45, 0x67, 0x89, 0xAB, 0xCD, 0xEF,
    0xFE, 0xDC, 0xBA, 0x98, 0x76, 0x54, 0x32, 0x10];

#[test]
fn xor_bytes_xors_each_byte() {
    let mut a = [0x0f, 0xf0, 0xaa, 0x00];
    xor_bytes(&mut a, &[0xff, 0xff, 0x55, 0x00]);
    assert_eq!(a, [0xf0, 0x0f, 0xff, 0x00]);
}

#[test]
fn xor_bytes_twice_restores() {
    let plain = [1u8, 2, 3, 4, 5];
    let mask = [9u8, 8, 7, 6, 5];
    let mut a = plain;
    xor_bytes(&mut a, &mask);
    xor_bytes(&mut a, &mask);
    assert_eq!(a, plain);
}

#[test]
fn ciph_matches_sm4_standard_vector() {
    // The standard SM4 example (GB/T 32907): key = plaintext = 0123456789ABCDEFFEDCBA9876543210.
    let c = ciph(&KEY, &KEY).unwrap();
    assert_eq!(c, [0x68, 0x1E, 0xDF, 0x34, 0xD2, 0x06, 0x96, 0x5E,
        0x86, 0xB3, 0xE9, 0x4F, 0x53, 0x6E, 0x42, 0x46]);
}

#[test]
fn leading_block_takes_first_sixteen_bytes() {
    let bytes: Vec<u8> = (0..20).collect();
    let block = leading_block(&bytes).unwrap();
    let expected: Vec<u8> = (0..16).collect();
    assert_eq!(block.to_vec(), expected);
}

#[test]
fn leading_block_of_short_output_is_an_error() {
    assert_eq!(leading_block(&[1, 2, 3]), Err(FF1Error::CipherLengthError));
}

#[test]
fn prf_of_one_block_is_ciph() {
    let block = [7u8; 16];
    assert_eq!(prf(&KEY, &block).unwrap(), ciph(&KEY, &block).unwrap());
}

#[test]
fn prf_pads_with_zeros() {
    let short = [1u8, 2, 3];
    let mut padded = [0u8; 16];
    padded[0] = 1;
    padded[1] = 2;
    padded[2] = 3;
    assert_eq!(prf(&KEY, &short).unwrap(), prf(&KEY, &padded).unwrap());
}

#[test]
fn prf_chains_blocks() {
    let x1 = [3u8; 16];
    let x2 = [5u8; 16];
    let mut both = Vec::new();
    both.extend_from_slice(&x1);
    both.extend_from_slice(&x2);
    let y1 = ciph(&KEY, &x1).unwrap();
    let mut chained = x2;
    xor_bytes(&mut chained, &y1);
    assert_eq!(prf(&KEY, &both).unwrap(), ciph(&KEY, &chained).unwrap());
}

#[test]
fn prf_of_empty_input_is_zero_block() {
    assert_eq!(prf(&KEY, &[]).unwrap(), [0u8; 16]);
}

#[test]
fn num_radix_reads_digits() {
    let n = num_radix(&[1, 2, 3], 10).unwrap();
    assert_eq!(n.to_bytes_be(), vec![123]);
    let n = num_radix(&[1, 0, 0, 0], 16).unwrap();
    assert_eq!(n.to_bytes_be(), vec![0x10, 0x00]);
    let n = num_radix(&[], 10).unwrap();
    assert_eq!(n.to_bytes_be(), vec![0]);
}

#[test]
fn num_radix_reports_first_invalid_digit() {
    assert_eq!(num_radix(&[1, 10, 11], 10).err(), Some(FF1Error::InvalidDigit(10, 10)));
}

#[test]
fn str_radix_writes_fixed_length() {
    let c = num_radix(&[1, 2, 3], 10).unwrap();
    assert_eq!(str_radix(c, 10, 5).unwrap(), vec![0, 0, 1, 2, 3]);
    let c = num_bytes(&[0xff]);
    assert_eq!(str_radix(c, 2, 8).unwrap(), vec![1, 1, 1, 1, 1, 1, 1, 1]);
}

#[test]
fn str_radix_of_zero_is_zeros() {
    let c = num_bytes(&[]);
    assert_eq!(str_radix(c, 7, 3).unwrap(), vec![0, 0, 0]);
    let c = num_bytes(&[0]);
    assert_eq!(str_radix(c, 7, 0).unwrap(), Vec::<u32>::new());
    // Zero needs no division, whatever the radix.
    let c = num_bytes(&[]);
    assert_eq!(str_radix(c, 0, 2).unwrap(), vec![0, 0]);
}

#[test]
fn str_radix_too_short_is_an_error() {
    let c = num_radix(&[1, 2, 3, 4, 5], 10).unwrap();
    assert_eq!(str_radix(c, 10, 3), Err(FF1Error::StrLenMismatch));
    let c = num_radix(&[1, 0, 0], 10).unwrap();
    assert_eq!(str_radix(c, 10, 2), Err(FF1Error::StrLenMismatch));
}

#[test]
fn str_radix_undoes_num_radix() {
    let x = vec![0, 9, 0, 0, 7, 3];
    let c = num_radix(&x, 10).unwrap();
    assert_eq!(str_radix(c, 10, x.len()).unwrap(), x);
    let x = vec![65535, 0, 1];
    let c = num_radix(&x, 65536).unwrap();
    assert_eq!(str_radix(c, 65536, 3).unwrap(), x);
}

#[test]
fn num_bytes_reads_big_endian() {
    assert_eq!(num_bytes(&[0x01, 0x00]).to_bytes_be(), vec![0x01, 0x00]);
    assert_eq!(num_bytes(&[0x00, 0x00, 0x05]).to_bytes_be(), vec![0x05]);
    assert_eq!(num_bytes(&[0x00, 0x00]).to_bytes_be(), vec![0x00]);
}

#[test]
fn bytes_radix_pads_on_the_left() {
    let n = num_bytes(&[0x01, 0x00]);
    assert_eq!(bytes_radix(&n, 4).unwrap(), vec![0, 0, 1, 0]);
    assert_eq!(bytes_radix(&n, 2).unwrap(), vec![1, 0]);
}

#[test]
fn bytes_radix_too_short_is_an_error() {
    let n = num_bytes(&[0x01, 0x00]);
    assert_eq!(bytes_radix(&n, 1), Err(FF1Error::NumToBytesConversion));
    // Zero still takes one byte.
    let zero = num_bytes(&[]);
    assert_eq!(bytes_radix(&zero, 0), Err(FF1Error::NumToBytesConversion));
    assert_eq!(bytes_radix(&zero, 1).unwrap(), vec![0]);
}

#[test]
fn feistel_byte_len_is_least_byte_count() {
    // 16^2 = 256 = 256^1
    assert_eq!(feistel_byte_len(16, 2), Ok(1));
    // 16^3 = 4096 needs two bytes
    assert_eq!(feistel_byte_len(16, 3), Ok(2));
    // 10^2 = 100, 10^3 = 1000
    assert_eq!(feistel_byte_len(10, 2), Ok(1));
    assert_eq!(feistel_byte_len(10, 3), Ok(2));
    // 2^8 = 256, 2^9 = 512
    assert_eq!(feistel_byte_len(2, 8), Ok(1));
    assert_eq!(feistel_byte_len(2, 9), Ok(2));
    // 65536 = 256^2, 65536^3 = 256^6
    assert_eq!(feistel_byte_len(65536, 1), Ok(2));
    assert_eq!(feistel_byte_len(65536, 3), Ok(6));
    // 10^20 < 2^67 <= 256^9
    assert_eq!(feistel_byte_len(10, 20), Ok(9));
}

#[test]
fn num_radix_undoes_str_radix() {
    let c = num_radix(&[1, 2, 3, 4, 5], 10).unwrap();
    let digits = str_radix(c, 10, 5).unwrap();
    assert_eq!(digits, vec![1, 2, 3, 4, 5]);
    let back = num_radix(&digits, 10).unwrap();
    assert_eq!(back.to_bytes_be(), vec![0x30, 0x39]);
}

#[test]
fn prf_ignores_zeros_up_to_block_boundary() {
    let input = [9u8, 8, 7, 6, 5, 4, 3, 2, 1, 1, 2, 3, 4, 5, 6, 7, 8, 9, 10, 11];
    let base = prf(&KEY, &input).unwrap();
    for k in 0..=12usize {
        let mut longer = input.to_vec();
        longer.extend(std::iter::repeat(0u8).take(k));
        assert_eq!(prf(&KEY, &longer).unwrap(), base);
    }
}
