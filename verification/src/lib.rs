//! FF1 format-preserving encryption (NIST SP 800-38G) with the SM4 block cipher.
//!
//! `ff1_encrypt` maps a string of digits in some radix to another string of the same length
//! in the same radix. Its contract states the result exactly, in terms of the specification
//! in `ff1`, whose only unstated part is the output of SM4 itself.
pub mod numeral;
pub mod bignat;
pub mod ff1error;
pub mod cipher;
pub mod radix;
pub mod ff1;

pub use crate::bignat::BigNat;
pub use crate::cipher::{ciph, leading_block, prf, xor_bytes};
pub use crate::ff1::ff1_encrypt;
pub use crate::radix::{bytes_radix, num_bytes, num_radix, str_radix};
