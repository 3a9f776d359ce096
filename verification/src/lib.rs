//! A byte-quantity value type: construction from power-of-two scales
//! (KB, MB, GB, TB), parsing from human-readable strings such as
//! `"1.5KB"`, formatted display back to human-readable form, and
//! exact arithmetic.

mod display;
mod error;
mod num;
mod parse;
mod unit;

pub use display::{dec_chars, digit_char, display_spec, lemma_display_sign, scaled_chars};
pub use error::err_message;
pub use error::err_message_spec;
pub use error::UnitError;
pub use num::{abs_int, div_trunc, rdiv, rdiv_mag};
pub use parse::{
    all_digits, digit_val, digits_val, find_dot, is_digit, is_space, norm_char, normalize,
    number_parts, number_ticks, parse_spec, pow10, rfind_digit, strip_zeros, suffix_scale,
    ticks_of, trim, trim_back, trim_front,
};
pub use unit::lemma_scale_round_trip;
pub use unit::Unit;
pub use unit::{BYTES_PER_GB, BYTES_PER_KB, BYTES_PER_MB, BYTES_PER_TB, FP_DEN, FP_MAX, PROD_MAX};
