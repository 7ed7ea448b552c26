//! Roman numerals and a small integer calculator.
//!
//! The library converts between integers and Roman numerals and parses and
//! evaluates arithmetic expressions written with decimal or Roman literals.
pub mod checked_pow;
pub mod conv;
pub mod expression;
mod text;

pub use conv::{character_value, is_subtractive_pair, numeral, numeral_signed, numeral_value};
pub use expression::{parse_integer, Expression};
