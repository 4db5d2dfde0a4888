//! Marked-up prices computed with exact decimal arithmetic.
//!
//! Amounts are carried as sign, magnitude and scale, the same parts a
//! `rust_decimal::Decimal` is made of; the arithmetic itself is done by
//! `rust_decimal`, behind the trusted items of [`decimal`].

pub mod decimal;
pub mod pricing;
