//! Helpers: the greatest common divisor, and the address a request came from.

pub mod math;
pub mod web;

pub use crate::misc::math::gcd;
pub use crate::misc::web::{real_ip, Header, Request};
