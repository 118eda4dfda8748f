//! Shamir's secret sharing over GF(2^8), byte by byte.
use vstd::prelude::*;

pub mod codec;
pub mod error;
pub mod flow;
pub mod gf256;
pub mod sharing;
pub mod text;

verus! {

} // verus!
