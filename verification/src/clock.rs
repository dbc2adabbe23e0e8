//! The wall clock, read through chrono. What it returns depends on the
//! machine's clock, so the contracts promise only what chrono's
//! formatting guarantees of the shape, never the value; every caller in
//! this library takes the result as an argument and is verified for all
//! values of it.

use vstd::prelude::*;

verus! {

/// Relies on `chrono::Local::now` and its `%Y%m%d` formatting: the local
/// calendar date, year zero-padded to at least four digits, month and
/// day to two. The value depends on the clock, so nothing is promised
/// beyond the minimum length.
#[verifier::external_body]
pub fn today_yyyymmdd() -> (r: Vec<u8>)
    ensures
        r@.len() >= 8,
{
    chrono::Local::now().format("%Y%m%d").to_string().into_bytes()
}

/// Relies on `chrono::Local::now` and its `%H%M%S` formatting: the local
/// time of day as exactly six digits, each field zero-padded to two.
#[verifier::external_body]
pub fn now_hhmmss() -> (r: Vec<u8>)
    ensures
        r@.len() == 6,
{
    chrono::Local::now().format("%H%M%S").to_string().into_bytes()
}

} // verus!
