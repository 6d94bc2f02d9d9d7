//! Trusted wrappers around the process-wide random number generator.

use vstd::prelude::*;
use rand::Rng;

verus! {

/// Relies on rand::Rng::gen_range over a half-open `i64` range: it panics
/// only on an empty range, and otherwise returns a value drawn from the
/// range.  Nothing more is assumed of the draw.
#[verifier::external_body]
pub(crate) fn rand_range_i64(lo: i64, hi: i64) -> (r: i64)
    requires
        lo < hi,
    ensures
        lo <= r < hi,
{
    rand::thread_rng().gen_range(lo..hi)
}

/// Relies on rand::Rng::gen_range over a half-open `usize` range: it panics
/// only on an empty range, and otherwise returns a value drawn from the
/// range.  Nothing more is assumed of the draw.
#[verifier::external_body]
pub(crate) fn rand_range_usize(lo: usize, hi: usize) -> (r: usize)
    requires
        lo < hi,
    ensures
        lo <= r < hi,
{
    rand::thread_rng().gen_range(lo..hi)
}

} // verus!
