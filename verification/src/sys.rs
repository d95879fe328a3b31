//! The clock, the thread's random generator and Unicode lowercasing, as
//! std and `rand` provide them. Each item here is trusted: its contract
//! restates what the called function's documentation promises.
use vstd::prelude::*;
use std::time::{Duration, SystemTime};
use rand::rngs::ThreadRng;
use rand::Rng;

verus! {

/// `std::time::SystemTime`, carried through opaquely.
#[verifier::external_type_specification]
#[verifier::external_body]
pub struct ExSystemTime(SystemTime);

/// `rand::rngs::ThreadRng`, carried through opaquely.
#[verifier::external_type_specification]
#[verifier::external_body]
pub struct ExThreadRng(ThreadRng);

/// `SystemTime::now`: the clock's current reading. Nothing is claimed of it.
#[verifier::external_body]
pub(crate) fn system_now() -> (t: SystemTime) {
    SystemTime::now()
}

/// `std::time::UNIX_EPOCH`. Nothing is claimed of it.
#[verifier::external_body]
pub(crate) fn unix_epoch() -> (t: SystemTime) {
    std::time::UNIX_EPOCH
}

/// `SystemTime::duration_since`: how long after `earlier` the time `later`
/// is; `None` where std reports `later` to be the earlier one. Nothing more is
/// claimed: the readings come from the clock.
#[verifier::external_body]
pub(crate) fn duration_since(later: &SystemTime, earlier: &SystemTime) -> (d: Option<Duration>) {
    match later.duration_since(*earlier) {
        Ok(d) => Some(d),
        Err(_) => None,
    }
}

/// `Duration::as_millis`: the whole milliseconds of a duration. A
/// `Duration` is carried here as an opaque value, so nothing is claimed of
/// the number.
#[verifier::external_body]
pub(crate) fn duration_millis(d: &Duration) -> (ms: u128) {
    d.as_millis()
}

/// `Duration::subsec_nanos`: the fractional part of a duration in
/// nanoseconds, which std documents to be less than one billion.
#[verifier::external_body]
pub(crate) fn duration_subsec_nanos(d: &Duration) -> (n: u32)
    ensures
        n < 1_000_000_000,
{
    d.subsec_nanos()
}

/// `rand::rng`: the thread's random generator. Nothing is claimed of it.
#[verifier::external_body]
pub(crate) fn thread_rng() -> (r: ThreadRng) {
    rand::rng()
}

/// `Rng::random_range` over `0..limit`: a draw below `limit`. The range must
/// not be empty (the call panics on an empty range); which value comes is
/// chance.
#[verifier::external_body]
pub(crate) fn random_below(rng: &mut ThreadRng, limit: usize) -> (r: usize)
    requires
        limit > 0,
    ensures
        r < limit,
{
    rng.random_range(0..limit)
}

} // verus!

verus! {

/// What `str::to_lowercase` gives for a text: its lowercase equivalent by
/// the Unicode `Lowercase` property (a function of the text alone).
pub uninterp spec fn lowercase(s: Seq<char>) -> Seq<char>;

/// `str::to_lowercase`. Its result is `lowercase` of the argument.
#[verifier::external_body]
pub(crate) fn to_lowercase(s: &str) -> (r: String)
    ensures
        r@ == lowercase(s@),
{
    s.to_lowercase()
}

} // verus!
