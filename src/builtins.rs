//! Built-in functions offered to programs.
use vstd::prelude::*;
use rand::Rng;

verus! {

/// Holder of the built-in functions.
pub struct Builtin {}

/// Makes the built-in functions available; they need no setup.
pub fn load() {
}

/// Relies on rand::thread_rng and Rng::gen_range over an inclusive range:
/// a value between `min` and `max`, both included (it panics when `min > max`).
#[verifier::external_body]
fn draw_in_range(min: isize, max: isize) -> (r: isize)
    requires
        min <= max,
    ensures
        min <= r <= max,
{
    rand::thread_rng().gen_range(min..=max)
}

/// A pseudo-random integer between `min` and `max`, both included.
pub fn random(min: isize, max: isize) -> (r: isize)
    requires
        min <= max,
    ensures
        min <= r <= max,
{
    draw_in_range(min, max)
}

} // verus!
