//! Instants and durations on the recording timeline.
use vstd::prelude::*;

verus! {

/// A time or a duration on the recording timeline, in whole nanoseconds. One
/// sample at 16 kHz lasts 62 500 of them.
pub type Nanos = i64;

/// The middle of two instants, rounded down.
pub fn midpoint(a: Nanos, b: Nanos) -> (r: Nanos)
    ensures
        r == (a + b) / 2,
{
    // Lifted by an even offset, the sum is not negative and halves exactly.
    let lifted: u128 = (a as i128 + b as i128 + 0x2_0000_0000_0000_0000i128) as u128;
    ((lifted / 2) as i128 - 0x1_0000_0000_0000_0000i128) as i64
}

} // verus!
