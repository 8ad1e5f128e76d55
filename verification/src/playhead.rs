use vstd::prelude::*;
use crate::midi_types::MIDITick;

verus! {

/// `dividend / divisor` rounded to the nearest integer, halves up: one more
/// than the quotient when twice the remainder (as a 32-bit value) reaches
/// the divisor.
pub open spec fn rounded_div_spec(dividend: u32, divisor: u32) -> int {
    dividend as int / divisor as int + if ((dividend as int % divisor as int) * 2) % 0x1_0000_0000 >= divisor {
        1int
    } else {
        0int
    }
}

/// `rounded_div::u32`: the quotient plus one when the remainder shifted left
/// by one bit (within 32 bits) is at least the divisor. Trusted to be
/// exactly that, as the crate's source computes it.
#[verifier::external_body]
fn rounded_div_u32(dividend: u32, divisor: u32) -> (r: u32)
    requires
        divisor != 0,
    ensures
        r == rounded_div_spec(dividend, divisor),
{
    rounded_div::u32(dividend, divisor)
}

/// A playhead time moved to the nearest multiple of the grid step
/// `min_snap_length` (halves go up).
pub fn snap_playhead_time(playhead_time: MIDITick, min_snap_length: MIDITick) -> (r: MIDITick)
    requires
        min_snap_length != 0,
        rounded_div_spec(playhead_time, min_snap_length) * min_snap_length <= u32::MAX,
    ensures
        r == rounded_div_spec(playhead_time, min_snap_length) * min_snap_length,
{
    let q = rounded_div_u32(playhead_time, min_snap_length);
    q * min_snap_length
}

} // verus!
