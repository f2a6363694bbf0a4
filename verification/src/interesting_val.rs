//! Boundary-condition integers used as seed values when a tainted region is
//! rewritten, indexed by the byte width of the operand they are meant for.

use vstd::prelude::*;

verus! {

/// The table for operand widths that have no table of their own.
pub const INTERESTING_V0: [u64; 1] = [0];

/// Boundary values of an 8-bit operand.
pub const INTERESTING_V8: [u64; 9] = [
    128,  // signed 8-bit overflow when decremented
    255,  // -1
    0,
    1,
    16,  // one-off with common buffer size
    32,  // one-off with common buffer size
    64,  // one-off with common buffer size
    100,  // one-off with common buffer size
    127,  // signed 8-bit overflow when incremented
];

/// Boundary values of a 16-bit operand.
pub const INTERESTING_V16: [u64; 19] = [
    65408,  // signed 8-bit overflow when decremented
    65535,
    0,
    1,
    16,  // one-off with common buffer size
    32,  // one-off with common buffer size
    64,  // one-off with common buffer size
    100,  // one-off with common buffer size
    127,  // signed 8-bit overflow when incremented
    32768,  // signed 16-bit overflow when decremented
    65407,  // signed 8-bit overflow
    128,  // signed 8-bit overflow
    255,  // unsigned 8-bit overflow when incremented
    256,  // unsigned 8-bit overflow
    512,  // one-off with common buffer size
    1000,  // one-off with common buffer size
    1024,  // one-off with common buffer size
    4096,  // one-off with common buffer size
    32767,  // signed 16-bit overflow when incremented
];

/// Boundary values of a 32-bit or 64-bit operand.
pub const INTERESTING_V32: [u64; 27] = [
    4294967168,  // signed 8-bit overflow when decremented
    4294967295,
    0,
    1,
    16,  // one-off with common buffer size
    32,  // one-off with common buffer size
    64,  // one-off with common buffer size
    100,  // one-off with common buffer size
    127,  // signed 8-bit overflow when incremented
    4294934428,  // signed 16-bit overflow when decremented
    4294967167,  // signed 8-bit overflow
    128,  // signed 8-bit overflow
    255,  // unsigned 8-bit overflow when incremented
    256,  // unsigned 8-bit overflow
    512,  // one-off with common buffer size
    1000,  // one-off with common buffer size
    1024,  // one-off with common buffer size
    4096,  // one-off with common buffer size
    32767,  // signed 16-bit overflow when incremented
    2147483648,  // signed 32-bit overflow when decremented
    4194304250,  // large negative number (endian-agnostic)
    4194304250,  // signed 16-bit overflow
    32768,  // signed 16-bit overflow
    65535,  // unsigned 16-bit overflow when incremented
    65536,  // unsigned 16-bit overflow
    100663045,  // large positive number (endian-agnostic)
    2147483647,  // signed 32-bit overflow when incremented
];

/// The table that belongs to an operand of `width` bytes: one table each for
/// widths 1 and 2, a shared one for widths 4 and 8, and the single zero for
/// every other width.
pub open spec fn interesting_values(width: usize) -> Seq<u64> {
    if width == 1 {
        INTERESTING_V8@
    } else if width == 2 {
        INTERESTING_V16@
    } else if width == 4 || width == 8 {
        INTERESTING_V32@
    } else {
        INTERESTING_V0@
    }
}

/// Looks up the table of boundary values for an operand of `width` bytes.
pub fn get_interesting_bytes<'a>(width: usize) -> (table: &'a [u64])
    ensures
        table@ == interesting_values(width),
{
    match width {
        1 => &INTERESTING_V8,
        2 => &INTERESTING_V16,
        4 | 8 => &INTERESTING_V32,
        _ => &INTERESTING_V0,
    }
}

} // verus!
