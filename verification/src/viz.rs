//! Byte visualisation: the colour of a byte by its class.
use vstd::prelude::*;

verus! {

/// The colour of a byte's class: NUL, white space (tab, line feed,
/// carriage return), printable ASCII, 0xFF, and everything else.
pub open spec fn byte_color_spec(b: u8) -> (u8, u8, u8) {
    if b == 0 {
        (40, 42, 54)
    } else if b == 0x09 || b == 0x0a || b == 0x0d {
        (90, 200, 210)
    } else if 0x20 <= b <= 0x7e {
        (90, 200, 130)
    } else if b == 0xff {
        (200, 130, 220)
    } else {
        (230, 150, 80)
    }
}

/// The colour of a byte.
pub fn byte_color(b: u8) -> (c: [u8; 3])
    ensures
        (c@[0], c@[1], c@[2]) == byte_color_spec(b),
{
    if b == 0 {
        [40, 42, 54]
    } else if b == 0x09 || b == 0x0a || b == 0x0d {
        [90, 200, 210]
    } else if 0x20 <= b && b <= 0x7e {
        [90, 200, 130]
    } else if b == 0xff {
        [200, 130, 220]
    } else {
        [230, 150, 80]
    }
}

} // verus!
