//! The interrupt descriptor table, also reachable at the crate's top level,
//! and how a scan code is shown as two hexadecimal digits.
pub use crate::arch::idt::{Entry, InterruptStackFrame, Pointer, IDT};

use vstd::prelude::*;

verus! {

/// The hexadecimal digit for a nibble: `0`-`9`, then `A`-`F`.
pub open spec fn nibble_char(n: u8) -> u8 {
    if n < 10 {
        (48 + n) as u8
    } else {
        (55 + n) as u8
    }
}

/// The two hexadecimal digits of a scan code, high nibble first.
pub fn scancode_hex(scancode: u8) -> (r: (u8, u8))
    ensures
        r == (nibble_char(scancode / 16), nibble_char(scancode % 16)),
{
    assert((scancode & 0x0F) == scancode % 16 && ((scancode >> 4u8) & 0x0F) == scancode / 16) by (bit_vector);
    let low = (scancode & 0x0F) + 48;
    let high = ((scancode >> 4) & 0x0F) + 48;
    let h = if high <= 57 {
        high
    } else {
        high + 7
    };
    let l = if low <= 57 {
        low
    } else {
        low + 7
    };
    (h, l)
}

} // verus!
