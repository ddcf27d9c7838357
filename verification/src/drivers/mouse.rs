//! The PS/2 mouse: the controller configuration that enables it.
use vstd::prelude::*;

verus! {

/// The controller configuration byte with both port interrupts on and both
/// port clocks on: bits 0 and 1 set, bits 4 and 5 clear, the rest kept.
pub fn enable_ports_config(cmd_byte: u8) -> (r: u8)
    ensures
        r & 0x01 != 0,
        r & 0x02 != 0,
        r & 0x10 == 0,
        r & 0x20 == 0,
        r & 0xCC == cmd_byte & 0xCC,
{
    let mut b = cmd_byte;
    b = b | 1;
    b = b | 2;
    b = b & !0x10;
    b = b & !0x20;
    assert(b & 0x01 != 0 && b & 0x02 != 0 && b & 0x10 == 0 && b & 0x20 == 0 && b & 0xCC == cmd_byte & 0xCC)
        by (bit_vector)
        requires
            b == (((cmd_byte | 1u8) | 2u8) & !0x10u8) & !0x20u8,
    ;
    b
}

} // verus!
