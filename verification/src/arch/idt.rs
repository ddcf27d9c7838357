//! The interrupt descriptor table.
use vstd::prelude::*;

verus! {

/// One 16-byte interrupt gate.
#[derive(Clone, Copy)]
pub struct Entry {
    pub offset_low: u16,
    pub code_selector: u16,
    pub ist_and_flags: u16,
    pub offset_mid: u16,
    pub offset_high: u32,
    pub reserved: u32,
}

pub struct IDT {
    pub entries: [Entry; 256],
}

/// What the processor pushes on an interrupt.
pub struct InterruptStackFrame {
    pub instruction_pointer: u64,
    pub code_segment: u64,
    pub cpu_flags: u64,
    pub stack_pointer: u64,
    pub stack_segment: u64,
}

/// The kernel code segment selector.
pub const KERNEL_CS: u16 = 0x08;

/// Present, ring 0, 64-bit interrupt gate.
pub const GATE_FLAGS: u16 = 0x8E00;

/// An interrupt gate whose handler is at `handler`.
pub open spec fn gate(handler: u64) -> Entry {
    Entry {
        offset_low: handler as u16,
        code_selector: KERNEL_CS,
        ist_and_flags: GATE_FLAGS,
        offset_mid: (handler >> 16u64) as u16,
        offset_high: (handler >> 32u64) as u32,
        reserved: 0,
    }
}

/// The handler address that a gate holds.
pub open spec fn gate_offset(e: Entry) -> u64 {
    (e.offset_low as u64) | ((e.offset_mid as u64) << 16u64) | ((e.offset_high as u64) << 32u64)
}

impl IDT {
    /// Sends interrupt `vector` to `handler`.
    pub fn set_entry(&mut self, vector: u8, handler: u64)
        ensures
            final(self).entries@ == old(self).entries@.update(vector as int, gate(handler)),
    {
        let offset_low = handler as u16;
        let offset_mid = (handler >> 16) as u16;
        let offset_high = (handler >> 32) as u32;
        let code_selector = KERNEL_CS;
        let ist_and_flags = (1 << 15) | (0xE << 8);
        assert(ist_and_flags == GATE_FLAGS) by (bit_vector)
            requires
                ist_and_flags == (1u16 << 15u16) | (0xEu16 << 8u16),
        ;
        self.entries[vector as usize] = Entry {
            offset_low,
            code_selector,
            ist_and_flags,
            offset_mid,
            offset_high,
            reserved: 0,
        };
        assert(self.entries@ =~= old(self).entries@.update(vector as int, gate(handler)));
    }
}

/// Law: a gate gives back the handler address it was made from.
pub proof fn law_gate_offset(handler: u64)
    ensures
        gate_offset(gate(handler)) == handler,
{
    let lo = handler as u16;
    let mid = (handler >> 16u64) as u16;
    let hi = (handler >> 32u64) as u32;
    assert((lo as u64) | ((mid as u64) << 16u64) | ((hi as u64) << 32u64) == handler) by (bit_vector)
        requires
            lo == handler as u16,
            mid == (handler >> 16u64) as u16,
            hi == (handler >> 32u64) as u32,
    ;
}

/// The operand of `lidt`: the table's limit and its base address.
pub struct Pointer {
    pub limit: u16,
    pub base: u64,
}

impl Pointer {
    /// The operand for a table of 256 gates at `base`.
    pub fn for_table(base: u64) -> (p: Pointer)
        ensures
            p.limit == 256 * 16 - 1,
            p.base == base,
    {
        Pointer { limit: 256 * 16 - 1, base }
    }
}

/// Whether the keyboard controller's status says that a byte from the
/// keyboard waits: output buffer full (bit 0) and not from the mouse (bit 5).
pub fn keyboard_byte_waiting(status: u8) -> (r: bool)
    ensures
        r == (status & 1 != 0 && status & 0x20 == 0),
{
    !((status & 1) == 0 || (status & 0x20) != 0)
}

/// Whether the controller's status says that a byte from the mouse waits.
pub fn mouse_byte_waiting(status: u8) -> (r: bool)
    ensures
        r == (status & 1 != 0 && status & 0x20 != 0),
{
    !((status & 1) == 0 || (status & 0x20) == 0)
}

/// A key going down or coming up.
#[derive(Clone, Copy)]
pub struct KeyEvent {
    /// The key's make code.
    pub make_code: u8,
    /// Whether the key went down.
    pub pressed: bool,
}

/// The key event of a scan code: codes from 0x80 up are releases of the key
/// 0x80 below.
pub fn decode_scancode(scancode: u8) -> (e: KeyEvent)
    ensures
        e.pressed == (scancode < 0x80),
        e.make_code == if scancode >= 0x80 {
            (scancode - 0x80) as u8
        } else {
            scancode
        },
{
    let is_release = scancode >= 0x80;
    let make_code = if is_release {
        scancode - 0x80
    } else {
        scancode
    };
    KeyEvent { make_code, pressed: !is_release }
}

/// Whether a key goes to the shell: a press, while the game is not running.
pub fn key_goes_to_shell(e: KeyEvent, in_game: bool) -> (r: bool)
    ensures
        r == (e.pressed && !in_game),
{
    e.pressed && !in_game
}

/// The id of the task that runs the shell, woken when a key comes.
pub const SHELL_TASK_ID: usize = 1;

/// The next write position of a queue of `size` places, going round.
pub fn ring_next(head: usize, size: usize) -> (r: usize)
    requires
        0 < size,
        head < size,
    ensures
        r == (head + 1) % (size as int),
        r < size,
{
    (head + 1) % size
}

} // verus!
