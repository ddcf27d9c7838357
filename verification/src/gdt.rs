//! The global descriptor table: flat code and data segments for the kernel
//! and for user mode, and a descriptor for the task state segment.
use vstd::prelude::*;

verus! {

/// One 8-byte descriptor.
#[derive(Debug, Clone, Copy)]
pub struct Entry(pub u64);

pub struct GDT {
    entries: [Entry; 7],
}

/// The limit of the task state segment: its size in bytes less one.
pub const TSS_LIMIT: u64 = 103;

/// The access byte of an available 64-bit task state segment.
pub const TSS_ACCESS: u64 = 0x89;

/// The base address that the low and high words of a system-segment
/// descriptor hold.
pub open spec fn descriptor_base(low: u64, high: u64) -> u64 {
    ((low >> 16u64) & 0xFFFFFF) | (((low >> 56u64) & 0xFF) << 24u64) | ((high & 0xFFFFFFFF) << 32u64)
}

/// The 20-bit limit that the low word of a descriptor holds.
pub open spec fn descriptor_limit(low: u64) -> u64 {
    (low & 0xFFFF) | (((low >> 48u64) & 0xF) << 16u64)
}

/// The access byte of a descriptor.
pub open spec fn descriptor_access(low: u64) -> u64 {
    (low >> 40u64) & 0xFF
}

/// The flags nibble of a descriptor.
pub open spec fn descriptor_flags(low: u64) -> u64 {
    (low >> 52u64) & 0xF
}

impl GDT {
    /// The descriptors, in table order.
    pub closed spec fn view(&self) -> Seq<u64> {
        self.entries@.map_values(|e: Entry| e.0)
    }

    /// The null descriptor, kernel code and data, user data and code, and two
    /// empty slots for the task state segment.
    pub fn new() -> (g: GDT)
        ensures
            g@ == seq![0u64, 0x00AF9A000000FFFFu64, 0x00CF92000000FFFFu64, 0x00CFF2000000FFFFu64, 0x00AFFA000000FFFFu64, 0u64, 0u64],
    {
        let g = GDT {
            entries: [
                Entry(0),
                Entry(0x00AF9A000000FFFF),
                Entry(0x00CF92000000FFFF),
                Entry(0x00CFF2000000FFFF),
                Entry(0x00AFFA000000FFFF),
                Entry(0),
                Entry(0),
            ],
        };
        assert(g@ =~= seq![0u64, 0x00AF9A000000FFFFu64, 0x00CF92000000FFFFu64, 0x00CFF2000000FFFFu64, 0x00AFFA000000FFFFu64, 0u64, 0u64]);
        g
    }

    /// The descriptors, for loading the table.
    pub fn entries(&self) -> (r: &[Entry; 7])
        ensures
            r@.map_values(|e: Entry| e.0) == self@,
            self@.len() == 7,
    {
        &self.entries
    }

    /// Writes the descriptor of the task state segment at `tss_addr` into the
    /// two last slots.
    pub fn set_tss(&mut self, tss_addr: u64)
        ensures
            old(self)@.len() == 7,
            final(self)@.len() == 7,
            forall|i: int| 0 <= i < 5 ==> #[trigger] final(self)@[i] == old(self)@[i],
            final(self)@ == old(self)@.update(5, final(self)@[5]).update(6, final(self)@[6]),
            descriptor_base(final(self)@[5], final(self)@[6]) == tss_addr,
            descriptor_limit(final(self)@[5]) == TSS_LIMIT,
            descriptor_access(final(self)@[5]) == TSS_ACCESS,
            descriptor_flags(final(self)@[5]) == 0,
            final(self)@[6] >> 32u64 == 0,
    {
        let limit = TSS_LIMIT;
        let base = tss_addr;
        let limit_low = limit & 0xFFFF;
        let base_low = base & 0xFFFF;
        let base_mid = (base >> 16) & 0xFF;
        let access = TSS_ACCESS;
        let limit_high_and_flags = (limit >> 16) & 0x0F;
        let base_high_mid = (base >> 24) & 0xFF;
        let base_high = (base >> 32) & 0xFFFFFFFF;
        let low = limit_low | (base_low << 16) | (base_mid << 32) | (access << 40) | (
        limit_high_and_flags << 48) | (base_high_mid << 56);
        let high = base_high;
        assert(descriptor_base(low, high) == tss_addr && descriptor_limit(low) == 103
            && descriptor_access(low) == 0x89 && descriptor_flags(low) == 0 && high >> 32u64 == 0)
            by (bit_vector)
            requires
                limit_low == 103u64 & 0xFFFF,
                base_low == tss_addr & 0xFFFF,
                base_mid == (tss_addr >> 16u64) & 0xFF,
                access == 0x89u64,
                limit_high_and_flags == (103u64 >> 16u64) & 0x0F,
                base_high_mid == (tss_addr >> 24u64) & 0xFF,
                high == (tss_addr >> 32u64) & 0xFFFFFFFF,
                low == limit_low | (base_low << 16u64) | (base_mid << 32u64) | (access << 40u64) | (
                limit_high_and_flags << 48u64) | (base_high_mid << 56u64),
        ;
        self.entries[5] = Entry(low);
        self.entries[6] = Entry(high);
        assert(self@ =~= old(self)@.update(5, low).update(6, high));
    }
}

/// The operand of `lgdt`: the table's limit and its base address.
pub struct GDTPtr {
    pub limit: u16,
    pub base: u64,
}

impl GDTPtr {
    /// The operand for a table of seven descriptors at `base`.
    pub fn for_table(base: u64) -> (p: GDTPtr)
        ensures
            p.limit == 7 * 8 - 1,
            p.base == base,
    {
        GDTPtr { limit: 7 * 8 - 1, base }
    }
}

/// The 64-bit task state segment.
#[derive(Debug, Clone, Copy)]
pub struct TaskStateSegment {
    reserved_1: u32,
    pub rsp: [u64; 3],
    reserved_2: u64,
    pub ist: [u64; 7],
    reserved_3: u64,
    reserved_4: u16,
    pub iomap_base: u16,
}

impl TaskStateSegment {
    /// The stack pointers for privilege levels 0 to 2.
    pub closed spec fn privilege_stacks(&self) -> Seq<u64> {
        self.rsp@
    }

    /// The interrupt stack table.
    pub closed spec fn interrupt_stacks(&self) -> Seq<u64> {
        self.ist@
    }

    /// The offset of the I/O permission map.
    pub closed spec fn io_map_offset(&self) -> u16 {
        self.iomap_base
    }

    /// The reserved fields, all of which the processor wants zero.
    pub closed spec fn reserved_zero(&self) -> bool {
        self.reserved_1 == 0 && self.reserved_2 == 0 && self.reserved_3 == 0 && self.reserved_4 == 0
    }

    /// A segment with every stack pointer zero and no I/O permission map.
    pub fn new() -> (t: TaskStateSegment)
        ensures
            t.privilege_stacks() == seq![0u64, 0u64, 0u64],
            t.interrupt_stacks() == Seq::new(7, |i: int| 0u64),
            t.io_map_offset() == 104,
            t.reserved_zero(),
    {
        let t = TaskStateSegment {
            reserved_1: 0,
            rsp: [0, 0, 0],
            reserved_2: 0,
            ist: [0, 0, 0, 0, 0, 0, 0],
            reserved_3: 0,
            reserved_4: 0,
            iomap_base: 104,
        };
        assert(t.rsp@ =~= seq![0u64, 0u64, 0u64]);
        assert(t.ist@ =~= Seq::new(7, |i: int| 0u64));
        t
    }
}

} // verus!
