//! Physical frames and the kernel heap.
pub mod allocator;
pub mod paging;

use vstd::prelude::*;

verus! {

/// The physical address of the first frame that the bitmap hands out.
pub const MEMORY_START: u64 = 0x200000;

/// The size of a frame in bytes.
pub const FRAME_SIZE: u64 = 4096;

/// The number of frames that the bitmap tracks.
pub const TOTAL_FRAMES: u64 = 8192;

/// The number of bytes of the bitmap: one bit per frame.
pub const BITMAP_BYTES: usize = 1024;

/// Which frames are in use: bit `f % 8` of byte `f / 8` is set when frame `f`
/// is in use.
pub struct FrameBitmap {
    bits: Vec<u8>,
}

/// Whether bit `bit` of `byte` is set.
pub open spec fn bit_set(byte: u8, bit: int) -> bool {
    byte & (1u8 << (bit as u8)) != 0
}

/// Whether frame `f` is in use.
pub open spec fn frame_used(bits: Seq<u8>, f: int) -> bool {
    bit_set(bits[f / 8], f % 8)
}

/// The first frame at or after `f` that is not in use.
pub open spec fn first_free_frame(bits: Seq<u8>, f: int) -> Option<int>
    decreases 8 * bits.len() - f,
{
    if f < 0 || f >= 8 * bits.len() {
        None
    } else if !frame_used(bits, f) {
        Some(f)
    } else {
        first_free_frame(bits, f + 1)
    }
}

pub proof fn lemma_first_free_frame(bits: Seq<u8>, f: int)
    requires
        0 <= f,
    ensures
        match first_free_frame(bits, f) {
            Some(g) => f <= g < 8 * bits.len() && !frame_used(bits, g) && forall|h: int|
                f <= h < g ==> #[trigger] frame_used(bits, h),
            None => forall|h: int| f <= h < 8 * bits.len() ==> #[trigger] frame_used(bits, h),
        },
    decreases 8 * bits.len() - f,
{
    if f < 8 * bits.len() && frame_used(bits, f) {
        lemma_first_free_frame(bits, f + 1);
    }
}

/// The physical address of frame `f`.
pub open spec fn frame_address(f: int) -> int {
    MEMORY_START + f * FRAME_SIZE
}

proof fn lemma_bit_facts(b: u8, bit: u8)
    requires
        bit < 8,
    ensures
        b == 0xFF ==> b & (1u8 << bit) != 0,
        (b | (1u8 << bit)) & (1u8 << bit) != 0,
        forall|other: u8| other < 8 && other != bit ==> ((b | (1u8 << bit)) & (1u8 << other) != 0 <==> b & (1u8 << other) != 0),
{
    assert(b == 0xFF ==> b & (1u8 << bit) != 0) by (bit_vector)
        requires bit < 8;
    assert((b | (1u8 << bit)) & (1u8 << bit) != 0) by (bit_vector)
        requires bit < 8;
    assert forall|other: u8| other < 8 && other != bit implies ((b | (1u8 << bit)) & (1u8 << other) != 0 <==> b & (1u8 << other) != 0) by {
        assert(((b | (1u8 << bit)) & (1u8 << other) != 0 <==> b & (1u8 << other) != 0)) by (bit_vector)
            requires bit < 8, other < 8, other != bit;
    }
}

impl FrameBitmap {
    /// The bitmap covers all the frames.
    pub closed spec fn wf(&self) -> bool {
        self.bits@.len() == BITMAP_BYTES
    }

    /// The bytes of the bitmap.
    pub closed spec fn view(&self) -> Seq<u8> {
        self.bits@
    }

    /// A bitmap with every frame free.
    pub fn new() -> (b: FrameBitmap)
        ensures
            b.wf(),
            b@.len() == BITMAP_BYTES,
            forall|i: int| 0 <= i < BITMAP_BYTES ==> b@[i] == 0,
    {
        FrameBitmap { bits: vec![0u8; BITMAP_BYTES] }
    }
}

/// Takes the first free frame, marks it in use and returns its physical
/// address; `None` when every frame is in use.
pub fn allocate_memory(bitmap: &mut FrameBitmap) -> (r: Option<usize>)
    requires
        old(bitmap).wf(),
    ensures
        final(bitmap).wf(),
        final(bitmap)@.len() == BITMAP_BYTES,
        old(bitmap)@.len() == BITMAP_BYTES,
        match first_free_frame(old(bitmap)@, 0) {
            None => r is None && final(bitmap)@ == old(bitmap)@,
            Some(f) => r == Some(frame_address(f) as usize) && final(bitmap)@ == old(bitmap)@.update(
                f / 8,
                old(bitmap)@[f / 8] | (1u8 << ((f % 8) as u8)),
            ),
        },
{
    proof {
        lemma_first_free_frame(bitmap@, 0);
    }
    let mut i: usize = 0;
    while i < BITMAP_BYTES
        invariant
            bitmap@ == old(bitmap)@,
            bitmap@.len() == BITMAP_BYTES,
            i <= BITMAP_BYTES,
            forall|h: int| 0 <= h < 8 * i ==> #[trigger] frame_used(bitmap@, h),
        decreases BITMAP_BYTES - i,
    {
        let byte = bitmap.bits[i];
        if byte != 0xFF {
            let mut bit: u8 = 0;
            while bit < 8
                invariant
                    bitmap@ == old(bitmap)@,
                    bitmap@.len() == BITMAP_BYTES,
                    i < BITMAP_BYTES,
                    byte == bitmap@[i as int],
                    bit <= 8,
                    forall|h: int| 0 <= h < 8 * i + bit ==> #[trigger] frame_used(bitmap@, h),
                decreases 8 - bit,
            {
                proof {
                    lemma_bit_facts(byte, bit);
                }
                let f: usize = 8 * i + bit as usize;
                assert(f / 8 == i as int && f % 8 == bit as int);
                assert(((f as int % 8) as u8) == bit);
                if byte & (1u8 << bit) == 0 {
                    assert(!frame_used(bitmap@, f as int));
                    proof {
                        lemma_first_free_frame(bitmap@, 0);
                        if let Some(g) = first_free_frame(bitmap@, 0) {
                            if g < f {
                                assert(frame_used(bitmap@, g));
                            } else if g > f {
                                assert(!frame_used(bitmap@, f as int));
                            }
                        }
                    }
                    let new_byte = byte | (1u8 << bit);
                    bitmap.bits.set(i, new_byte);
                    let addr: u64 = MEMORY_START + (f as u64) * FRAME_SIZE;
                    assert(((f as int % 8) as u8) == bit);
                    assert(addr == frame_address(f as int));
                    return Some(addr as usize);
                }
                assert(frame_used(bitmap@, f as int));
                bit = bit + 1;
            }
        } else {
            proof {
                assert forall|h: int| 8 * i <= h < 8 * i + 8 implies #[trigger] frame_used(bitmap@, h) by {
                    assert(h / 8 == i as int);
                    lemma_bit_facts(byte, (h % 8) as u8);
                }
            }
        }
        i = i + 1;
    }
    None
}

/// Law: the frame that `allocate_memory` hands out is marked in use
/// afterwards, and no other frame changes.
pub proof fn law_allocated_frame_marked(bits: Seq<u8>, f: int)
    requires
        0 <= f < 8 * bits.len(),
    ensures
        ({
            let after = bits.update(f / 8, bits[f / 8] | (1u8 << ((f % 8) as u8)));
            &&& frame_used(after, f)
            &&& forall|g: int| 0 <= g < 8 * bits.len() && g != f ==> frame_used(after, g) == frame_used(
                bits,
                g,
            )
        }),
{
    let after = bits.update(f / 8, bits[f / 8] | (1u8 << ((f % 8) as u8)));
    lemma_bit_facts(bits[f / 8], (f % 8) as u8);
    assert forall|g: int| 0 <= g < 8 * bits.len() && g != f implies frame_used(after, g) == frame_used(bits, g) by {
        if g / 8 == f / 8 {
            assert(g % 8 != f % 8);
        }
    }
}

/// Law: no frame is handed out twice: after `allocate_memory` hands out frame
/// `f`, the next call hands out a later frame or none.
pub proof fn law_frames_never_handed_out_twice(bits: Seq<u8>)
    requires
        first_free_frame(bits, 0) is Some,
    ensures
        ({
            let f = first_free_frame(bits, 0)->0;
            let after = bits.update(f / 8, bits[f / 8] | (1u8 << ((f % 8) as u8)));
            match first_free_frame(after, 0) {
                Some(g) => g > f,
                None => true,
            }
        }),
{
    lemma_first_free_frame(bits, 0);
    let f = first_free_frame(bits, 0)->0;
    let after = bits.update(f / 8, bits[f / 8] | (1u8 << ((f % 8) as u8)));
    law_allocated_frame_marked(bits, f);
    lemma_first_free_frame(after, 0);
    if let Some(g) = first_free_frame(after, 0) {
        if g < f {
            assert(frame_used(bits, g));
        }
    }
}

} // verus!
