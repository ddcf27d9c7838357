//! A bump allocator: it hands out memory from a range in order and never
//! takes any back.
use vstd::prelude::*;
use vstd::arithmetic::power2::pow2;
use vstd::bits::low_bits_mask;

verus! {

pub struct BumpAllocator {
    current: usize,
    end: usize,
}

/// The first multiple of `a` at or after `x`.
pub open spec fn align_up(x: int, a: int) -> int {
    (x + a - 1) - (x + a - 1) % a
}

/// Whether `a` is a power of two.
pub open spec fn is_power_of_two(a: usize) -> bool {
    exists|k: nat| k < usize::BITS && pow2(k) == a
}

proof fn lemma_mask_is_align_down(y: usize, a: usize)
    requires
        is_power_of_two(a),
    ensures
        y & !((a - 1) as usize) == y - y % a,
        a > 0,
{
    let k = choose|k: nat| k < usize::BITS && pow2(k) == a;
    vstd::arithmetic::power2::lemma_pow2_pos(k);
    vstd::bits::lemma_usize_low_bits_mask_is_mod(y, k);
    let m = (a - 1) as usize;
    assert(low_bits_mask(k) as usize == m);
    assert(y & !m == y - (y & m)) by (bit_vector);
}

/// Law: `align_up(x, a)` is a multiple of `a`, at least `x` and less than
/// `x + a`.
pub proof fn law_align_up(x: int, a: int)
    requires
        0 <= x,
        0 < a,
    ensures
        align_up(x, a) % a == 0,
        x <= align_up(x, a) < x + a,
{
    let y = x + a - 1;
    vstd::arithmetic::div_mod::lemma_fundamental_div_mod(y, a);
    vstd::arithmetic::div_mod::lemma_mod_multiples_basic(y / a, a);
    vstd::arithmetic::div_mod::lemma_mod_bound(y, a);
    assert(y - y % a == (y / a) * a) by (nonlinear_arith)
        requires
            y == a * (y / a) + y % a,
    ;
}

impl BumpAllocator {
    /// The next address to hand out.
    pub closed spec fn current(&self) -> usize {
        self.current
    }

    /// The end of the range.
    pub closed spec fn end(&self) -> usize {
        self.end
    }

    /// An allocator that hands out the range from `current` to `end`.
    pub fn new(current: usize, end: usize) -> (a: BumpAllocator)
        ensures
            a.current() == current,
            a.end() == end,
    {
        BumpAllocator { current, end }
    }

    /// The start of a block of `size` bytes aligned to `align` at the front
    /// of what is left, or 0 when the range cannot hold it.
    pub fn allocate(&mut self, size: usize, align: usize) -> (r: usize)
        requires
            is_power_of_two(align),
            old(self).current() + align <= usize::MAX,
            old(self).current() + align - 1 + size <= usize::MAX,
        ensures
            final(self).end() == old(self).end(),
            align_up(old(self).current() as int, align as int) + size <= old(self).end() ==> r
                == align_up(old(self).current() as int, align as int) && final(self).current() == r
                + size,
            align_up(old(self).current() as int, align as int) + size > old(self).end() ==> r == 0
                && final(self).current() == old(self).current(),
    {
        proof {
            lemma_mask_is_align_down(0, align);
        }
        let y = self.current + align - 1;
        proof {
            lemma_mask_is_align_down(y, align);
            vstd::arithmetic::div_mod::lemma_mod_bound(y as int, align as int);
        }
        let aligned = y & !(align - 1);
        let next = aligned + size;
        if next <= self.end {
            self.current = next;
            aligned
        } else {
            0
        }
    }
}

} // verus!
