//! A first-fit heap allocator over a list of free regions.
//!
//! The free list is kept in the order in which the allocator walks it: the
//! region at index 0 is the one at the head of the list. A region is a start
//! address and a size in bytes.
use vstd::prelude::*;

verus! {

/// The size of the header that a free region holds at its start: a size and
/// a link. No region is smaller, and no block is handed out smaller.
pub const NODE_SIZE: usize = 16;

pub struct LinkedListAllocator {
    regions: Vec<(usize, usize)>,
}

/// A free region: `(start, size)`.
pub type Region = (usize, usize);

/// Every region is large enough to hold its header and ends inside the
/// address space.
pub open spec fn regions_wf(rs: Seq<Region>) -> bool {
    forall|i: int| 0 <= i < rs.len() ==> (#[trigger] rs[i]).1 >= NODE_SIZE && rs[i].0 + rs[i].1 <= usize::MAX
}

/// The size that a request for `size` bytes aligned to `align` takes.
pub open spec fn block_size(size: usize, align: usize) -> int {
    let m = if size >= align { size } else { align };
    if m >= NODE_SIZE { m as int } else { NODE_SIZE as int }
}

/// The index of the first region at or after `start` that holds `need` bytes.
pub open spec fn first_fit(rs: Seq<Region>, need: int, start: int) -> Option<int>
    decreases rs.len() - start,
{
    if start < 0 || start >= rs.len() {
        None
    } else if rs[start].1 >= need {
        Some(start)
    } else {
        first_fit(rs, need, start + 1)
    }
}

pub proof fn lemma_first_fit(rs: Seq<Region>, need: int, start: int)
    requires
        0 <= start,
    ensures
        match first_fit(rs, need, start) {
            Some(i) => start <= i < rs.len() && rs[i].1 >= need && forall|j: int|
                start <= j < i ==> (#[trigger] rs[j]).1 < need,
            None => forall|j: int| start <= j < rs.len() ==> (#[trigger] rs[j]).1 < need,
        },
    decreases rs.len() - start,
{
    if start < rs.len() && rs[start].1 < need {
        lemma_first_fit(rs, need, start + 1);
    }
}

/// The free list after the block for a request of `need` bytes is cut from the
/// region at `i`: the front of the region is handed out, and the rest stays
/// free where the region was if it can hold a header; else the whole region
/// is handed out.
pub open spec fn cut(rs: Seq<Region>, i: int, need: int) -> Seq<Region> {
    if rs[i].1 >= need + NODE_SIZE {
        rs.update(i, ((rs[i].0 + need) as usize, (rs[i].1 - need) as usize))
    } else {
        rs.remove(i)
    }
}

impl LinkedListAllocator {
    #[verifier::type_invariant]
    spec fn inv(self) -> bool {
        regions_wf(self.regions@)
    }

    /// The free regions, head of the list first.
    pub closed spec fn view(&self) -> Seq<Region> {
        self.regions@
    }

    /// An allocator with no free memory.
    pub fn new() -> (a: LinkedListAllocator)
        ensures
            a@.len() == 0,
            regions_wf(a@),
    {
        LinkedListAllocator { regions: Vec::new() }
    }

    /// Hands the `heap_size` bytes at `heap_start` to the allocator.
    pub fn init(&mut self, heap_start: usize, heap_size: usize)
        requires
            heap_size >= NODE_SIZE,
            heap_start + heap_size <= usize::MAX,
        ensures
            final(self)@ == old(self)@.insert(0, (heap_start, heap_size)),
            regions_wf(final(self)@),
    {
        self.add_free_region(heap_start, heap_size);
    }

    /// Puts the region at the head of the free list.
    fn add_free_region(&mut self, addr: usize, size: usize)
        requires
            size >= NODE_SIZE,
            addr + size <= usize::MAX,
        ensures
            final(self)@ == old(self)@.insert(0, (addr, size)),
            regions_wf(final(self)@),
    {
        proof {
            use_type_invariant(&*self);
        }
        let mut regions = Vec::new();
        std::mem::swap(&mut regions, &mut self.regions);
        regions.insert(0, (addr, size));
        assert(regions_wf(regions@)) by {
            assert forall|i: int| 0 <= i < regions@.len() implies (#[trigger] regions@[i]).1 >= NODE_SIZE
                && regions@[i].0 + regions@[i].1 <= usize::MAX by {
                if i > 0 {
                    assert(regions@[i] == old(self).regions@[i - 1]);
                }
            }
        }
        self.regions = regions;
    }

    /// The start of a block of `block_size(size, align)` bytes cut from the
    /// first free region that holds them, or 0 when none does.
    pub fn allocate(&mut self, size: usize, align: usize) -> (r: usize)
        requires
            size <= isize::MAX,
            align <= isize::MAX,
        ensures
            match first_fit(old(self)@, block_size(size, align), 0) {
                None => r == 0 && final(self)@ == old(self)@,
                Some(i) => r == old(self)@[i].0 && final(self)@ == cut(
                    old(self)@,
                    i,
                    block_size(size, align),
                ),
            },
            regions_wf(old(self)@),
            regions_wf(final(self)@),
    {
        proof {
            use_type_invariant(&*self);
        }
        let m = if size >= align { size } else { align };
        let need = if m >= NODE_SIZE { m } else { NODE_SIZE };
        let mut i: usize = 0;
        while i < self.regions.len()
            invariant
                need == block_size(size, align),
                need <= isize::MAX,
                i <= self.regions@.len(),
                self.regions@ == old(self).regions@,
                regions_wf(self.regions@),
                forall|j: int| 0 <= j < i ==> (#[trigger] self.regions@[j]).1 < need,
            decreases self.regions@.len() - i,
        {
            let (addr, region_size) = self.regions[i];
            if region_size >= need {
                proof {
                    lemma_first_fit(self.regions@, need as int, 0);
                    if let Some(k) = first_fit(self.regions@, need as int, 0) {
                        if k < i {
                            assert(self.regions@[k].1 < need);
                        } else if k > i {
                            assert(self.regions@[i as int].1 >= need);
                        }
                    }
                }
                let mut regions = Vec::new();
                std::mem::swap(&mut regions, &mut self.regions);
                let ghost before = regions@;
                if region_size >= need + NODE_SIZE {
                    regions.set(i, (addr + need, region_size - need));
                } else {
                    regions.remove(i);
                }
                assert(regions_wf(regions@)) by {
                    assert forall|j: int| 0 <= j < regions@.len() implies (#[trigger] regions@[j]).1
                        >= NODE_SIZE && regions@[j].0 + regions@[j].1 <= usize::MAX by {
                        if region_size < need + NODE_SIZE && j >= i {
                            assert(regions@[j] == before[j + 1]);
                        } else if j != i {
                            assert(regions@[j] == before[j]);
                        }
                    }
                }
                assert(regions@ =~= cut(before, i as int, need as int));
                self.regions = regions;
                return addr;
            }
            i = i + 1;
        }
        proof {
            lemma_first_fit(self.regions@, need as int, 0);
        }
        0
    }

    /// Gives back the block of `block_size(size, align)` bytes at `ptr`: it
    /// goes to the head of the free list.
    pub fn deallocate(&mut self, ptr: usize, size: usize, align: usize)
        requires
            size <= isize::MAX,
            align <= isize::MAX,
            ptr + block_size(size, align) <= usize::MAX,
        ensures
            final(self)@ == old(self)@.insert(0, (ptr, block_size(size, align) as usize)),
            final(self)@ == freed(old(self)@, ptr, size, align),
            regions_wf(final(self)@),
    {
        let m = if size >= align { size } else { align };
        let need = if m >= NODE_SIZE { m } else { NODE_SIZE };
        self.add_free_region(ptr, need);
    }
}

impl Default for LinkedListAllocator {
    fn default() -> (a: LinkedListAllocator)
        ensures
            a@.len() == 0,
    {
        LinkedListAllocator::new()
    }
}

/// Two regions share no byte.
pub open spec fn disjoint(a: Region, b: Region) -> bool {
    a.0 + a.1 <= b.0 || b.0 + b.1 <= a.0
}

/// No two regions of the list share a byte.
pub open spec fn pairwise_disjoint(rs: Seq<Region>) -> bool {
    forall|i: int, j: int| 0 <= i < rs.len() && 0 <= j < rs.len() && i != j ==> disjoint(#[trigger] rs[i], #[trigger] rs[j])
}

/// Law: an allocation hands out the front of a region that was free, keeps
/// the free regions apart from one another, and leaves no free region that
/// shares a byte with the block handed out.
pub proof fn law_alloc_block_is_taken(rs: Seq<Region>, need: int)
    requires
        regions_wf(rs),
        pairwise_disjoint(rs),
        need >= NODE_SIZE,
        first_fit(rs, need, 0) is Some,
    ensures
        ({
            let i = first_fit(rs, need, 0)->0;
            let after = cut(rs, i, need);
            &&& rs[i].0 + need <= rs[i].0 + rs[i].1
            &&& pairwise_disjoint(after)
            &&& forall|j: int| 0 <= j < after.len() ==> disjoint(#[trigger] after[j], (rs[i].0, need as usize))
        }),
{
    let i = first_fit(rs, need, 0)->0;
    lemma_first_fit(rs, need, 0);
    let after = cut(rs, i, need);
    let r = rs[i];
    if r.1 >= need + NODE_SIZE {
        assert forall|a: int, b: int|
            0 <= a < after.len() && 0 <= b < after.len() && a != b implies disjoint(#[trigger] after[a], #[trigger] after[b]) by {
            assert(disjoint(rs[a], rs[b]));
        }
        assert forall|j: int| 0 <= j < after.len() implies disjoint(#[trigger] after[j], (r.0, need as usize)) by {
            if j != i {
                assert(disjoint(rs[j], rs[i]));
            }
        }
    } else {
        assert forall|a: int, b: int|
            0 <= a < after.len() && 0 <= b < after.len() && a != b implies disjoint(#[trigger] after[a], #[trigger] after[b]) by {
            let a0 = if a < i { a } else { a + 1 };
            let b0 = if b < i { b } else { b + 1 };
            assert(after[a] == rs[a0]);
            assert(after[b] == rs[b0]);
            assert(disjoint(rs[a0], rs[b0]));
        }
        assert forall|j: int| 0 <= j < after.len() implies disjoint(#[trigger] after[j], (r.0, need as usize)) by {
            let j0 = if j < i { j } else { j + 1 };
            assert(after[j] == rs[j0]);
            assert(disjoint(rs[j0], rs[i]));
        }
    }
}

/// Law: giving back a block that shares no byte with the free regions keeps
/// the free regions apart.
pub proof fn law_dealloc_keeps_disjoint(rs: Seq<Region>, block: Region)
    requires
        pairwise_disjoint(rs),
        forall|j: int| 0 <= j < rs.len() ==> disjoint(#[trigger] rs[j], block),
    ensures
        pairwise_disjoint(rs.insert(0, block)),
{
    let after = rs.insert(0, block);
    assert forall|a: int, b: int|
        0 <= a < after.len() && 0 <= b < after.len() && a != b implies disjoint(#[trigger] after[a], #[trigger] after[b]) by {
        if a == 0 {
            assert(after[b] == rs[b - 1]);
            assert(disjoint(rs[b - 1], block));
        } else if b == 0 {
            assert(after[a] == rs[a - 1]);
            assert(disjoint(rs[a - 1], block));
        } else {
            assert(after[a] == rs[a - 1]);
            assert(after[b] == rs[b - 1]);
            assert(disjoint(rs[a - 1], rs[b - 1]));
        }
    }
}

/// The free list after the block for a request of `size` bytes aligned to
/// `align` at `ptr` is given back.
pub open spec fn freed(rs: Seq<Region>, ptr: usize, size: usize, align: usize) -> Seq<Region> {
    rs.insert(0, (ptr, block_size(size, align) as usize))
}

/// Whether the byte at `a` lies in a free region.
pub open spec fn is_free(rs: Seq<Region>, a: int) -> bool {
    exists|j: int| 0 <= j < rs.len() && (#[trigger] rs[j]).0 <= a < rs[j].0 + rs[j].1
}

/// Law: an allocation of `need` bytes from the first region large enough
/// takes exactly one block off the free memory: the front of that region,
/// `need` bytes long, or the whole region when what would be left could not
/// hold a header. Every other free byte stays free, and no byte becomes free.
pub proof fn law_alloc_takes_exactly_the_block(rs: Seq<Region>, need: int, a: int)
    requires
        regions_wf(rs),
        pairwise_disjoint(rs),
        need >= NODE_SIZE,
        first_fit(rs, need, 0) is Some,
    ensures
        ({
            let i = first_fit(rs, need, 0)->0;
            let taken = if rs[i].1 >= need + NODE_SIZE {
                need
            } else {
                rs[i].1 as int
            };
            &&& rs[i].1 >= need
            &&& forall|j: int| 0 <= j < i ==> (#[trigger] rs[j]).1 < need
            &&& is_free(cut(rs, i, need), a) <==> (is_free(rs, a) && !(rs[i].0 <= a < rs[i].0 + taken))
        }),
{
    lemma_first_fit(rs, need, 0);
    let i = first_fit(rs, need, 0)->0;
    let after = cut(rs, i, need);
    let r = rs[i];
    let taken = if r.1 >= need + NODE_SIZE { need } else { r.1 as int };
    if is_free(after, a) {
        let j = choose|j: int| 0 <= j < after.len() && (#[trigger] after[j]).0 <= a < after[j].0 + after[j].1;
        if r.1 >= need + NODE_SIZE {
            if j == i {
                assert(rs[i].0 <= a < rs[i].0 + rs[i].1);
            } else {
                assert(after[j] == rs[j]);
                assert(disjoint(rs[j], rs[i]));
            }
        } else {
            let j0 = if j < i { j } else { j + 1 };
            assert(after[j] == rs[j0]);
            assert(disjoint(rs[j0], rs[i]));
            assert(rs[j0].0 <= a < rs[j0].0 + rs[j0].1);
        }
    }
    if is_free(rs, a) && !(r.0 <= a < r.0 + taken) {
        let j = choose|j: int| 0 <= j < rs.len() && (#[trigger] rs[j]).0 <= a < rs[j].0 + rs[j].1;
        if r.1 >= need + NODE_SIZE {
            if j == i {
                assert(after[i].0 <= a < after[i].0 + after[i].1);
            } else {
                assert(after[j] == rs[j]);
            }
        } else {
            assert(j != i);
            let ja = if j < i { j } else { j - 1 };
            assert(after[ja] == rs[j]);
        }
    }
}

/// Law: giving back the block for a request of `size` bytes aligned to
/// `align` at `ptr` makes exactly its bytes free again, besides the ones that
/// were free, and puts it at the head of the list.
pub proof fn law_dealloc_frees_exactly_the_block(rs: Seq<Region>, ptr: usize, size: usize, align: usize, a: int)
    ensures
        freed(rs, ptr, size, align).len() == rs.len() + 1,
        freed(rs, ptr, size, align)[0].0 == ptr,
        is_free(freed(rs, ptr, size, align), a) <==> (is_free(rs, a) || ptr <= a < ptr + block_size(
            size,
            align,
        )),
{
    let block = (ptr, block_size(size, align) as usize);
    let after = rs.insert(0, block);
    if is_free(after, a) {
        let j = choose|j: int| 0 <= j < after.len() && (#[trigger] after[j]).0 <= a < after[j].0 + after[j].1;
        if j > 0 {
            assert(after[j] == rs[j - 1]);
        }
    }
    if is_free(rs, a) {
        let j = choose|j: int| 0 <= j < rs.len() && (#[trigger] rs[j]).0 <= a < rs[j].0 + rs[j].1;
        assert(after[j + 1] == rs[j]);
    }
    if ptr <= a < ptr + block_size(size, align) {
        assert(after[0] == block);
    }
}

} // verus!
