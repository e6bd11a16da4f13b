//! The regions of the firmware's memory map, and the choice of the one that
//! the heap is put in.

use vstd::prelude::*;

verus! {

/// The size of a page of memory, in bytes.
pub const PAGE_SIZE: usize = 4096;

/// The type of memory that the boot services' code lies in.
pub const BOOT_SERVICES_CODE: u32 = 3;

/// The type of memory that the boot services' data lies in.
pub const BOOT_SERVICES_DATA: u32 = 4;

/// The type of memory that is free.
pub const CONVENTIONAL: u32 = 7;

/// The type of memory in which errors were found.
pub const UNUSABLE: u32 = 8;

/// A stretch of memory of one type.
#[derive(Debug, Clone, Copy, PartialEq, Eq, Structural)]
pub struct MemoryRegion {
    /// The address of its first byte.
    pub start: usize,
    /// Its size in bytes.
    pub size: usize,
    /// Its type, as the firmware numbers the types.
    pub memory_type: u32,
}

impl MemoryRegion {
    /// The number of whole pages in the region.
    pub open spec fn pages(self) -> int {
        self.size as int / 4096
    }

    /// Whether the heap may be put in the region: it is free, or it was the
    /// boot services' and is free once they are left.
    pub open spec fn usable(self) -> bool {
        self.memory_type == CONVENTIONAL || self.memory_type == BOOT_SERVICES_DATA
            || self.memory_type == BOOT_SERVICES_CODE
    }

    /// The region that a descriptor of the memory map describes: `page_count`
    /// pages from `phys_start` on. A size or an address beyond the range of
    /// addresses is held to it.
    pub fn from_descriptor(phys_start: u64, page_count: u64, memory_type: u32) -> (r: Self)
        ensures
            r.memory_type == memory_type,
            r.start == if phys_start <= usize::MAX {
                phys_start as int
            } else {
                usize::MAX as int
            },
            r.size == if page_count * 4096 <= usize::MAX {
                page_count * 4096
            } else {
                usize::MAX as int
            },
    {
        let start = if phys_start > usize::MAX as u64 {
            usize::MAX
        } else {
            phys_start as usize
        };
        let bytes: u128 = page_count as u128 * 4096;
        let size = if bytes > usize::MAX as u128 {
            usize::MAX
        } else {
            bytes as usize
        };
        MemoryRegion { start, size, memory_type }
    }

    /// The address behind the last byte of the region; `None` where it is
    /// beyond the range of addresses.
    pub fn end(&self) -> (r: Option<usize>)
        ensures
            match r {
                Some(end) => end == self.start + self.size,
                None => self.start + self.size > usize::MAX,
            },
    {
        self.start.checked_add(self.size)
    }

    /// The number of whole pages in the region.
    pub fn page_count(&self) -> (n: usize)
        ensures
            n == self.pages(),
    {
        self.size / PAGE_SIZE
    }

    /// Whether the heap may be put in the region.
    pub fn is_usable(&self) -> (b: bool)
        ensures
            b == self.usable(),
    {
        self.memory_type == CONVENTIONAL || self.memory_type == BOOT_SERVICES_DATA
            || self.memory_type == BOOT_SERVICES_CODE
    }
}

impl Default for MemoryRegion {
    fn default() -> (r: Self)
        ensures
            r == (MemoryRegion { start: 0, size: 0, memory_type: UNUSABLE }),
    {
        MemoryRegion { start: 0, size: 0, memory_type: UNUSABLE }
    }
}

/// The choice of the heap's memory.
#[derive(Debug, Clone, Copy)]
pub struct UefiAllocatorManager;

impl UefiAllocatorManager {
    /// The better of the best region so far and the next region of the map:
    /// the next one where it is usable and has more pages, the best so far
    /// otherwise.
    pub fn consider(best: MemoryRegion, region: MemoryRegion) -> (r: MemoryRegion)
        ensures
            r == if region.usable() && region.pages() > best.pages() {
                region
            } else {
                best
            },
    {
        if region.is_usable() && region.page_count() > best.page_count() {
            region
        } else {
            best
        }
    }

    /// The region to put the heap in: of the usable regions the one with the
    /// most pages, and of several that large the first. `None` where no
    /// usable region has a whole page.
    pub fn find_memory_region(regions: &[MemoryRegion]) -> (r: Option<MemoryRegion>)
        ensures
            r is None <==> (forall|j: int|
                0 <= j < regions@.len() ==> !(#[trigger] regions@[j]).usable() || regions@[j].pages()
                    == 0),
            r matches Some(best) ==> exists|i: int|
                {
                    &&& 0 <= i < regions@.len()
                    &&& #[trigger] regions@[i] == best
                    &&& best.usable()
                    &&& best.pages() > 0
                    &&& forall|j: int|
                        0 <= j < regions@.len() && (#[trigger] regions@[j]).usable()
                            ==> regions@[j].pages() <= best.pages()
                    &&& forall|j: int|
                        0 <= j < i && (#[trigger] regions@[j]).usable() ==> regions@[j].pages()
                            < best.pages()
                },
    {
        let mut best = MemoryRegion::default();
        let ghost mut at: int = -1;
        let mut i: usize = 0;
        while i < regions.len()
            invariant
                i <= regions@.len(),
                -1 <= at < i,
                at == -1 ==> best == (MemoryRegion { start: 0, size: 0, memory_type: UNUSABLE })
                    && forall|j: int|
                    0 <= j < i ==> !(#[trigger] regions@[j]).usable() || regions@[j].pages() == 0,
                at >= 0 ==> regions@[at] == best && best.usable() && best.pages() > 0,
                forall|j: int|
                    0 <= j < i && (#[trigger] regions@[j]).usable() ==> regions@[j].pages()
                        <= best.pages(),
                forall|j: int|
                    0 <= j < at && (#[trigger] regions@[j]).usable() ==> regions@[j].pages()
                        < best.pages(),
            decreases regions@.len() - i,
        {
            let ghost before = best;
            best = Self::consider(best, regions[i]);
            proof {
                if best != before {
                    at = i as int;
                }
            }
            i = i + 1;
        }
        if !best.is_usable() {
            None
        } else {
            assert(regions@[at] == best);
            Some(best)
        }
    }
}

} // verus!
