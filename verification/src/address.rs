//! Physical and virtual addresses, page frames, and the linear map between
//! physical memory and the kernel's view of it.

use vstd::prelude::*;

verus! {

/// A physical address.
#[derive(Clone, Copy, Debug, PartialEq, Eq, Structural)]
pub struct PA(pub usize);

/// A kernel virtual address.
#[derive(Clone, Copy, Debug, PartialEq, Eq, Structural)]
pub struct VA(pub usize);

/// The number of a physical page.
#[derive(Clone, Copy, Debug, PartialEq, Eq, Structural)]
pub struct PageFrame(pub usize);

/// A run of physical memory: its first byte and its length.
#[derive(Clone, Copy, Debug, PartialEq, Eq, Structural)]
pub struct PhysMemoryRegion {
    pub start: PA,
    pub size: usize,
}

impl PA {
    pub fn from_value(value: usize) -> (r: PA)
        ensures
            r.0 == value,
    {
        PA(value)
    }

    pub fn value(&self) -> (r: usize)
        ensures
            r == self.0,
    {
        self.0
    }

    /// The page that holds this address.
    pub fn to_pfn(&self, page_size: usize) -> (r: PageFrame)
        requires
            page_size > 0,
        ensures
            r.0 == self.0 / page_size,
    {
        PageFrame(self.0 / page_size)
    }
}

impl VA {
    pub fn from_value(value: usize) -> (r: VA)
        ensures
            r.0 == value,
    {
        VA(value)
    }

    pub fn value(&self) -> (r: usize)
        ensures
            r == self.0,
    {
        self.0
    }
}

impl PageFrame {
    pub fn from_pfn(pfn: usize) -> (r: PageFrame)
        ensures
            r.0 == pfn,
    {
        PageFrame(pfn)
    }

    pub fn value(&self) -> (r: usize)
        ensures
            r == self.0,
    {
        self.0
    }

    /// The first byte of the page.
    pub fn pa(&self, page_size: usize) -> (r: PA)
        requires
            self.0 * page_size <= usize::MAX,
        ensures
            r.0 == self.0 * page_size,
    {
        PA(self.0 * page_size)
    }
}

impl PhysMemoryRegion {
    pub fn new(start: PA, size: usize) -> (r: PhysMemoryRegion)
        ensures
            r.start == start,
            r.size == size,
    {
        PhysMemoryRegion { start, size }
    }

    pub fn start_address(&self) -> (r: PA)
        ensures
            r == self.start,
    {
        self.start
    }

    pub fn size(&self) -> (r: usize)
        ensures
            r == self.size,
    {
        self.size
    }

    /// Whether a byte lies in the region.
    pub open spec fn contains(self, a: int) -> bool {
        self.start.0 <= a < self.start.0 + self.size
    }

    /// Whether two regions share no byte.
    pub open spec fn disjoint(self, other: PhysMemoryRegion) -> bool {
        self.start.0 + self.size <= other.start.0 || other.start.0 + other.size <= self.start.0
    }
}

/// The kernel's linear map of physical memory: a virtual address is the
/// physical one plus a fixed offset.
#[derive(Clone, Copy, Debug, PartialEq, Eq, Structural)]
pub struct PageOffsetTranslator {
    pub offset: usize,
}

impl PageOffsetTranslator {
    pub fn new(offset: usize) -> (r: PageOffsetTranslator)
        ensures
            r.offset == offset,
    {
        PageOffsetTranslator { offset }
    }

    /// The virtual address at which a physical address is mapped.
    pub open spec fn spec_to_va(self, pa: int) -> int {
        pa + self.offset
    }

    /// The physical address mapped at a virtual address.
    pub open spec fn spec_to_pa(self, va: int) -> int {
        va - self.offset
    }

    /// Maps a physical address into the kernel's address space.
    pub fn pa_to_va(&self, pa: PA) -> (r: VA)
        requires
            pa.0 + self.offset <= usize::MAX,
        ensures
            r.0 == self.spec_to_va(pa.0 as int),
    {
        VA(pa.0 + self.offset)
    }

    /// Maps a kernel virtual address back to the physical address behind it.
    pub fn va_to_pa(&self, va: VA) -> (r: PA)
        requires
            va.0 >= self.offset,
        ensures
            r.0 == self.spec_to_pa(va.0 as int),
    {
        PA(va.0 - self.offset)
    }
}

} // verus!
