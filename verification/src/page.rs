//! A single claimed page of physical memory.

use crate::address::{PageFrame, PageOffsetTranslator, PhysMemoryRegion, PA, VA};
use crate::error::KernelError;
use crate::frames::FrameAllocator;
use vstd::prelude::*;

verus! {

/// One page taken from the frame allocator, with what it holds.
#[derive(Debug)]
pub struct ClaimedPage {
    region: PhysMemoryRegion,
    va: VA,
    data: Vec<u8>,
}

impl ClaimedPage {
    /// Physical address of the page.
    pub closed spec fn spec_pa(self) -> PA {
        self.region.start
    }

    /// Address at which the kernel sees the page.
    pub closed spec fn spec_va(self) -> VA {
        self.va
    }

    /// Bytes in the page.
    pub closed spec fn spec_size(self) -> nat {
        self.region.size as nat
    }

    /// What the page holds.
    pub closed spec fn bytes(self) -> Seq<u8> {
        self.data@
    }

    /// The invariant of a claimed page: it holds as many bytes as a page
    /// has.
    pub open spec fn wf(self) -> bool {
        &&& self.spec_size() > 0
        &&& self.bytes().len() == self.spec_size()
    }

    /// Claims one page; what it holds is not specified.
    pub fn allocate(frames: &mut FrameAllocator, translator: &PageOffsetTranslator) -> (r: Result<
        ClaimedPage,
        KernelError,
    >)
        requires
            old(frames).wf(),
            old(frames).spec_end() + translator.offset <= usize::MAX,
        ensures
            final(frames).wf(),
            final(frames).spec_page_size() == old(frames).spec_page_size(),
            final(frames).spec_base() == old(frames).spec_base(),
            final(frames).spec_end() == old(frames).spec_end(),
            r.is_ok() <==> old(frames).can_alloc(0),
            r matches Err(e) ==> e == KernelError::NoMemory && *final(frames) == *old(frames),
            r matches Ok(page) ==> {
                let pa = old(frames).spec_pick(0);
                &&& old(frames).served(0, *final(frames))
                &&& page.wf()
                &&& page.spec_pa().0 == pa
                &&& page.spec_va().0 == translator.spec_to_va(pa)
                &&& page.spec_size() == old(frames).spec_page_size()
                &&& forall|a: int|
                    pa <= a < pa + page.spec_size() ==> !old(frames).is_allocated(a)
                &&& forall|a: int|
                    final(frames).is_allocated(a) <==> old(frames).is_allocated(a) || (pa <= a < pa
                        + page.spec_size())
            },
    {
        let region = match frames.alloc_frames(0) {
            Some(p) => p.leak(),
            None => {
                return Err(KernelError::NoMemory);
            },
        };
        let va = translator.pa_to_va(region.start_address());
        let mut data: Vec<u8> = Vec::new();
        let mut i: usize = 0;
        while i < region.size
            invariant
                i <= region.size,
                data@.len() == i,
            decreases region.size - i,
        {
            data.push(0xa5);
            i = i + 1;
        }
        proof {
            vstd::arithmetic::power2::lemma2_to64();
            let ps = frames.spec_page_size() as int;
            assert(ps * 1 == ps) by (nonlinear_arith);
            let pa = old(frames).spec_pick(0);
            assert forall|a: int| pa <= a < pa + ps implies !old(frames).is_allocated(a) by {
                assert(region.contains(a));
            }
            assert forall|a: int|
                frames.is_allocated(a) <==> old(frames).is_allocated(a) || (pa <= a < pa + ps) by {
                assert(region.contains(a) == (pa <= a < pa + ps));
            }
        }
        Ok(ClaimedPage { region, va, data })
    }

    /// Claims one page and fills it with zeros.
    pub fn alloc_zeroed(frames: &mut FrameAllocator, translator: &PageOffsetTranslator) -> (r:
        Result<ClaimedPage, KernelError>)
        requires
            old(frames).wf(),
            old(frames).spec_end() + translator.offset <= usize::MAX,
        ensures
            final(frames).wf(),
            final(frames).spec_page_size() == old(frames).spec_page_size(),
            final(frames).spec_base() == old(frames).spec_base(),
            final(frames).spec_end() == old(frames).spec_end(),
            r.is_ok() <==> old(frames).can_alloc(0),
            r matches Err(e) ==> e == KernelError::NoMemory && *final(frames) == *old(frames),
            r matches Ok(page) ==> {
                let pa = old(frames).spec_pick(0);
                &&& old(frames).served(0, *final(frames))
                &&& page.wf()
                &&& page.spec_pa().0 == pa
                &&& page.spec_va().0 == translator.spec_to_va(pa)
                &&& page.spec_size() == old(frames).spec_page_size()
                &&& forall|i: int| 0 <= i < page.bytes().len() ==> page.bytes()[i] == 0
                &&& forall|a: int|
                    pa <= a < pa + page.spec_size() ==> !old(frames).is_allocated(a)
                &&& forall|a: int|
                    final(frames).is_allocated(a) <==> old(frames).is_allocated(a) || (pa <= a < pa
                        + page.spec_size())
            },
    {
        let mut page = match Self::allocate(frames, translator) {
            Ok(p) => p,
            Err(e) => {
                return Err(e);
            },
        };
        let n = page.data.len();
        let ghost claimed = page;
        let mut i: usize = 0;
        while i < n
            invariant
                i <= n,
                n == page.data@.len(),
                page.region == claimed.region,
                page.va == claimed.va,
                forall|j: int| 0 <= j < i ==> page.data@[j] == 0,
            decreases n - i,
        {
            page.data[i] = 0;
            i = i + 1;
        }
        Ok(page)
    }

    /// Physical address of the page.
    pub fn pa(&self) -> (r: PA)
        ensures
            r == self.spec_pa(),
    {
        self.region.start
    }

    /// Address at which the kernel sees the page.
    pub fn va(&self) -> (r: VA)
        ensures
            r == self.spec_va(),
    {
        self.va
    }

    /// Address of the page's first byte, for reading.
    pub fn as_ptr(&self) -> (r: usize)
        ensures
            r == self.spec_va().0,
    {
        self.va.0
    }

    /// Address of the page's first byte, for writing.
    pub fn as_ptr_mut(&self) -> (r: usize)
        ensures
            r == self.spec_va().0,
    {
        self.va.0
    }

    /// What the page holds.
    pub fn as_slice(&self) -> (r: &[u8])
        ensures
            r@ == self.bytes(),
    {
        self.data.as_slice()
    }

    /// Gives up the claim and keeps the page allocated: the number of the
    /// page.
    pub fn leak(self) -> (r: PageFrame)
        requires
            self.wf(),
        ensures
            r.0 == self.spec_pa().0 / (self.spec_size() as usize),
    {
        self.region.start.to_pfn(self.region.size)
    }
}

} // verus!
