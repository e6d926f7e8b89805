//! Where the kernel image lies in physical memory, and the translation of
//! addresses inside the image.

use crate::address::{PA, VA};
use vstd::prelude::*;

verus! {

/// The kernel image: the virtual address it is linked at and, once known,
/// the physical address it was loaded at.
#[derive(Clone, Copy, Debug)]
pub struct KernelImage {
    image_base: VA,
    start: Option<PA>,
}

impl KernelImage {
    /// The virtual address the image is linked at.
    pub closed spec fn spec_image_base(self) -> VA {
        self.image_base
    }

    /// The physical address the image was loaded at, once it is set.
    pub closed spec fn spec_start(self) -> Option<PA> {
        self.start
    }

    /// An image linked at `image_base` whose load address is not yet known.
    pub fn new(image_base: VA) -> (r: KernelImage)
        ensures
            r.spec_image_base() == image_base,
            r.spec_start().is_none(),
    {
        KernelImage { image_base, start: None }
    }

    /// Whether the load address is known.
    pub fn is_set(&self) -> (r: bool)
        ensures
            r == self.spec_start().is_some(),
    {
        self.start.is_some()
    }

    /// The virtual address the image is linked at.
    pub fn image_base(&self) -> (r: VA)
        ensures
            r == self.spec_image_base(),
    {
        self.image_base
    }

    /// Whether an address can be translated: the load address is known, the
    /// address lies at or above the link address, and the result fits.
    pub open spec fn translatable(self, addr: VA) -> bool {
        &&& self.spec_start().is_some()
        &&& addr.0 >= self.spec_image_base().0
        &&& addr.0 - self.spec_image_base().0 + self.spec_start().unwrap().0 <= usize::MAX
    }

    /// Decides whether an address can be translated.
    pub fn can_translate(&self, addr: VA) -> (r: bool)
        ensures
            r == self.translatable(addr),
    {
        match self.start {
            None => false,
            Some(start) => addr.0 >= self.image_base.0 && addr.0 - self.image_base.0
                <= usize::MAX - start.0,
        }
    }
}

/// Records where the kernel image was loaded. The load address is set once.
pub fn set_kimage_start(image: &mut KernelImage, pa: PA)
    requires
        old(image).spec_start().is_none(),
    ensures
        final(image).spec_start() == Some(pa),
        final(image).spec_image_base() == old(image).spec_image_base(),
{
    image.start = Some(pa);
}

/// Where the kernel image was loaded.
pub fn get_kimage_start(image: &KernelImage) -> (r: PA)
    requires
        image.spec_start().is_some(),
    ensures
        Some(r) == image.spec_start(),
{
    match image.start {
        Some(pa) => pa,
        None => PA(0),
    }
}

/// Translates a virtual address inside the kernel image to the physical
/// address behind it: as far above the load address as the virtual address
/// is above the link address.
pub fn translate_kernel_va(image: &KernelImage, addr: VA) -> (r: PA)
    requires
        image.translatable(addr),
    ensures
        r.0 == addr.0 - image.spec_image_base().0 + image.spec_start().unwrap().0,
{
    let mut v = addr.value();
    v = v - image.image_base().value();
    PA::from_value(v + get_kimage_start(image).value())
}

} // verus!
