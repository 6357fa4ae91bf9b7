use crate::layout::Layout;
use vstd::prelude::*;

verus! {

/// Failure of an allocation request: no free extent can satisfy it.
#[derive(Clone, Copy, Debug, PartialEq, Eq, Structural)]
pub struct AllocErr;

/// The common surface of the allocators: hand out an address for a layout,
/// or take one back.  Each implementation states through [`Alloc::allocate_pre`]
/// and [`Alloc::deallocate_pre`] which calls it accepts; a call outside of them
/// is a contract violation, and unverified callers must test the condition
/// first.
pub trait Alloc: Sized {
    /// When an allocation request is admissible.
    spec fn allocate_pre(&self, layout: Layout) -> bool;

    /// When a release request is admissible.
    spec fn deallocate_pre(&self, ptr: usize, layout: Layout) -> bool;

    /// Reserves an extent for `layout` and returns its user address, or
    /// reports exhaustion and leaves the allocator unchanged.
    fn allocate(&mut self, layout: Layout) -> Result<usize, AllocErr>
        requires
            old(self).allocate_pre(layout),
    ;

    /// Releases the extent previously handed out as `ptr` for `layout`.
    fn deallocate(&mut self, ptr: usize, layout: Layout)
        requires
            old(self).deallocate_pre(ptr, layout),
    ;
}

} // verus!
