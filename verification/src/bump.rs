use crate::allocator::Alloc;
use crate::allocator::AllocErr;
use crate::layout::Layout;
use vstd::prelude::*;

verus! {

/// The minimal allocator: hands out monotonically increasing addresses from
/// `[current, max]` (inclusive upper bound) and never takes one back.
#[derive(Clone, Copy, Debug)]
pub struct BumpAllocator {
    pub current: usize,
    pub max: usize,
}

impl BumpAllocator {
    pub fn new(beginning: usize, max: usize) -> (r: Self)
        ensures
            r.current == beginning,
            r.max == max,
    {
        BumpAllocator { current: beginning, max }
    }

    /// Returns `current` and advances it by `layout.size`; rejects exactly
    /// the requests that would move past `max`.
    pub fn allocate(&mut self, layout: Layout) -> (r: Result<usize, AllocErr>)
        ensures
            r is Ok <==> old(self).current + layout.size <= old(self).max,
            r matches Ok(a) ==> a == old(self).current && final(self).current == old(
                self,
            ).current + layout.size && final(self).max == old(self).max,
            r is Err ==> *final(self) == *old(self),
    {
        if self.current > self.max || layout.size() > self.max - self.current {
            Err(AllocErr)
        } else {
            let result = self.current;
            self.current = self.current + layout.size();
            Ok(result)
        }
    }
}

impl Alloc for BumpAllocator {
    open spec fn allocate_pre(&self, layout: Layout) -> bool {
        true
    }

    /// A bump allocator cannot release: no `dealloc` call is admissible.
    open spec fn deallocate_pre(&self, ptr: usize, layout: Layout) -> bool {
        false
    }

    fn allocate(&mut self, layout: Layout) -> Result<usize, AllocErr> {
        self.allocate(layout)
    }

    fn deallocate(&mut self, ptr: usize, layout: Layout) {
    }
}

} // verus!
