use vstd::prelude::*;

verus! {

/// In-band record marking a free extent, stored at the extent's first
/// address.  `max` is the last address of the extent (inclusive); `next` is
/// the address of the next free node, or the allocator's sentinel when the
/// extent is the last one.
#[derive(Clone, Copy, Debug, PartialEq, Eq, Structural)]
pub struct Node {
    pub max: usize,
    pub next: usize,
}

/// In-band record written just past a live allocation's user data, so that
/// the exact footprint can be recovered on release.  `start` and `end` are
/// the first and last address (inclusive) of the allocation's footprint.
#[derive(Clone, Copy, Debug, PartialEq, Eq, Structural)]
pub struct Block {
    pub start: usize,
    pub end: usize,
}

/// Typed access to a contiguous address space `[0, len)`.
///
/// A backend keeps, independently for every address, the free-list node, the
/// block trailer and the data word last written there; a read returns the
/// record last written at exactly that address.  No atomicity or ordering is
/// promised, and the backend does no bounds checking beyond its own length:
/// an allocator is responsible for staying inside the region it manages.
pub trait Memory: Sized {
    /// The free-list node stored at each address.
    spec fn nodes(&self) -> Seq<Node>;

    /// The block trailer stored at each address.
    spec fn blocks(&self) -> Seq<Block>;

    /// The data word stored at each address.
    spec fn words(&self) -> Seq<usize>;

    fn read_node(&self, a: usize) -> (r: Node)
        requires
            a < self.nodes().len(),
        ensures
            r == self.nodes()[a as int],
    ;

    fn write_node(&mut self, a: usize, value: Node)
        requires
            a < old(self).nodes().len(),
        ensures
            final(self).nodes() == old(self).nodes().update(a as int, value),
            final(self).blocks() == old(self).blocks(),
            final(self).words() == old(self).words(),
    ;

    fn read_block(&self, a: usize) -> (r: Block)
        requires
            a < self.blocks().len(),
        ensures
            r == self.blocks()[a as int],
    ;

    fn write_block(&mut self, a: usize, value: Block)
        requires
            a < old(self).blocks().len(),
        ensures
            final(self).blocks() == old(self).blocks().update(a as int, value),
            final(self).nodes() == old(self).nodes(),
            final(self).words() == old(self).words(),
    ;

    fn read_word(&self, a: usize) -> (r: usize)
        requires
            a < self.words().len(),
        ensures
            r == self.words()[a as int],
    ;

    fn write_word(&mut self, a: usize, value: usize)
        requires
            a < old(self).words().len(),
        ensures
            final(self).words() == old(self).words().update(a as int, value),
            final(self).nodes() == old(self).nodes(),
            final(self).blocks() == old(self).blocks(),
    ;
}

} // verus!
