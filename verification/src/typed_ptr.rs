use crate::memory::Block;
use crate::memory::Memory;
use crate::memory::Node;
use core::marker::PhantomData;
use vstd::prelude::*;

verus! {

/// An address paired with the record type stored there: a typing
/// convenience that carries no extra runtime state.
pub struct TypedPtr<T> {
    pub ptr: usize,
    pub phantom: PhantomData<T>,
}

impl<T> TypedPtr<T> {
    pub fn new(address: usize) -> (r: Self)
        ensures
            r.ptr == address,
    {
        TypedPtr { ptr: address, phantom: PhantomData }
    }

    pub fn address(&self) -> (r: usize)
        ensures
            r == self.ptr,
    {
        self.ptr
    }
}

impl TypedPtr<Node> {
    pub fn read<M: Memory>(&self, memory: &M) -> (r: Node)
        requires
            self.ptr < memory.nodes().len(),
        ensures
            r == memory.nodes()[self.ptr as int],
    {
        memory.read_node(self.ptr)
    }

    pub fn write<M: Memory>(&self, memory: &mut M, value: Node)
        requires
            self.ptr < old(memory).nodes().len(),
        ensures
            final(memory).nodes() == old(memory).nodes().update(self.ptr as int, value),
            final(memory).blocks() == old(memory).blocks(),
            final(memory).words() == old(memory).words(),
    {
        memory.write_node(self.ptr, value)
    }

    /// Length of the free extent whose node sits at this address.
    pub fn size<M: Memory>(&self, memory: &M) -> (r: usize)
        requires
            self.ptr < memory.nodes().len(),
            self.ptr <= memory.nodes()[self.ptr as int].max,
            memory.nodes()[self.ptr as int].max < usize::MAX,
        ensures
            r == memory.nodes()[self.ptr as int].max - self.ptr + 1,
    {
        let max = self.read(memory).max;
        max - self.address() + 1
    }
}

impl TypedPtr<Block> {
    pub fn read<M: Memory>(&self, memory: &M) -> (r: Block)
        requires
            self.ptr < memory.blocks().len(),
        ensures
            r == memory.blocks()[self.ptr as int],
    {
        memory.read_block(self.ptr)
    }

    pub fn write<M: Memory>(&self, memory: &mut M, value: Block)
        requires
            self.ptr < old(memory).blocks().len(),
        ensures
            final(memory).blocks() == old(memory).blocks().update(self.ptr as int, value),
            final(memory).nodes() == old(memory).nodes(),
            final(memory).words() == old(memory).words(),
    {
        memory.write_block(self.ptr, value)
    }
}

} // verus!
