use crate::memory::Block;
use crate::memory::Memory;
use crate::memory::Node;
use vstd::pervasive::VecAdditionalExecFns;
use vstd::prelude::*;

verus! {

/// An owned, zero-initialised address space `[0, max)` offering the
/// [`Memory`] interface; the backend used for testing allocators.
pub struct MemoryRegion {
    node_slots: Vec<Node>,
    block_slots: Vec<Block>,
    word_slots: Vec<usize>,
}

impl MemoryRegion {
    /// A fresh region of `max` addresses, all records zeroed.
    pub fn new(max: usize) -> (r: Self)
        ensures
            r.nodes().len() == max,
            r.blocks().len() == max,
            r.words().len() == max,
            forall|i: int| 0 <= i < max ==> r.nodes()[i] == (Node { max: 0, next: 0 }),
            forall|i: int| 0 <= i < max ==> r.blocks()[i] == (Block { start: 0, end: 0 }),
            forall|i: int| 0 <= i < max ==> r.words()[i] == 0,
    {
        let mut node_slots: Vec<Node> = Vec::new();
        let mut block_slots: Vec<Block> = Vec::new();
        let mut word_slots: Vec<usize> = Vec::new();
        let mut i: usize = 0;
        while i < max
            invariant
                i <= max,
                node_slots@.len() == i,
                block_slots@.len() == i,
                word_slots@.len() == i,
                forall|j: int| 0 <= j < i ==> node_slots@[j] == (Node { max: 0, next: 0 }),
                forall|j: int| 0 <= j < i ==> block_slots@[j] == (Block { start: 0, end: 0 }),
                forall|j: int| 0 <= j < i ==> word_slots@[j] == 0,
            decreases max - i,
        {
            node_slots.push(Node { max: 0, next: 0 });
            block_slots.push(Block { start: 0, end: 0 });
            word_slots.push(0);
            i = i + 1;
        }
        MemoryRegion { node_slots, block_slots, word_slots }
    }
}

impl Memory for MemoryRegion {
    closed spec fn nodes(&self) -> Seq<Node> {
        self.node_slots@
    }

    closed spec fn blocks(&self) -> Seq<Block> {
        self.block_slots@
    }

    closed spec fn words(&self) -> Seq<usize> {
        self.word_slots@
    }

    fn read_node(&self, a: usize) -> (r: Node) {
        self.node_slots[a]
    }

    fn write_node(&mut self, a: usize, value: Node) {
        self.node_slots.set(a, value);
    }

    fn read_block(&self, a: usize) -> (r: Block) {
        self.block_slots[a]
    }

    fn write_block(&mut self, a: usize, value: Block) {
        self.block_slots.set(a, value);
    }

    fn read_word(&self, a: usize) -> (r: usize) {
        self.word_slots[a]
    }

    fn write_word(&mut self, a: usize, value: usize) {
        self.word_slots.set(a, value);
    }
}

} // verus!
