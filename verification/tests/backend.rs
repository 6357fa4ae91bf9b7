//! The region backend and the typed addresses, exercised directly.

use vmem_alloc::Block;
use vmem_alloc::Memory;
use vmem_alloc::MemoryRegion;
use vmem_alloc::Node;
use vmem_alloc::TypedPtr;

#[test]
fn it_works() {
    let mut region = MemoryRegion::new(1024);
    let ptr: usize = 32;
    region.write_word(ptr, 42);
    let roundtrip_value = region.read_word(ptr);
    assert_eq!(roundtrip_value, 42);
}

#[test]
fn typed_ptr_node_round_trip() {
    let mut region = MemoryRegion::new(64);
    let node_ptr: TypedPtr<Node> = TypedPtr::new(5);
    assert_eq!(node_ptr.address(), 5);
    node_ptr.write(&mut region, Node { max: 9, next: 64 });
    let read_back = node_ptr.read(&region);
    assert_eq!(read_back, Node { max: 9, next: 64 });
    // the extent of a node at 5 whose last address is 9 spans 5 addresses
    assert_eq!(node_ptr.size(&region), 5);
}

#[test]
fn typed_ptr_block_round_trip() {
    let mut region = MemoryRegion::new(64);
    let block_ptr: TypedPtr<Block> = TypedPtr::new(12);
    block_ptr.write(&mut region, Block { start: 8, end: 15 });
    assert_eq!(block_ptr.read(&region), Block { start: 8, end: 15 });
}

#[test]
fn fresh_region_is_zeroed() {
    let region = MemoryRegion::new(8);
    assert_eq!(region.read_word(0), 0);
    assert_eq!(region.read_word(7), 0);
    assert_eq!(region.read_node(3), Node { max: 0, next: 0 });
    assert_eq!(region.read_block(3), Block { start: 0, end: 0 });
}

#[test]
fn align_offset_rounds_up() {
    let two = vmem_alloc::Layout::from_size_align_unchecked(4, 2);
    assert_eq!(two.align_offset(0), 0);
    assert_eq!(two.align_offset(1), 2);
    assert_eq!(two.align_offset(2), 2);
    let eight = vmem_alloc::Layout::from_size_align_unchecked(1, 8);
    assert_eq!(eight.align_offset(3), 8);
    assert_eq!(eight.align_offset(8), 8);
    assert_eq!(eight.align_offset(9), 16);
    let one = vmem_alloc::Layout::from_size_align_unchecked(5, 1);
    assert_eq!(one.align_offset(7), 7);
    assert_eq!(one.size(), 5);
    assert_eq!(one.align(), 1);
}
