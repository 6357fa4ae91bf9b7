//! End-to-end runs of the allocators over the region backend.
//!
//! The record used throughout is the `{u8, u16}` pair of the managed
//! format: size 4, alignment 2.

use vmem_alloc::Alloc;
use vmem_alloc::AllocErr;
use vmem_alloc::BumpAllocator;
use vmem_alloc::FreeList;
use vmem_alloc::Layout;
use vmem_alloc::MemoryRegion;

fn uneven_object_layout() -> Layout {
    Layout::from_size_align_unchecked(4, 2)
}

fn ensure_can_alloc<A: Alloc>(allocator: &mut A, layout: Layout) {
    let ptr = allocator.allocate(layout.clone()).unwrap();
    allocator.deallocate(ptr, layout);
}

fn fill<A: Alloc>(allocator: &mut A, allocated: &mut Vec<usize>, layout: Layout) {
    loop {
        match allocator.allocate(layout.clone()) {
            Result::Ok(ptr) => allocated.push(ptr),
            Result::Err(_) => break,
        }
        assert!((allocated.len() < 70000) & (allocated.len() > 0));
    }

    assert_ne!(0, allocated.len());
    println!("allocated: {}", allocated.len());
}

fn allocator_sanity_test<A: Alloc>(allocator: &mut A) {
    let layout = uneven_object_layout();
    let mut allocated: Vec<usize> = Vec::new();

    fill(allocator, &mut allocated, layout);

    for i in 0..allocated.len() - 1 {
        if i & 1 == 0 {
            allocator.deallocate(allocated[i], layout.clone());
        }
    }

    ensure_can_alloc(allocator, layout.clone());

    for i in 0..allocated.len() - 1 {
        if i & 1 != 0 {
            allocator.deallocate(allocated[i], layout.clone());
        }
    }

    allocated.clear();

    ensure_can_alloc(allocator, layout.clone());

    fill(allocator, &mut allocated, layout.clone());

    for p in allocated.iter() {
        allocator.deallocate(*p, layout.clone());
    }

    allocated.clear();

    ensure_can_alloc(allocator, layout.clone());

    fill(allocator, &mut allocated, layout.clone());

    for p in allocated.iter().rev() {
        allocator.deallocate(*p, layout.clone());
    }

    allocated.clear();

    ensure_can_alloc(allocator, layout.clone());
}

#[test]
fn freelist_is_sane() {
    let backend = MemoryRegion::new(36);
    let mut allocator = FreeList::new(backend, 0, 35);
    allocator_sanity_test(&mut allocator);
}

#[test]
fn gives_two_different_pointers() {
    let mut allocator = BumpAllocator::new(0, 4);
    let u16_layout = Layout::from_size_align_unchecked(2, 2);
    let ptr1 = allocator.allocate(u16_layout.clone());
    let ptr2 = allocator.allocate(u16_layout.clone());
    assert_ne!(ptr1, ptr2);
}

#[test]
fn panics_on_exhaustion() {
    let mut allocator = BumpAllocator::new(0, 4);
    let u16_layout = Layout::from_size_align_unchecked(2, 2);
    let _ptr1 = allocator.allocate(u16_layout.clone());
    let _ptr2 = allocator.allocate(u16_layout.clone());
    let ptr3 = allocator.allocate(u16_layout.clone());
    assert!(ptr3.is_err());
}

#[test]
fn bump_exhaustion() {
    let mut allocator = BumpAllocator::new(0, 4);
    let u16_layout = Layout::from_size_align_unchecked(2, 2);
    assert_eq!(allocator.allocate(u16_layout.clone()), Ok(0));
    assert_eq!(allocator.allocate(u16_layout.clone()), Ok(2));
    assert_eq!(allocator.allocate(u16_layout.clone()), Err(AllocErr));
}

#[test]
fn fresh_region() {
    let backend = MemoryRegion::new(36);
    let allocator = FreeList::new(backend, 0, 35);
    assert_eq!(allocator.free_extents(), vec![(0, 35)]);
}

#[test]
fn fill_until_exhausted() {
    let backend = MemoryRegion::new(36);
    let mut allocator = FreeList::new(backend, 0, 35);
    let layout = uneven_object_layout();
    let mut allocated: Vec<usize> = Vec::new();
    while let Ok(ptr) = allocator.allocate(layout.clone()) {
        allocated.push(ptr);
    }
    // each allocation takes data (4), trailer (4) and padding, so at most
    // 36 / 8 fit; with this geometry exactly four do, 8 addresses apart
    assert_eq!(allocated, vec![0, 8, 16, 24]);
    assert!(allocated.len() >= 1 && allocated.len() <= 36 / 8);
    for a in allocated.iter() {
        assert_eq!(a % 2, 0);
    }
    assert_eq!(allocator.free_extents(), Vec::<(usize, usize)>::new());
}

#[test]
fn alternate_free() {
    let backend = MemoryRegion::new(36);
    let mut allocator = FreeList::new(backend, 0, 35);
    let layout = uneven_object_layout();
    let mut allocated: Vec<usize> = Vec::new();
    while let Ok(ptr) = allocator.allocate(layout.clone()) {
        allocated.push(ptr);
    }
    for i in 0..allocated.len() {
        if i % 2 == 0 {
            allocator.deallocate(allocated[i], layout.clone());
        }
    }
    // a freed slot can be reused at once
    let again = allocator.allocate(layout.clone()).unwrap();
    allocator.deallocate(again, layout.clone());
    for i in 0..allocated.len() {
        if i % 2 != 0 {
            allocator.deallocate(allocated[i], layout.clone());
        }
    }
    assert_eq!(allocator.free_extents(), vec![(0, 35)]);
}

#[test]
fn full_cycle_forward_release() {
    let backend = MemoryRegion::new(36);
    let mut allocator = FreeList::new(backend, 0, 35);
    let layout = uneven_object_layout();
    let mut allocated: Vec<usize> = Vec::new();
    while let Ok(ptr) = allocator.allocate(layout.clone()) {
        allocated.push(ptr);
    }
    for p in allocated.iter() {
        allocator.deallocate(*p, layout.clone());
    }
    assert_eq!(allocator.free_extents(), vec![(0, 35)]);
}

#[test]
fn full_cycle_reverse_release() {
    let backend = MemoryRegion::new(36);
    let mut allocator = FreeList::new(backend, 0, 35);
    let layout = uneven_object_layout();
    let mut allocated: Vec<usize> = Vec::new();
    while let Ok(ptr) = allocator.allocate(layout.clone()) {
        allocated.push(ptr);
    }
    for p in allocated.iter().rev() {
        allocator.deallocate(*p, layout.clone());
    }
    assert_eq!(allocator.free_extents(), vec![(0, 35)]);
}

#[test]
fn round_trip_restores_free_list() {
    let backend = MemoryRegion::new(36);
    let mut allocator = FreeList::new(backend, 0, 35);
    let layout = uneven_object_layout();
    let before = allocator.free_extents();
    let ptr = allocator.allocate(layout.clone()).unwrap();
    assert_eq!(allocator.free_extents(), vec![(8, 35)]);
    allocator.deallocate(ptr, layout);
    assert_eq!(allocator.free_extents(), before);
}

#[test]
fn zero_size_is_exhausted() {
    let backend = MemoryRegion::new(36);
    let mut allocator = FreeList::new(backend, 0, 35);
    let layout = Layout::from_size_align_unchecked(0, 2);
    assert_eq!(allocator.allocate(layout), Err(AllocErr));
    assert_eq!(allocator.free_extents(), vec![(0, 35)]);
}

#[test]
fn oversized_request_is_exhausted() {
    let backend = MemoryRegion::new(36);
    let mut allocator = FreeList::new(backend, 0, 35);
    let layout = Layout::from_size_align_unchecked(100, 2);
    assert_eq!(allocator.allocate(layout), Err(AllocErr));
    assert_eq!(allocator.free_extents(), vec![(0, 35)]);
}

#[test]
fn alignment_one_collapses_padding() {
    let backend = MemoryRegion::new(36);
    let mut allocator = FreeList::new(backend, 0, 35);
    let layout = Layout::from_size_align_unchecked(3, 1);
    let ptr = allocator.allocate(layout.clone()).unwrap();
    assert_eq!(ptr, 0);
    allocator.deallocate(ptr, layout);
    assert_eq!(allocator.free_extents(), vec![(0, 35)]);
}

#[test]
fn consume_absorbs_small_remainder() {
    // region of 10 addresses: one allocation of one byte needs data at 0,
    // the trailer at 2..=5 and would leave only 4 addresses, fewer than a
    // viable free node, so the whole extent is consumed
    let backend = MemoryRegion::new(10);
    let mut allocator = FreeList::new(backend, 0, 9);
    let layout = Layout::from_size_align_unchecked(1, 1);
    let ptr = allocator.allocate(layout.clone()).unwrap();
    assert_eq!(ptr, 0);
    assert_eq!(allocator.free_extents(), Vec::<(usize, usize)>::new());
    assert_eq!(allocator.allocate(layout.clone()), Err(AllocErr));
    allocator.deallocate(ptr, layout);
    assert_eq!(allocator.free_extents(), vec![(0, 9)]);
}
