//! Allocators over a caller-supplied virtual address space.
//!
//! An address here is a plain integer offset into a bounded region, not a
//! host pointer.  A [`Memory`] backend performs the typed reads and writes at
//! those addresses; the allocators only decide which addresses to hand out.
//! The core is [`FreeList`], a first-fit heap allocator whose bookkeeping
//! (free-extent nodes and per-allocation trailers) lives inside the very
//! region it manages.  [`BumpAllocator`] is the minimal allocator conforming
//! to the same interface.

pub mod allocator;
pub mod bump;
pub mod extent;
pub mod freelist;
pub mod layout;
pub mod memory;
pub mod region;
pub mod typed_ptr;

pub use allocator::Alloc;
pub use allocator::AllocErr;
pub use bump::BumpAllocator;
pub use extent::Extent;
pub use freelist::FreeList;
pub use layout::Layout;
pub use memory::Block;
pub use memory::Memory;
pub use memory::Node;
pub use region::MemoryRegion;
pub use typed_ptr::TypedPtr;
