//! A huge-page backed allocator: size validation against the platform's
//! default huge-page size, the map/unmap decisions of the allocator, and a
//! parser for the kernel's memory-information text.

pub mod allocator;
pub mod meminfo;

pub use allocator::{
    alloc_step, dealloc_step, is_valid_size, lemma_alloc_then_dealloc, AllocStep, DeallocStep,
    HugePage,
};
pub use meminfo::{page_size_of, parse_meminfo, HugePageInfo, MeminfoError};
