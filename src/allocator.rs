//! The decisions of the huge-page allocator. The mapping and unmapping
//! themselves are operating-system calls made by the caller, which hands in
//! the huge-page size it has cached and performs the step returned here.
use vstd::prelude::*;

verus! {

/// A size can be served when it is a positive multiple of a known (nonzero)
/// huge-page size.
pub open spec fn valid_size(size: usize, page_size: usize) -> bool {
    size != 0 && page_size != 0 && size % page_size == 0
}

/// Whether `size` can be allocated in huge pages of `page_size` bytes,
/// where a `page_size` of 0 means that the huge-page size is unknown.
pub fn is_valid_size(size: usize, page_size: usize) -> (r: bool)
    ensures
        r == valid_size(size, page_size),
        size == 0 ==> !r,
        page_size == 0 ==> !r,
        size > 0 && page_size > 0 ==> (r <==> size % page_size == 0),
{
    if size == 0 {
        return false;
    }
    if page_size == 0 {
        // no page size is known, and there is nothing to divide by
        return false;
    }
    size % page_size == 0
}

/// What an allocation request turns into.
#[derive(Debug, Clone, Copy, PartialEq, Eq)]
pub enum AllocStep {
    /// Report failure without asking the system for memory.
    Fail,
    /// Map `len` bytes of anonymous, private, read-write huge-page memory.
    Mmap { len: usize },
}

/// What a release request turns into.
#[derive(Debug, Clone, Copy, PartialEq, Eq)]
pub enum DeallocStep {
    /// Nothing was mapped for such a size: do nothing.
    Skip,
    /// Munmap `len` bytes at the given address; the unmapping must succeed.
    Munmap { len: usize },
}

pub open spec fn alloc_plan(size: usize, page_size: usize) -> AllocStep {
    if valid_size(size, page_size) {
        AllocStep::Mmap { len: size }
    } else {
        AllocStep::Fail
    }
}

pub open spec fn dealloc_plan(size: usize, page_size: usize) -> DeallocStep {
    if valid_size(size, page_size) {
        DeallocStep::Munmap { len: size }
    } else {
        DeallocStep::Skip
    }
}

/// The step for allocating `size` bytes: a mapping of exactly `size` bytes
/// where the size is valid, else failure, with no mapping asked for.
pub fn alloc_step(size: usize, page_size: usize) -> (r: AllocStep)
    ensures
        r == alloc_plan(size, page_size),
        r is Mmap <==> valid_size(size, page_size),
{
    if !is_valid_size(size, page_size) {
        return AllocStep::Fail;
    }
    AllocStep::Mmap { len: size }
}

/// The step for releasing `size` bytes: the same gate as allocation, so a
/// size that could never have been mapped is never unmapped.
pub fn dealloc_step(size: usize, page_size: usize) -> (r: DeallocStep)
    ensures
        r == dealloc_plan(size, page_size),
        r is Munmap <==> valid_size(size, page_size),
{
    if !is_valid_size(size, page_size) {
        return DeallocStep::Skip;
    }
    DeallocStep::Munmap { len: size }
}

/// A stateless handle to the huge-page allocator.
#[derive(Debug, Default, Clone, Copy)]
pub struct HugePage;

impl HugePage {
    /// The step for an allocation through the handle.
    pub fn allocate_step(&self, size: usize, page_size: usize) -> (r: AllocStep)
        ensures
            r == alloc_plan(size, page_size),
    {
        alloc_step(size, page_size)
    }

    /// The step for a release through the handle; releasing zero bytes is
    /// always allowed and does nothing.
    pub fn deallocate_step(&self, size: usize, page_size: usize) -> (r: DeallocStep)
        ensures
            r == dealloc_plan(size, page_size),
            size == 0 ==> r == DeallocStep::Skip,
    {
        if size == 0 {
            return DeallocStep::Skip;
        }
        dealloc_step(size, page_size)
    }
}

/// Releasing with the size that was allocated unmaps exactly what was
/// mapped, and a request that mapped nothing releases nothing.
pub proof fn lemma_alloc_then_dealloc(size: usize, page_size: usize)
    ensures
        alloc_plan(size, page_size) is Mmap ==> dealloc_plan(size, page_size) == (DeallocStep::Munmap {
            len: alloc_plan(size, page_size)->Mmap_len,
        }),
        alloc_plan(size, page_size) is Fail ==> dealloc_plan(size, page_size) == DeallocStep::Skip,
{
}

} // verus!
