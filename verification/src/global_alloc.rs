//! The allocator as the rest of the kernel sees it: addresses in, addresses
//! out. The facade binds a chunk allocator to the address at which its heap
//! lies and adds no policy of its own.

use crate::chunk_allocator::{
    exhausted, grants, releasable, releases, ChunkAllocator, ChunkAllocatorView,
};
use crate::error::ErrorKind;
use vstd::arithmetic::div_mod::lemma_mod_adds;
use vstd::prelude::*;

verus! {

/// The state of a facade: where the heap lies, and the state of its allocator.
pub struct GlobalAllocatorView {
    pub base: nat,
    pub heap: ChunkAllocatorView,
}

/// A chunk allocator together with the address of the first byte of its heap.
#[derive(Debug)]
pub struct GlobalAllocatorFacade<'a> {
    allocator: ChunkAllocator<'a>,
    base: usize,
}

impl<'a> View for GlobalAllocatorFacade<'a> {
    type V = GlobalAllocatorView;

    closed spec fn view(&self) -> GlobalAllocatorView {
        GlobalAllocatorView { base: self.base as nat, heap: self.allocator@ }
    }
}

impl<'a> GlobalAllocatorFacade<'a> {
    #[verifier::type_invariant]
    spec fn well_formed(self) -> bool {
        self.base + self.allocator@.capacity() <= usize::MAX
    }

    /// Binds `allocator` to a heap whose first byte is at `base`. The heap
    /// must end within the address space.
    pub fn new(base: usize, allocator: ChunkAllocator<'a>) -> (facade: GlobalAllocatorFacade<'a>)
        requires
            base + allocator@.capacity() <= usize::MAX,
        ensures
            facade@ == (GlobalAllocatorView { base: base as nat, heap: allocator@ }),
    {
        GlobalAllocatorFacade { allocator, base }
    }

    /// The allocator behind the facade.
    pub fn allocator(&self) -> (allocator: &ChunkAllocator<'a>)
        ensures
            allocator@ == self@.heap,
    {
        &self.allocator
    }

    /// Requests `size` bytes. The address handed back lies `offset` bytes into
    /// the heap, where `offset` is what the allocator granted: a multiple of
    /// `align`. So the address is a multiple of `align` where the heap itself
    /// starts on one.
    pub fn request(&mut self, size: usize, align: usize) -> (r: Result<usize, ErrorKind>)
        requires
            align > 0,
        ensures
            final(self)@.base == old(self)@.base,
            match r {
                Ok(pointer) => {
                    &&& pointer >= old(self)@.base
                    &&& (pointer - old(self)@.base) % align as int == 0
                    &&& old(self)@.base % align as nat == 0 ==> pointer % align == 0
                    &&& grants(
                        old(self)@.heap,
                        size as int,
                        align as int,
                        pointer - old(self)@.base,
                        final(self)@.heap,
                    )
                },
                Err(e) => {
                    &&& e == ErrorKind::OutOfMemory
                    &&& exhausted(old(self)@.heap, size as int, align as int)
                    &&& final(self)@ == old(self)@
                },
            },
        no_unwind
    {
        proof {
            use_type_invariant(&*self);
        }
        match self.allocator.allocate(size, align) {
            Ok((offset, _)) => {
                proof {
                    let chunk_size = old(self)@.heap.chunk_size as int;
                    let count = old(self)@.heap.used.len() as int;
                    let start = offset as int / chunk_size;
                    assert(start * chunk_size <= chunk_size * count) by (nonlinear_arith)
                        requires
                            0 <= start <= count,
                            0 <= chunk_size,
                    ;
                    lemma_mod_adds(self.base as int, offset as int, align as int);
                }
                Ok(self.base + offset)
            },
            Err(e) => Err(e),
        }
    }

    /// Releases the `size` bytes at `pointer`. An address below the heap is
    /// refused like any other range that is not a live allocation.
    pub fn release(&mut self, pointer: usize, size: usize) -> (r: Result<(), ErrorKind>)
        ensures
            final(self)@.base == old(self)@.base,
            match r {
                Ok(()) => {
                    &&& pointer >= old(self)@.base
                    &&& releases(
                        old(self)@.heap,
                        pointer - old(self)@.base,
                        size as int,
                        final(self)@.heap,
                    )
                },
                Err(e) => {
                    &&& e == ErrorKind::InvalidFree
                    &&& !(pointer >= old(self)@.base && releasable(
                        old(self)@.heap,
                        pointer - old(self)@.base,
                        size as int,
                    ))
                    &&& final(self)@ == old(self)@
                },
            },
        no_unwind
    {
        proof {
            use_type_invariant(&*self);
        }
        if pointer < self.base {
            return Err(ErrorKind::InvalidFree);
        }
        self.allocator.deallocate(pointer - self.base, size)
    }
}

} // verus!
