//! A first-fit allocator over a fixed heap, cut into chunks of one size.
//!
//! A bitmap holds one bit per chunk, 1 for used and 0 for free; chunk `i` is
//! bit `i % 8`, counted from the least significant, of byte `i / 8`. The
//! allocator hands out offsets into the heap and never touches the heap's
//! bytes, so all it needs of the heap is its length.
//!
//! First fit is chosen over best fit: it is small and it is deterministic,
//! which suits an allocator that has no way to recover from corruption.

use crate::error::ErrorKind;
use vstd::arithmetic::div_mod::{
    lemma_div_by_multiple, lemma_div_is_ordered_by_denominator, lemma_fundamental_div_mod,
};
use vstd::arithmetic::power2::is_pow2;
use vstd::prelude::*;

verus! {

/// The state of an allocator: the size of a chunk, and for each chunk whether
/// it is in use.
pub struct ChunkAllocatorView {
    pub chunk_size: nat,
    pub used: Seq<bool>,
}

impl ChunkAllocatorView {
    /// The number of chunks.
    pub open spec fn chunk_count(self) -> nat {
        self.used.len()
    }

    /// The length of the heap in bytes.
    pub open spec fn capacity(self) -> nat {
        self.chunk_size * self.used.len()
    }
}

/// The number of chunks that `size` bytes take: `size / chunk_size`, rounded up.
pub open spec fn chunks_needed(size: int, chunk_size: int) -> int {
    if size % chunk_size == 0 {
        size / chunk_size
    } else {
        size / chunk_size + 1
    }
}

/// `chunks_needed` rounds up and no further: the chunks hold `size` bytes,
/// and one chunk less would not.
pub proof fn lemma_chunks_needed_is_ceiling(size: int, chunk_size: int)
    requires
        size >= 0,
        chunk_size > 0,
    ensures
        chunks_needed(size, chunk_size) >= 0,
        chunks_needed(size, chunk_size) * chunk_size >= size,
        (chunks_needed(size, chunk_size) - 1) * chunk_size < size,
{
    let whole = size / chunk_size;
    let rest = size % chunk_size;
    lemma_fundamental_div_mod(size, chunk_size);
    assert(whole >= 0 && (whole + 1) * chunk_size == whole * chunk_size + chunk_size && (whole - 1)
        * chunk_size == whole * chunk_size - chunk_size && chunk_size * whole == whole
        * chunk_size) by (nonlinear_arith)
        requires
            size == chunk_size * whole + rest,
            0 <= rest < chunk_size,
            size >= 0,
    ;
}

/// Whether the chunks `start .. start + count` are all in the heap and all
/// have the occupancy `value`.
pub open spec fn run_is(used: Seq<bool>, start: int, count: int, value: bool) -> bool {
    &&& 0 <= start
    &&& 0 <= count
    &&& start + count <= used.len()
    &&& forall|i: int| start <= i < start + count ==> used[i] == value
}

/// `used` with the chunks `start .. start + count` set to `value`.
pub open spec fn with_run(used: Seq<bool>, start: int, count: int, value: bool) -> Seq<bool> {
    Seq::new(
        used.len(),
        |i: int|
            if start <= i < start + count {
                value
            } else {
                used[i]
            },
    )
}

/// Whether a request for `count` chunks at alignment `align` can be placed at
/// chunk `start`: the run is free, and its offset in the heap is a multiple of
/// `align`.
pub open spec fn fits(state: ChunkAllocatorView, count: int, align: int, start: int) -> bool {
    run_is(state.used, start, count, false) && (start * state.chunk_size) % align == 0
}

/// Whether `start` is where first fit places the request: it fits there, and
/// nowhere before.
pub open spec fn is_first_fit(state: ChunkAllocatorView, count: int, align: int, start: int) -> bool {
    &&& fits(state, count, align, start)
    &&& forall|earlier: int| 0 <= earlier < start ==> !fits(state, count, align, earlier)
}

/// Whether `post` is `pre` after a request for `size` bytes at alignment
/// `align` was granted at `offset`.
pub open spec fn grants(
    pre: ChunkAllocatorView,
    size: int,
    align: int,
    offset: int,
    post: ChunkAllocatorView,
) -> bool {
    let count = chunks_needed(size, pre.chunk_size as int);
    let start = offset / pre.chunk_size as int;
    &&& offset == start * pre.chunk_size
    &&& is_first_fit(pre, count, align, start)
    &&& post == ChunkAllocatorView {
        chunk_size: pre.chunk_size,
        used: with_run(pre.used, start, count, true),
    }
}

/// Whether no place in the heap fits a request for `size` bytes at alignment
/// `align`.
pub open spec fn exhausted(state: ChunkAllocatorView, size: int, align: int) -> bool {
    forall|start: int|
        !#[trigger] fits(state, chunks_needed(size, state.chunk_size as int), align, start)
}

/// First fit leaves no choice: a request can be granted in one way only.
pub proof fn lemma_grant_is_determined(
    pre: ChunkAllocatorView,
    size: int,
    align: int,
    offset: int,
    post: ChunkAllocatorView,
    other_offset: int,
    other_post: ChunkAllocatorView,
)
    requires
        grants(pre, size, align, offset, post),
        grants(pre, size, align, other_offset, other_post),
    ensures
        offset == other_offset,
        post == other_post,
{
    let count = chunks_needed(size, pre.chunk_size as int);
    let start = offset / pre.chunk_size as int;
    let other_start = other_offset / pre.chunk_size as int;
    if start < other_start {
        assert(fits(pre, count, align, start));
    } else if other_start < start {
        assert(fits(pre, count, align, other_start));
    }
}

/// A request is granted or the heap is exhausted for it, never both.
pub proof fn lemma_granted_is_not_exhausted(
    pre: ChunkAllocatorView,
    size: int,
    align: int,
    offset: int,
    post: ChunkAllocatorView,
)
    requires
        grants(pre, size, align, offset, post),
    ensures
        !exhausted(pre, size, align),
{
    let count = chunks_needed(size, pre.chunk_size as int);
    assert(fits(pre, count, align, offset / pre.chunk_size as int));
}

/// A heap with every chunk in use is exhausted for every request of at least
/// one byte, whatever the alignment.
pub proof fn lemma_full_heap_is_exhausted(state: ChunkAllocatorView, size: int, align: int)
    requires
        state.chunk_size > 0,
        size > 0,
        forall|i: int| 0 <= i < state.used.len() ==> state.used[i],
    ensures
        exhausted(state, size, align),
{
    let count = chunks_needed(size, state.chunk_size as int);
    lemma_chunks_needed_is_ceiling(size, state.chunk_size as int);
    assert(count > 0) by (nonlinear_arith)
        requires
            count * state.chunk_size >= size,
            size > 0,
            state.chunk_size > 0,
    ;
    assert forall|start: int| !#[trigger] fits(state, count, align, start) by {
        if run_is(state.used, start, count, false) {
            assert(state.used[start]);
        }
    }
}

/// A heap with a free chunk is not exhausted for a request that one chunk
/// holds and that asks for no alignment.
pub proof fn lemma_free_chunk_serves_one_chunk(state: ChunkAllocatorView, size: int, chunk: int)
    requires
        state.chunk_size > 0,
        0 < size <= state.chunk_size,
        0 <= chunk < state.used.len(),
        !state.used[chunk],
    ensures
        !exhausted(state, size, 1),
{
    let chunk_size = state.chunk_size as int;
    lemma_chunks_needed_is_ceiling(size, chunk_size);
    let count = chunks_needed(size, chunk_size);
    assert(count == 1) by (nonlinear_arith)
        requires
            count * chunk_size >= size,
            (count - 1) * chunk_size < size,
            0 < size <= chunk_size,
    ;
    assert(fits(state, 1, 1, chunk));
}

/// Whether `size` bytes at `offset` are a range that can be released: the
/// offset is on a chunk boundary, and the chunks that the range covers are all
/// in the heap and all in use.
pub open spec fn releasable(state: ChunkAllocatorView, offset: int, size: int) -> bool {
    &&& offset % state.chunk_size as int == 0
    &&& run_is(
        state.used,
        offset / state.chunk_size as int,
        chunks_needed(size, state.chunk_size as int),
        true,
    )
}

/// Whether `post` is `pre` after the `size` bytes at `offset` were released.
pub open spec fn releases(
    pre: ChunkAllocatorView,
    offset: int,
    size: int,
    post: ChunkAllocatorView,
) -> bool {
    &&& releasable(pre, offset, size)
    &&& post == ChunkAllocatorView {
        chunk_size: pre.chunk_size,
        used: with_run(
            pre.used,
            offset / pre.chunk_size as int,
            chunks_needed(size, pre.chunk_size as int),
            false,
        ),
    }
}

/// Whether a heap of `buffer_len` bytes can be managed in chunks of
/// `chunk_size` bytes with a bitmap of `bitmap_len` bytes: the chunk size is a
/// power of two and divides the heap, and the bitmap has one bit per chunk,
/// rounded up to whole bytes.
pub open spec fn layout_ok(buffer_len: int, bitmap_len: int, chunk_size: int) -> bool {
    &&& is_pow2(chunk_size)
    &&& buffer_len % chunk_size == 0
    &&& bitmap_len == (buffer_len / chunk_size + 7) / 8
}

/// Bit `k` of `byte`, counted from the least significant.
pub open spec fn bit_of(byte: u8, k: int) -> bool {
    (byte >> (k as u8)) & 1u8 == 1u8
}

/// Whether `bitmap` marks chunk `i` as used.
pub open spec fn chunk_used(bitmap: Seq<u8>, i: int) -> bool {
    bit_of(bitmap[i / 8], i % 8)
}

proof fn lemma_bit_of_zero(k: u8)
    by (bit_vector)
    requires
        k < 8,
    ensures
        (0u8 >> k) & 1u8 == 0u8,
{
}

proof fn lemma_bit_after_set(byte: u8, k: u8, j: u8)
    by (bit_vector)
    requires
        k < 8,
        j < 8,
    ensures
        ((byte | (1u8 << k)) >> j) & 1u8 == (if j == k {
            1u8
        } else {
            (byte >> j) & 1u8
        }),
{
}

proof fn lemma_bit_after_clear(byte: u8, k: u8, j: u8)
    by (bit_vector)
    requires
        k < 8,
        j < 8,
    ensures
        ((byte & !(1u8 << k)) >> j) & 1u8 == (if j == k {
            0u8
        } else {
            (byte >> j) & 1u8
        }),
{
}

fn is_power_of_two(n: usize) -> (yes: bool)
    ensures
        yes == is_pow2(n as int),
{
    reveal(is_pow2);
    if n == 0 {
        return false;
    }
    let mut m: usize = n;
    while m % 2 == 0
        invariant
            m > 0,
            is_pow2(m as int) == is_pow2(n as int),
        decreases m,
    {
        proof {
            reveal(is_pow2);
        }
        m = m / 2;
    }
    m == 1
}

fn count_chunks(size: usize, chunk_size: usize) -> (count: usize)
    requires
        chunk_size > 0,
    ensures
        count == chunks_needed(size as int, chunk_size as int),
    no_unwind
{
    let whole: usize = size / chunk_size;
    if size % chunk_size == 0 {
        whole
    } else {
        proof {
            if chunk_size == 1 {
                assert(size as int % 1 == 0);
            } else {
                lemma_div_is_ordered_by_denominator(size as int, 2, chunk_size as int);
            }
        }
        whole + 1
    }
}

/// A chunk allocator over a heap of fixed length. It borrows its bitmap for
/// as long as it lives.
#[derive(Debug)]
pub struct ChunkAllocator<'a> {
    bitmap: &'a mut [u8],
    chunk_size: usize,
    chunk_count: usize,
}

impl<'a> View for ChunkAllocator<'a> {
    type V = ChunkAllocatorView;

    closed spec fn view(&self) -> ChunkAllocatorView {
        ChunkAllocatorView {
            chunk_size: self.chunk_size as nat,
            used: Seq::new(self.chunk_count as nat, |i: int| chunk_used(self.bitmap@, i)),
        }
    }
}

impl<'a> ChunkAllocator<'a> {
    #[verifier::type_invariant]
    spec fn well_formed(self) -> bool {
        &&& is_pow2(self.chunk_size as int)
        &&& self.chunk_size > 0
        &&& self.chunk_count * self.chunk_size <= usize::MAX
        &&& self.bitmap@.len() == (self.chunk_count + 7) / 8
        &&& forall|i: int|
            self.chunk_count <= i < 8 * self.bitmap@.len() ==> !#[trigger] chunk_used(
                self.bitmap@,
                i,
            )
    }

    /// Whether the arguments are ones that `init` takes.
    pub fn layout_is_valid(buffer_len: usize, bitmap_len: usize, chunk_size: usize) -> (ok: bool)
        ensures
            ok == layout_ok(buffer_len as int, bitmap_len as int, chunk_size as int),
    {
        if !is_power_of_two(chunk_size) {
            return false;
        }
        proof {
            reveal(is_pow2);
        }
        if buffer_len % chunk_size != 0 {
            return false;
        }
        let chunk_count: usize = buffer_len / chunk_size;
        let whole: usize = chunk_count / 8;
        let bytes: usize = if chunk_count % 8 == 0 {
            whole
        } else {
            whole + 1
        };
        bitmap_len == bytes
    }

    /// Takes charge of a heap of `buffer_len` bytes, all of it free. The
    /// bitmap is cleared, whatever it held.
    pub fn init(buffer_len: usize, bitmap: &'a mut [u8], chunk_size: usize) -> (allocator:
        ChunkAllocator<'a>)
        requires
            layout_ok(buffer_len as int, old(bitmap)@.len() as int, chunk_size as int),
        ensures
            allocator@.chunk_size == chunk_size,
            allocator@.used == Seq::new((buffer_len / chunk_size) as nat, |i: int| false),
            allocator@.capacity() == buffer_len,
    {
        proof {
            reveal(is_pow2);
        }
        let chunk_count: usize = buffer_len / chunk_size;
        let len: usize = bitmap.len();
        let mut i: usize = 0;
        while i < len
            invariant
                bitmap@.len() == len,
                i <= len,
                forall|j: int| 0 <= j < i ==> bitmap@[j] == 0u8,
            decreases len - i,
        {
            bitmap[i] = 0;
            i += 1;
        }
        proof {
            assert(chunk_count * chunk_size == buffer_len) by (nonlinear_arith)
                requires
                    chunk_count == buffer_len / chunk_size,
                    buffer_len % chunk_size == 0,
                    chunk_size > 0,
            ;
            assert(chunk_size * chunk_count == buffer_len) by (nonlinear_arith)
                requires
                    chunk_count * chunk_size == buffer_len,
            ;
            assert forall|c: int| 0 <= c < 8 * len implies !#[trigger] chunk_used(bitmap@, c) by {
                lemma_bit_of_zero((c % 8) as u8);
            }
        }
        let allocator = ChunkAllocator { bitmap, chunk_size, chunk_count };
        assert(allocator@.used =~= Seq::new((buffer_len / chunk_size) as nat, |i: int| false));
        allocator
    }

    /// The size of a chunk in bytes.
    pub fn chunk_size(&self) -> (size: usize)
        ensures
            size == self@.chunk_size,
            is_pow2(size as int),
    {
        proof {
            use_type_invariant(self);
        }
        self.chunk_size
    }

    /// The number of chunks in the heap.
    pub fn chunk_count(&self) -> (count: usize)
        ensures
            count == self@.chunk_count(),
    {
        self.chunk_count
    }

    /// The length of the heap in bytes.
    pub fn capacity(&self) -> (bytes: usize)
        ensures
            bytes == self@.capacity(),
    {
        proof {
            use_type_invariant(self);
            assert(self.chunk_size * self.chunk_count == self.chunk_count * self.chunk_size)
                by (nonlinear_arith);
        }
        self.chunk_count * self.chunk_size
    }

    /// The bitmap as it stands: one bit per chunk, set where the chunk is in
    /// use, and the bits that are left over in the last byte clear.
    pub fn bitmap(&self) -> (bytes: &[u8])
        ensures
            bytes@.len() == (self@.chunk_count() + 7) / 8,
            forall|i: int|
                0 <= i < 8 * bytes@.len() ==> #[trigger] chunk_used(bytes@, i) == (i
                    < self@.chunk_count() && self@.used[i]),
    {
        proof {
            use_type_invariant(self);
        }
        &*self.bitmap
    }

    /// Whether chunk `chunk` is in use. A chunk beyond the heap is not.
    pub fn is_used(&self, chunk: usize) -> (used: bool)
        ensures
            used == (chunk < self@.chunk_count() && self@.used[chunk as int]),
    {
        if chunk >= self.chunk_count {
            return false;
        }
        self.bit(chunk)
    }

    /// Grants `size` bytes at an offset that is a multiple of `align`.
    ///
    /// The bitmap is scanned from its start for the first run of free chunks
    /// that is long enough and starts at such an offset. The run is marked
    /// used; the offset of its first byte and the number of its chunks are
    /// handed back. Where no place fits, nothing changes.
    pub fn allocate(&mut self, size: usize, align: usize) -> (r: Result<(usize, usize), ErrorKind>)
        requires
            align > 0,
        ensures
            match r {
                Ok((offset, chunks)) => {
                    &&& chunks == chunks_needed(size as int, old(self)@.chunk_size as int)
                    &&& grants(old(self)@, size as int, align as int, offset as int, final(self)@)
                },
                Err(e) => {
                    &&& e == ErrorKind::OutOfMemory
                    &&& exhausted(old(self)@, size as int, align as int)
                    &&& final(self)@ == old(self)@
                },
            },
        no_unwind
    {
        proof {
            use_type_invariant(&*self);
        }
        let chunk_size: usize = self.chunk_size;
        let chunk_count: usize = self.chunk_count;
        let count: usize = count_chunks(size, chunk_size);
        if count == 0 {
            proof {
                assert(0 * chunk_size == 0) by (nonlinear_arith);
                assert(0int / chunk_size as int == 0);
                assert(self@.used =~= with_run(old(self)@.used, 0, 0, true));
            }
            return Ok((0, 0));
        }
        if count > chunk_count {
            return Err(ErrorKind::OutOfMemory);
        }
        let last_start: usize = chunk_count - count;
        let mut start: usize = 0;
        while start <= last_start
            invariant
                *self == *old(self),
                chunk_size == self.chunk_size,
                chunk_count == self.chunk_count,
                chunk_size > 0,
                chunk_count * chunk_size <= usize::MAX,
                align > 0,
                count == chunks_needed(size as int, chunk_size as int),
                count > 0,
                count + last_start == chunk_count,
                start <= chunk_count,
                forall|earlier: int|
                    0 <= earlier < start ==> !fits(self@, count as int, align as int, earlier),
            decreases chunk_count - start,
        {
            assert(start * chunk_size <= chunk_count * chunk_size) by (nonlinear_arith)
                requires
                    start <= chunk_count,
                    chunk_size > 0,
            ;
            if (start * chunk_size) % align == 0 {
                let mut end: usize = start;
                while end < start + count && !self.bit(end)
                    invariant
                        *self == *old(self),
                        chunk_count == self.chunk_count,
                        start <= end <= start + count <= chunk_count,
                        forall|i: int| start <= i < end ==> !self@.used[i],
                    decreases start + count - end,
                {
                    end += 1;
                }
                if end == start + count {
                    self.mark_run(start, count, true);
                    proof {
                        lemma_div_by_multiple(start as int, chunk_size as int);
                    }
                    return Ok((start * chunk_size, count));
                }
                assert(start <= end < start + count);
                assert(self@.used[end as int]);
                assert forall|earlier: int| start <= earlier <= end implies !fits(
                    self@,
                    count as int,
                    align as int,
                    earlier,
                ) by {
                    assert(earlier <= end < earlier + count);
                }
                start = end + 1;
            } else {
                assert(start + 1 <= chunk_count);
                start += 1;
            }
        }
        assert forall|place: int| !#[trigger] fits(self@, count as int, align as int, place) by {
            if place >= 0 {
                assert(place < start || place + count > chunk_count);
            }
        }
        Err(ErrorKind::OutOfMemory)
    }

    /// Releases the `size` bytes at `offset`.
    ///
    /// The range must be one that can be released: `offset` on a chunk
    /// boundary, and every chunk that the range covers in the heap and in use.
    /// Those chunks are then marked free, and no others change. Any other
    /// range is refused, and nothing changes.
    pub fn deallocate(&mut self, offset: usize, size: usize) -> (r: Result<(), ErrorKind>)
        ensures
            match r {
                Ok(()) => releases(old(self)@, offset as int, size as int, final(self)@),
                Err(e) => {
                    &&& e == ErrorKind::InvalidFree
                    &&& !releasable(old(self)@, offset as int, size as int)
                    &&& final(self)@ == old(self)@
                },
            },
        no_unwind
    {
        proof {
            use_type_invariant(&*self);
        }
        let chunk_size: usize = self.chunk_size;
        let chunk_count: usize = self.chunk_count;
        if offset % chunk_size != 0 {
            return Err(ErrorKind::InvalidFree);
        }
        let start: usize = offset / chunk_size;
        let count: usize = count_chunks(size, chunk_size);
        if start > chunk_count || count > chunk_count - start {
            return Err(ErrorKind::InvalidFree);
        }
        let mut at: usize = start;
        while at < start + count
            invariant
                *self == *old(self),
                chunk_size == self.chunk_size,
                chunk_count == self.chunk_count,
                start == offset / chunk_size,
                count == chunks_needed(size as int, chunk_size as int),
                start <= at <= start + count <= chunk_count,
                forall|i: int| start <= i < at ==> self@.used[i],
            decreases start + count - at,
        {
            if !self.bit(at) {
                assert(!self@.used[at as int]);
                return Err(ErrorKind::InvalidFree);
            }
            at += 1;
        }
        self.mark_run(start, count, false);
        Ok(())
    }

    fn mark_run(&mut self, start: usize, count: usize, value: bool)
        requires
            start + count <= old(self).chunk_count,
        ensures
            final(self)@ == (ChunkAllocatorView {
                chunk_size: old(self)@.chunk_size,
                used: with_run(old(self)@.used, start as int, count as int, value),
            }),
        no_unwind
    {
        let mut at: usize = start;
        assert(self@.used =~= with_run(old(self)@.used, start as int, 0, value));
        while at < start + count
            invariant
                start <= at <= start + count <= self.chunk_count,
                self.chunk_count == old(self).chunk_count,
                self.chunk_size == old(self).chunk_size,
                self@.used == with_run(old(self)@.used, start as int, at - start, value),
            decreases start + count - at,
        {
            let ghost before = self@.used;
            self.set_bit(at, value);
            assert(before.update(at as int, value) =~= with_run(
                old(self)@.used,
                start as int,
                at + 1 - start,
                value,
            ));
            at += 1;
        }
    }

    fn bit(&self, chunk: usize) -> (used: bool)
        requires
            chunk < self.chunk_count,
        ensures
            used == self@.used[chunk as int],
        no_unwind
    {
        proof {
            use_type_invariant(self);
        }
        let shift: u8 = (chunk % 8) as u8;
        (self.bitmap[chunk / 8] >> shift) & 1u8 == 1u8
    }

    fn set_bit(&mut self, chunk: usize, value: bool)
        requires
            chunk < old(self).chunk_count,
        ensures
            final(self)@ == (ChunkAllocatorView {
                chunk_size: old(self)@.chunk_size,
                used: old(self)@.used.update(chunk as int, value),
            }),
            final(self).chunk_count == old(self).chunk_count,
            final(self).chunk_size == old(self).chunk_size,
        no_unwind
    {
        proof {
            use_type_invariant(&*self);
        }
        let at: usize = chunk / 8;
        let shift: u8 = (chunk % 8) as u8;
        let before: u8 = self.bitmap[at];
        let after: u8 = if value {
            before | (1u8 << shift)
        } else {
            before & !(1u8 << shift)
        };
        proof {
            let old_bitmap = self.bitmap@;
            let new_bitmap = old_bitmap.update(at as int, after);
            assert forall|c: int| 0 <= c < 8 * old_bitmap.len() implies #[trigger] chunk_used(
                new_bitmap,
                c,
            ) == (if c == chunk {
                value
            } else {
                chunk_used(old_bitmap, c)
            }) by {
                if c / 8 == at {
                    if value {
                        lemma_bit_after_set(before, shift, (c % 8) as u8);
                    } else {
                        lemma_bit_after_clear(before, shift, (c % 8) as u8);
                    }
                }
            }
        }
        self.bitmap[at] = after;
        assert(self@.used =~= old(self)@.used.update(chunk as int, value));
    }
}

} // verus!
