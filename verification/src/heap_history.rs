//! Histories of a heap: what holds of every run of grants and releases.
//!
//! The allocator keeps no record of what it granted. These statements show
//! that it needs none, as long as every release gives back a range that was
//! granted, with the size it was granted with: the ranges that are out never
//! overlap, and when the last of them is back the bitmap is what it was.

use crate::chunk_allocator::{
    chunks_needed, grants, releasable, releases, run_is, with_run, ChunkAllocatorView,
};
use vstd::arithmetic::div_mod::lemma_mod_multiples_basic;
use vstd::prelude::*;

verus! {

/// A range of the heap that was granted: where it starts, and the size that
/// was asked for.
pub struct Allocation {
    pub offset: int,
    pub size: int,
}

/// One step in the life of a heap.
pub enum HeapEvent {
    /// A request for `size` bytes at alignment `align` was granted at `offset`.
    Granted { size: int, align: int, offset: int },
    /// The `size` bytes at `offset` were released.
    Released { offset: int, size: int },
}

/// Whether `event` takes the heap from `pre` to `post`.
pub open spec fn step(pre: ChunkAllocatorView, event: HeapEvent, post: ChunkAllocatorView) -> bool {
    match event {
        HeapEvent::Granted { size, align, offset } => grants(pre, size, align, offset, post),
        HeapEvent::Released { offset, size } => releases(pre, offset, size, post),
    }
}

/// Whether event `i` takes the heap from state `i` to state `i + 1`.
pub open spec fn step_at(states: Seq<ChunkAllocatorView>, events: Seq<HeapEvent>, i: int) -> bool {
    step(states[i], events[i], states[i + 1])
}

/// Whether `states` are the states that a heap goes through under `events`,
/// from `states[0]` on.
pub open spec fn is_history(states: Seq<ChunkAllocatorView>, events: Seq<HeapEvent>) -> bool {
    &&& states.len() == events.len() + 1
    &&& forall|i: int| 0 <= i < events.len() ==> #[trigger] step_at(states, events, i)
}

/// `live` without one entry equal to `allocation`, if it has one.
pub open spec fn without(live: Seq<Allocation>, allocation: Allocation) -> Seq<Allocation> {
    if live.contains(allocation) {
        live.remove(live.index_of(allocation))
    } else {
        live
    }
}

/// The allocations that are out after the first `k` events: each grant adds
/// one, each release takes the one with its offset and size away.
pub open spec fn live_after(events: Seq<HeapEvent>, k: int) -> Seq<Allocation>
    decreases k,
{
    if k <= 0 {
        Seq::empty()
    } else {
        let before = live_after(events, k - 1);
        match events[k - 1] {
            HeapEvent::Granted { size, offset, .. } => before.push(Allocation { offset, size }),
            HeapEvent::Released { offset, size } => without(before, Allocation { offset, size }),
        }
    }
}

/// Whether event `k`, if it is a release, gives back an allocation that is
/// out at that time, with the size it was granted with.
pub open spec fn matched_at(events: Seq<HeapEvent>, k: int) -> bool {
    events[k] matches HeapEvent::Released { offset, size } ==> live_after(events, k).contains(
        Allocation { offset, size },
    )
}

/// Whether every release in `events` matches a grant before it.
pub open spec fn is_matched(events: Seq<HeapEvent>) -> bool {
    forall|k: int| 0 <= k < events.len() ==> #[trigger] matched_at(events, k)
}

/// Whether `allocation` occupies chunk `chunk` in a heap of the given chunk size.
pub open spec fn covers(chunk_size: int, allocation: Allocation, chunk: int) -> bool {
    let first = allocation.offset / chunk_size;
    first <= chunk < first + chunks_needed(allocation.size, chunk_size)
}

/// Whether no chunk is occupied by both `a` and `b`.
pub open spec fn apart(chunk_size: int, a: Allocation, b: Allocation) -> bool {
    forall|chunk: int| !(#[trigger] covers(chunk_size, a, chunk) && covers(chunk_size, b, chunk))
}

/// Whether one of `live` occupies `chunk`.
pub open spec fn is_covered(chunk_size: int, live: Seq<Allocation>, chunk: int) -> bool {
    exists|i: int| 0 <= i < live.len() && covers(chunk_size, #[trigger] live[i], chunk)
}

/// Whether `now` is `origin` plus the allocations `live`, and nothing else:
/// each of them can be released, no two of them share a chunk, none of them
/// holds a chunk that was in use to begin with, and a chunk is in use now
/// exactly if it was to begin with or one of them occupies it.
pub open spec fn accounted(
    origin: ChunkAllocatorView,
    now: ChunkAllocatorView,
    live: Seq<Allocation>,
) -> bool {
    let chunk_size = origin.chunk_size as int;
    &&& now.chunk_size == origin.chunk_size
    &&& now.used.len() == origin.used.len()
    &&& forall|i: int|
        0 <= i < live.len() ==> releasable(now, (#[trigger] live[i]).offset, live[i].size)
    &&& forall|i: int, j: int|
        0 <= i < j < live.len() ==> apart(chunk_size, #[trigger] live[i], #[trigger] live[j])
    &&& forall|i: int, chunk: int|
        0 <= i < live.len() && 0 <= chunk < origin.used.len() && covers(
            chunk_size,
            #[trigger] live[i],
            chunk,
        ) ==> !#[trigger] origin.used[chunk]
    &&& forall|chunk: int|
        0 <= chunk < now.used.len() ==> #[trigger] now.used[chunk] == (origin.used[chunk]
            || is_covered(chunk_size, live, chunk))
}

proof fn lemma_grant_accounted(
    origin: ChunkAllocatorView,
    pre: ChunkAllocatorView,
    live: Seq<Allocation>,
    size: int,
    align: int,
    offset: int,
    post: ChunkAllocatorView,
)
    requires
        origin.chunk_size > 0,
        accounted(origin, pre, live),
        grants(pre, size, align, offset, post),
    ensures
        accounted(origin, post, live.push(Allocation { offset, size })),
{
    let chunk_size = origin.chunk_size as int;
    let granted = Allocation { offset, size };
    let next = live.push(granted);
    let first = offset / chunk_size;
    let count = chunks_needed(size, chunk_size);
    let last = live.len() as int;
    assert(run_is(pre.used, first, count, false));
    assert(post.used == with_run(pre.used, first, count, true));
    assert(offset % chunk_size == 0) by {
        lemma_mod_multiples_basic(first, chunk_size);
    }
    assert forall|i: int| 0 <= i < next.len() implies releasable(
        post,
        (#[trigger] next[i]).offset,
        next[i].size,
    ) by {
        if i < last {
            assert(releasable(pre, live[i].offset, live[i].size));
        }
    }
    assert forall|i: int, j: int| 0 <= i < j < next.len() implies apart(
        chunk_size,
        #[trigger] next[i],
        #[trigger] next[j],
    ) by {
        if j < last {
            assert(apart(chunk_size, live[i], live[j]));
        } else {
            assert(releasable(pre, live[i].offset, live[i].size));
            assert forall|chunk: int| !(#[trigger] covers(chunk_size, next[i], chunk) && covers(
                chunk_size,
                next[j],
                chunk,
            )) by {
                if covers(chunk_size, live[i], chunk) && covers(chunk_size, granted, chunk) {
                    assert(pre.used[chunk]);
                    assert(!pre.used[chunk]);
                }
            }
        }
    }
    assert forall|i: int, chunk: int|
        0 <= i < next.len() && 0 <= chunk < origin.used.len() && covers(
            chunk_size,
            #[trigger] next[i],
            chunk,
        ) implies !#[trigger] origin.used[chunk] by {
        if i < last {
            assert(covers(chunk_size, live[i], chunk));
        } else {
            assert(!pre.used[chunk]);
        }
    }
    assert forall|chunk: int| 0 <= chunk < post.used.len() implies #[trigger] post.used[chunk] == (
    origin.used[chunk] || is_covered(chunk_size, next, chunk)) by {
        if first <= chunk < first + count {
            assert(covers(chunk_size, next[last], chunk));
        } else {
            assert(post.used[chunk] == pre.used[chunk]);
            if is_covered(chunk_size, live, chunk) {
                let i = choose|i: int|
                    0 <= i < live.len() && covers(chunk_size, #[trigger] live[i], chunk);
                assert(covers(chunk_size, next[i], chunk));
            }
            if is_covered(chunk_size, next, chunk) {
                let i = choose|i: int|
                    0 <= i < next.len() && covers(chunk_size, #[trigger] next[i], chunk);
                assert(i < last);
                assert(covers(chunk_size, live[i], chunk));
            }
        }
    }
}

proof fn lemma_release_accounted(
    origin: ChunkAllocatorView,
    pre: ChunkAllocatorView,
    live: Seq<Allocation>,
    offset: int,
    size: int,
    post: ChunkAllocatorView,
)
    requires
        origin.chunk_size > 0,
        accounted(origin, pre, live),
        live.contains(Allocation { offset, size }),
        releases(pre, offset, size, post),
    ensures
        accounted(origin, post, without(live, Allocation { offset, size })),
{
    let chunk_size = origin.chunk_size as int;
    let released = Allocation { offset, size };
    let k = live.index_of(released);
    let next = live.remove(k);
    live.remove_ensures(k);
    let first = offset / chunk_size;
    let count = chunks_needed(size, chunk_size);
    assert(live[k] == released);
    assert(run_is(pre.used, first, count, true));
    assert(post.used == with_run(pre.used, first, count, false));
    // Entry `i` of `next` is entry `from(i)` of `live`, and never entry `k`.
    let from = |i: int|
        if i < k {
            i
        } else {
            i + 1
        };
    assert forall|i: int| 0 <= i < next.len() implies #[trigger] next[i] == live[from(i)] by {}
    assert forall|i: int| 0 <= i < live.len() && i != k implies apart(
        chunk_size,
        #[trigger] live[i],
        released,
    ) by {
        if i < k {
            assert(apart(chunk_size, live[i], live[k]));
        } else {
            assert(apart(chunk_size, live[k], live[i]));
        }
    }
    assert forall|i: int| 0 <= i < next.len() implies releasable(
        post,
        (#[trigger] next[i]).offset,
        next[i].size,
    ) by {
        let other = live[from(i)];
        assert(releasable(pre, other.offset, other.size));
        assert(apart(chunk_size, other, released));
        assert forall|chunk: int| covers(chunk_size, other, chunk) implies #[trigger] post.used[chunk] by {
            assert(!covers(chunk_size, released, chunk));
            assert(pre.used[chunk]);
        }
    }
    assert forall|i: int, j: int| 0 <= i < j < next.len() implies apart(
        chunk_size,
        #[trigger] next[i],
        #[trigger] next[j],
    ) by {
        assert(apart(chunk_size, live[from(i)], live[from(j)]));
    }
    assert forall|i: int, chunk: int|
        0 <= i < next.len() && 0 <= chunk < origin.used.len() && covers(
            chunk_size,
            #[trigger] next[i],
            chunk,
        ) implies !#[trigger] origin.used[chunk] by {
        assert(covers(chunk_size, live[from(i)], chunk));
    }
    assert forall|chunk: int| 0 <= chunk < post.used.len() implies #[trigger] post.used[chunk] == (
    origin.used[chunk] || is_covered(chunk_size, next, chunk)) by {
        if is_covered(chunk_size, next, chunk) {
            let i = choose|i: int|
                0 <= i < next.len() && covers(chunk_size, #[trigger] next[i], chunk);
            assert(covers(chunk_size, live[from(i)], chunk));
            assert(apart(chunk_size, live[from(i)], released));
            assert(!covers(chunk_size, released, chunk));
            assert(is_covered(chunk_size, live, chunk));
        }
        if first <= chunk < first + count {
            assert(covers(chunk_size, live[k], chunk));
            assert(!origin.used[chunk]);
        } else {
            assert(post.used[chunk] == pre.used[chunk]);
            if is_covered(chunk_size, live, chunk) {
                let i = choose|i: int|
                    0 <= i < live.len() && covers(chunk_size, #[trigger] live[i], chunk);
                assert(i != k);
                let to = if i < k {
                    i
                } else {
                    i - 1
                };
                assert(next[to] == live[i]);
                assert(covers(chunk_size, next[to], chunk));
            }
        }
    }
}

/// The bitmap is all the record there is, and it is enough: after any number
/// of steps of a history in which every release matches a grant, the heap is
/// what it was to begin with plus the allocations then out. In particular
/// each of them can be released, so a release that matches is never refused.
pub proof fn lemma_history_is_accounted(
    states: Seq<ChunkAllocatorView>,
    events: Seq<HeapEvent>,
    k: int,
)
    requires
        is_history(states, events),
        is_matched(events),
        states[0].chunk_size > 0,
        0 <= k <= events.len(),
    ensures
        accounted(states[0], states[k], live_after(events, k)),
    decreases k,
{
    if k > 0 {
        lemma_history_is_accounted(states, events, k - 1);
        let before = live_after(events, k - 1);
        assert(step_at(states, events, k - 1));
        assert(matched_at(events, k - 1));
        match events[k - 1] {
            HeapEvent::Granted { size, align, offset } => {
                lemma_grant_accounted(
                    states[0],
                    states[k - 1],
                    before,
                    size,
                    align,
                    offset,
                    states[k],
                );
            },
            HeapEvent::Released { offset, size } => {
                lemma_release_accounted(states[0], states[k - 1], before, offset, size, states[k]);
            },
        }
    }
}

/// Releasing what was just granted, with its size, undoes the grant: the
/// release is accepted and the heap is what it was before.
pub proof fn lemma_release_undoes_grant(
    pre: ChunkAllocatorView,
    size: int,
    align: int,
    offset: int,
    post: ChunkAllocatorView,
)
    requires
        pre.chunk_size > 0,
        grants(pre, size, align, offset, post),
    ensures
        releases(post, offset, size, pre),
{
    let chunk_size = pre.chunk_size as int;
    let first = offset / chunk_size;
    let count = chunks_needed(size, chunk_size);
    lemma_mod_multiples_basic(first, chunk_size);
    assert(run_is(pre.used, first, count, false));
    assert(run_is(post.used, first, count, true));
    assert(pre.used =~= with_run(post.used, first, count, false));
}

/// Allocations that are out at the same time never overlap: after any
/// number of steps of a history in which every release matches a grant, no
/// two of the allocations then out share a chunk.
pub proof fn lemma_live_allocations_are_apart(
    states: Seq<ChunkAllocatorView>,
    events: Seq<HeapEvent>,
    k: int,
    i: int,
    j: int,
)
    requires
        is_history(states, events),
        is_matched(events),
        states[0].chunk_size > 0,
        0 <= k <= events.len(),
        0 <= i < live_after(events, k).len(),
        0 <= j < live_after(events, k).len(),
        i != j,
    ensures
        apart(
            states[0].chunk_size as int,
            live_after(events, k)[i],
            live_after(events, k)[j],
        ),
{
    lemma_history_is_accounted(states, events, k);
    let live = live_after(events, k);
    let chunk_size = states[0].chunk_size as int;
    if i < j {
        assert(apart(chunk_size, live[i], live[j]));
    } else {
        assert(apart(chunk_size, live[j], live[i]));
    }
}

/// Once everything is back, the bitmap is back: a history in which every
/// release matches a grant, and which leaves no allocation out, ends in the
/// state it began in.
pub proof fn lemma_balanced_history_restores(
    states: Seq<ChunkAllocatorView>,
    events: Seq<HeapEvent>,
)
    requires
        is_history(states, events),
        is_matched(events),
        states[0].chunk_size > 0,
        live_after(events, events.len() as int).len() == 0,
    ensures
        states.last() == states[0],
{
    let n = events.len() as int;
    lemma_history_is_accounted(states, events, n);
    let origin = states[0];
    let end = states[n];
    let live = live_after(events, n);
    assert forall|chunk: int| 0 <= chunk < end.used.len() implies end.used[chunk]
        == origin.used[chunk] by {
        assert(!is_covered(origin.chunk_size as int, live, chunk));
    }
    assert(end.used =~= origin.used);
}

} // verus!
