//! Monotonic bump allocator: a cursor that only moves forward, plus a
//! counter of outstanding allocations. The whole heap is reclaimed in one
//! step when the counter returns to zero; nothing is reclaimed before.

use vstd::prelude::*;

verus! {

use crate::align::{spec_align_up, lemma_align_up_props, lemma_pow2_positive, align_up};
use vstd::arithmetic::power2::is_pow2;

pub struct BumpAllocator {
    pub heap_start: u64,
    pub heap_end: u64,
    pub next: u64,
    pub allocations: u64,
}

impl BumpAllocator {
    /// The cursor always stays inside the heap range.
    pub open spec fn wf(self) -> bool {
        self.heap_start <= self.next <= self.heap_end
    }

    pub fn new() -> (r: BumpAllocator)
        ensures
            r.heap_start == 0,
            r.heap_end == 0,
            r.next == 0,
            r.allocations == 0,
            r.wf(),
    {
        BumpAllocator { heap_start: 0, heap_end: 0, next: 0, allocations: 0 }
    }

    /// Hands the allocator its heap range, exactly once, before any
    /// allocation; the caller guarantees the range is reserved for it.
    pub fn init(&mut self, heap_start: u64, heap_size: u64)
        requires
            heap_start + heap_size <= u64::MAX,
        ensures
            final(self).heap_start == heap_start,
            final(self).heap_end == heap_start + heap_size,
            final(self).next == heap_start,
            final(self).allocations == old(self).allocations,
            final(self).wf(),
    {
        self.heap_start = heap_start;
        self.heap_end = heap_start + heap_size;
        self.next = heap_start;
    }
}

/// What one allocation request does to the state, and what it returns:
/// round the cursor up to the alignment, and advance it past the new block
/// when the block fits; on any failure (including address arithmetic that
/// would wrap) leave the state exactly as it was.
pub open spec fn bump_alloc_step(s: BumpAllocator, size: u64, align: u64) -> (BumpAllocator, Option<
    u64,
>)
    recommends
        s.wf(),
        align >= 1,
        s.allocations < u64::MAX,
{
    let a = spec_align_up(s.next as int, align as int);
    if a + size <= s.heap_end {
        (
            BumpAllocator {
                next: (a + size) as u64,
                allocations: (s.allocations + 1) as u64,
                ..s
            },
            Some(a as u64),
        )
    } else {
        (s, None)
    }
}

/// What one deallocation does: drop the counter; when it reaches zero the
/// cursor snaps back to the start of the heap, otherwise it stays put.
pub open spec fn bump_dealloc_step(s: BumpAllocator) -> BumpAllocator
    recommends
        s.allocations >= 1,
{
    let n = (s.allocations - 1) as u64;
    BumpAllocator { next: if n == 0 { s.heap_start } else { s.next }, allocations: n, ..s }
}

impl BumpAllocator {
    /// Returns the start of a fresh `size`-unit block aligned to `align`,
    /// or `None` when the request does not fit between the cursor and the
    /// end of the heap. A failed request changes nothing.
    pub fn allocate(&mut self, size: u64, align: u64) -> (r: Option<u64>)
        requires
            old(self).wf(),
            is_pow2(align as int),
            old(self).allocations < u64::MAX,
        ensures
            final(self).wf(),
            (*final(self), r) == bump_alloc_step(*old(self), size, align),
            r is None ==> *final(self) == *old(self),
            r matches Some(a) ==> {
                &&& a % align == 0
                &&& old(self).heap_start <= old(self).next <= a
                &&& a + size == final(self).next <= old(self).heap_end
                &&& final(self).allocations == old(self).allocations + 1
                &&& final(self).heap_start == old(self).heap_start
                &&& final(self).heap_end == old(self).heap_end
            },
    {
        proof {
            lemma_pow2_positive(align as int);
            lemma_align_up_props(self.next as int, align as int);
        }
        let alloc_start = match align_up(self.next, align) {
            Some(a) => a,
            None => {
                return None;
            },
        };
        let alloc_end = match alloc_start.checked_add(size) {
            Some(e) => e,
            None => {
                return None;
            },
        };
        if alloc_end > self.heap_end {
            None
        } else {
            self.next = alloc_end;
            self.allocations = self.allocations + 1;
            Some(alloc_start)
        }
    }

    /// Records that one block came back. The caller must not return more
    /// blocks than it was given; the address and layout play no part here.
    pub fn deallocate(&mut self, _ptr: u64, _size: u64, _align: u64)
        requires
            old(self).wf(),
            old(self).allocations >= 1,
        ensures
            final(self).wf(),
            *final(self) == bump_dealloc_step(*old(self)),
            final(self).allocations == old(self).allocations - 1,
            old(self).allocations == 1 ==> final(self).next == old(self).heap_start,
            old(self).allocations > 1 ==> final(self).next == old(self).next,
            final(self).heap_start == old(self).heap_start,
            final(self).heap_end == old(self).heap_end,
    {
        self.allocations = self.allocations - 1;
        if self.allocations == 0 {
            self.next = self.heap_start;
        }
    }
}

/// A whole run of allocation requests, in order: the state it ends in.
pub open spec fn bump_run(s: BumpAllocator, reqs: Seq<(u64, u64)>) -> BumpAllocator
    decreases reqs.len(),
{
    if reqs.len() == 0 {
        s
    } else {
        bump_run(bump_alloc_step(s, reqs[0].0, reqs[0].1).0, reqs.drop_first())
    }
}

/// The addresses the same run hands out, `None` where a request failed.
pub open spec fn bump_run_trace(s: BumpAllocator, reqs: Seq<(u64, u64)>) -> Seq<Option<u64>>
    decreases reqs.len(),
{
    if reqs.len() == 0 {
        Seq::empty()
    } else {
        seq![bump_alloc_step(s, reqs[0].0, reqs[0].1).1] + bump_run_trace(
            bump_alloc_step(s, reqs[0].0, reqs[0].1).0,
            reqs.drop_first(),
        )
    }
}

/// `n` deallocations in a row.
pub open spec fn bump_dealloc_n(s: BumpAllocator, n: nat) -> BumpAllocator
    decreases n,
{
    if n == 0 {
        s
    } else {
        bump_dealloc_n(bump_dealloc_step(s), (n - 1) as nat)
    }
}

/// A run of requests never moves the heap bounds, never moves the
/// cursor backwards, and raises the outstanding count by at most one
/// per request.
proof fn lemma_bump_run_frame(s: BumpAllocator, reqs: Seq<(u64, u64)>)
    requires
        s.wf(),
        forall|k: int| 0 <= k < reqs.len() ==> (#[trigger] reqs[k]).1 >= 1,
        s.allocations + reqs.len() <= u64::MAX,
    ensures
        bump_run(s, reqs).wf(),
        bump_run(s, reqs).heap_start == s.heap_start,
        bump_run(s, reqs).heap_end == s.heap_end,
        bump_run(s, reqs).next >= s.next,
        s.allocations <= bump_run(s, reqs).allocations <= s.allocations + reqs.len(),
    decreases reqs.len(),
{
    if reqs.len() > 0 {
        lemma_align_up_props(s.next as int, reqs[0].1 as int);
        let s1 = bump_alloc_step(s, reqs[0].0, reqs[0].1).0;
        lemma_bump_run_frame(s1, reqs.drop_first());
    }
}

/// Law: a bump deallocation resets the cursor only when it is the last
/// one outstanding. From any state, deallocating every outstanding
/// block puts the cursor back on the heap start; deallocating fewer
/// leaves it untouched.
pub proof fn lemma_bump_drain(s: BumpAllocator, k: nat)
    requires
        s.wf(),
    ensures
        s.allocations >= 1 ==> bump_dealloc_n(s, s.allocations as nat).next == s.heap_start,
        s.allocations >= 1 ==> bump_dealloc_n(s, s.allocations as nat).allocations == 0,
        k < s.allocations ==> bump_dealloc_n(s, k).next == s.next,
        k < s.allocations ==> bump_dealloc_n(s, k).allocations == s.allocations - k,
    decreases s.allocations,
{
    if s.allocations >= 1 {
        let s1 = bump_dealloc_step(s);
        if s.allocations == 1 {
            assert(bump_dealloc_n(s1, 0) == s1);
        } else {
            lemma_bump_drain(s1, if k >= 1 { (k - 1) as nat } else { 0 });
        }
    }
}

/// Law: matched deallocations reclaim the whole heap, partial ones
/// reclaim nothing. Run any allocation requests from a state with no
/// block outstanding: deallocating as many blocks as the run handed out
/// returns the cursor to the heap start, and any shorter run of
/// deallocations leaves the cursor exactly where the allocations put it.
pub proof fn lemma_bump_matched_deallocs_reset(s: BumpAllocator, reqs: Seq<(u64, u64)>, k: nat)
    requires
        s.wf(),
        s.allocations == 0,
        reqs.len() <= u64::MAX,
        forall|k2: int| 0 <= k2 < reqs.len() ==> (#[trigger] reqs[k2]).1 >= 1,
    ensures
        bump_run(s, reqs).allocations >= 1 ==> bump_dealloc_n(
            bump_run(s, reqs),
            bump_run(s, reqs).allocations as nat,
        ).next == s.heap_start,
        k < bump_run(s, reqs).allocations ==> bump_dealloc_n(bump_run(s, reqs), k).next
            == bump_run(s, reqs).next,
{
    lemma_bump_run_frame(s, reqs);
    lemma_bump_drain(bump_run(s, reqs), k);
}

/// Law: every address a run of bump allocations hands out is aligned
/// as requested and lies inside the heap, and the blocks of any two
/// successful requests do not overlap.
pub proof fn lemma_bump_blocks_disjoint(s: BumpAllocator, reqs: Seq<(u64, u64)>)
    requires
        s.wf(),
        forall|k: int| 0 <= k < reqs.len() ==> (#[trigger] reqs[k]).1 >= 1,
        s.allocations + reqs.len() <= u64::MAX,
    ensures
        bump_run_trace(s, reqs).len() == reqs.len(),
        forall|i: int|
            0 <= i < reqs.len() ==> ((#[trigger] bump_run_trace(s, reqs)[i]) matches Some(a) ==> {
                &&& (a as int) % (reqs[i].1 as int) == 0
                &&& s.heap_start <= s.next <= a
                &&& a + reqs[i].0 <= s.heap_end
            }),
        forall|i: int, j: int|
            0 <= i < j < reqs.len() ==> (((#[trigger] bump_run_trace(s, reqs)[i]), (
            #[trigger] bump_run_trace(s, reqs)[j])) matches (Some(a), Some(b)) ==> a + reqs[i].0
                <= b),
    decreases reqs.len(),
{
    if reqs.len() > 0 {
        let t = bump_run_trace(s, reqs);
        let step = bump_alloc_step(s, reqs[0].0, reqs[0].1);
        let s1 = step.0;
        let t1 = bump_run_trace(s1, reqs.drop_first());
        lemma_align_up_props(s.next as int, reqs[0].1 as int);
        lemma_bump_blocks_disjoint(s1, reqs.drop_first());
        assert(t == seq![step.1] + t1);
        assert forall|i: int| 0 < i < reqs.len() implies t[i] == t1[i - 1] && reqs[i]
            == reqs.drop_first()[i - 1] by {};
        assert forall|i: int|
            0 <= i < reqs.len() && (#[trigger] t[i]) is Some implies ({
            let a = t[i]->Some_0;
            &&& (a as int) % (reqs[i].1 as int) == 0
            &&& s.heap_start <= s.next <= a
            &&& a + reqs[i].0 <= s.heap_end
        }) by {
            if i > 0 {
                assert(t1[i - 1] matches Some(b) ==> s1.next <= b);
            }
        };
        assert forall|i: int, j: int|
            0 <= i < j < reqs.len() && ((#[trigger] t[i], #[trigger] t[j]) matches (
            Some(a),
            Some(b),
        )) implies (t[i]->Some_0 + reqs[i].0 <= t[j]->Some_0) by {
            if i == 0 {
                assert(s1.next == t[0]->Some_0 + reqs[0].0);
                assert(t1[j - 1] matches Some(b) ==> s1.next <= b);
            }
        };
    }
}

} // verus!
