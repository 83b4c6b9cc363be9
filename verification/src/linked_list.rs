//! Free-list allocator: an address-ordered list of free regions with
//! first-fit search and coalescing of address-adjacent neighbors.
//!
//! Each free region is a `(start, size)` entry in an ordered container,
//! kept sorted by start address; no two regions overlap, and no two
//! adjacent regions are ever left un-coalesced.

use vstd::prelude::*;

verus! {

use crate::align::{
    spec_align_up,
    lemma_align_up_props,
    lemma_aligned_multiple,
    lemma_pow2_divides,
    lemma_pow2_positive,
    align_up,
};
use vstd::arithmetic::power2::is_pow2;

/// Minimum size of a free region: a region must be able to hold the
/// bookkeeping node that describes it when the list lives inside the
/// freed memory itself.
pub const MIN_REGION_SIZE: u64 = 16;

/// Alignment that every free-region start must satisfy, for the same
/// reason.
pub const NODE_ALIGN: u64 = 8;

/// One free region: `size` units starting at address `start`.
#[derive(Clone, Copy, PartialEq, Eq, Structural, Debug)]
pub struct ListNode {
    pub start: u64,
    pub size: u64,
}

impl ListNode {
    /// One past the last address of the region.
    pub open spec fn end(self) -> int {
        self.start + self.size
    }

    /// Large enough to hold its own bookkeeping, aligned, and not
    /// wrapping the address space.
    pub open spec fn wf(self) -> bool {
        &&& self.size >= MIN_REGION_SIZE
        &&& self.start % NODE_ALIGN == 0
        &&& self.start + self.size <= u64::MAX
    }

    pub fn new(start: u64, size: u64) -> (r: ListNode)
        ensures
            r.start == start,
            r.size == size,
    {
        ListNode { start, size }
    }

    pub fn start_address(&self) -> (r: u64)
        ensures
            r == self.start,
    {
        self.start
    }

    pub fn end_address(&self) -> (r: u64)
        requires
            self.start + self.size <= u64::MAX,
        ensures
            r == self.end(),
    {
        self.start + self.size
    }
}

/// The free-list invariant: every region is well formed, and the regions
/// are sorted by start address with a gap between any two — touching
/// regions would have been coalesced, overlapping ones are corruption.
pub open spec fn wf_free_list(rs: Seq<ListNode>) -> bool {
    &&& forall|i: int| 0 <= i < rs.len() ==> (#[trigger] rs[i]).wf()
    &&& forall|i: int, j: int|
        0 <= i < j < rs.len() ==> (#[trigger] rs[i]).end() < (#[trigger] rs[j]).start
}

/// Address `a` lies in region `n`.
pub open spec fn covers(n: ListNode, a: int) -> bool {
    n.start <= a < n.end()
}

/// Address `a` lies in some free region.
pub open spec fn is_free(rs: Seq<ListNode>, a: int) -> bool {
    exists|i: int| 0 <= i < rs.len() && covers(#[trigger] rs[i], a)
}

/// Total number of free units on the list.
pub open spec fn total_free(rs: Seq<ListNode>) -> int
    decreases rs.len(),
{
    if rs.len() == 0 {
        0
    } else {
        rs[0].size + total_free(rs.drop_first())
    }
}

/// The half-open ranges `[n.start, n.end())` and `[addr, addr + size)`
/// share at least one address.
pub open spec fn overlaps(n: ListNode, addr: int, size: int) -> bool {
    n.start < addr + size && addr < n.end()
}

/// Some region on the list overlaps `[addr, addr + size)`.
pub open spec fn overlaps_list(rs: Seq<ListNode>, addr: int, size: int) -> bool {
    exists|i: int| 0 <= i < rs.len() && overlaps(#[trigger] rs[i], addr, size)
}

/// A region handed back to the list must be aligned, at least the minimum
/// size, and must not wrap the address space; anything else is a fatal
/// misuse of the allocator.
pub open spec fn valid_free_region(addr: int, size: int) -> bool {
    &&& addr % (NODE_ALIGN as int) == 0
    &&& size >= MIN_REGION_SIZE
    &&& addr + size <= u64::MAX
}

#[derive(Clone, Copy, PartialEq, Eq, Structural, Debug)]
pub enum AllocError {
    /// A region handed back to the list overlaps one that is already
    /// free: a double free or corrupted bookkeeping. Fatal — no further
    /// bookkeeping can be trusted.
    CorruptionDetected,
    /// A region handed back to the list is misaligned, below the minimum
    /// size, or wraps the address space. Fatal at the detection site.
    PreconditionViolation,
}

/// Everything `add_free_region` promises: it rejects malformed regions,
/// detects any overlap with memory that is already free, and otherwise
/// adds exactly the handed-back range to the free memory, preserving the
/// invariant (so adjacent regions end up merged).
pub open spec fn add_free_region_post(
    pre: Seq<ListNode>,
    post: Seq<ListNode>,
    addr: int,
    size: int,
    r: Result<(), AllocError>,
) -> bool {
    &&& wf_free_list(post)
    &&& (r == Err::<(), AllocError>(AllocError::PreconditionViolation) <==> !valid_free_region(
        addr,
        size,
    ))
    &&& (r == Err::<(), AllocError>(AllocError::CorruptionDetected) <==> valid_free_region(
        addr,
        size,
    ) && overlaps_list(pre, addr, size))
    &&& (r is Err ==> post == pre)
    &&& (r is Ok ==> {
        &&& forall|a: int|
            #![trigger is_free(post, a)]
            #![trigger is_free(pre, a)]
            is_free(post, a) <==> (is_free(pre, a) || (addr <= a < addr + size))
        &&& total_free(post) == total_free(pre) + size
    })
}

proof fn lemma_total_free_concat(s1: Seq<ListNode>, s2: Seq<ListNode>)
    ensures
        total_free(s1 + s2) == total_free(s1) + total_free(s2),
    decreases s1.len(),
{
    if s1.len() == 0 {
        assert(s1 + s2 =~= s2);
    } else {
        assert((s1 + s2).drop_first() =~= s1.drop_first() + s2);
        lemma_total_free_concat(s1.drop_first(), s2);
    }
}

proof fn lemma_free_concat(s1: Seq<ListNode>, s2: Seq<ListNode>)
    ensures
        forall|a: int|
            #![trigger is_free(s1 + s2, a)]
            is_free(s1 + s2, a) <==> (is_free(s1, a) || is_free(s2, a)),
{
    assert forall|a: int| is_free(s1 + s2, a) implies (is_free(s1, a) || is_free(s2, a)) by {
        let i = choose|i: int| 0 <= i < (s1 + s2).len() && covers(#[trigger] (s1 + s2)[i], a);
        if i < s1.len() {
            assert(covers(s1[i], a));
        } else {
            assert(covers(s2[i - s1.len()], a));
        }
    };
    assert forall|a: int| (is_free(s1, a) || is_free(s2, a)) implies is_free(s1 + s2, a) by {
        if is_free(s1, a) {
            let i = choose|i: int| 0 <= i < s1.len() && covers(#[trigger] s1[i], a);
            assert(covers((s1 + s2)[i], a));
        } else {
            let i = choose|i: int| 0 <= i < s2.len() && covers(#[trigger] s2[i], a);
            assert(covers((s1 + s2)[i + s1.len()], a));
        }
    };
}

/// Replacing the regions `pre[lo..hi]` by one node whose range is exactly
/// theirs together with `[addr, addr + size)` adds exactly that range to
/// the free memory, and exactly `size` units to the total.
proof fn lemma_cover_replace(
    pre: Seq<ListNode>,
    post: Seq<ListNode>,
    lo: int,
    hi: int,
    node: ListNode,
    addr: int,
    size: int,
)
    requires
        0 <= lo <= hi <= pre.len(),
        post == pre.subrange(0, lo) + seq![node] + pre.subrange(hi, pre.len() as int),
        forall|a: int|
            #![trigger covers(node, a)]
            #![trigger is_free(pre.subrange(lo, hi), a)]
            covers(node, a) <==> ((addr <= a < addr + size) || is_free(pre.subrange(lo, hi), a)),
        node.size == size + total_free(pre.subrange(lo, hi)),
    ensures
        forall|a: int|
            #![trigger is_free(post, a)]
            #![trigger is_free(pre, a)]
            is_free(post, a) <==> (is_free(pre, a) || (addr <= a < addr + size)),
        total_free(post) == total_free(pre) + size,
{
    let front = pre.subrange(0, lo);
    let mid = pre.subrange(lo, hi);
    let back = pre.subrange(hi, pre.len() as int);
    assert(pre =~= front + mid + back);
    lemma_total_free_concat(front + mid, back);
    lemma_total_free_concat(front, mid);
    assert(front + mid + back =~= (front + mid) + back);
    lemma_total_free_concat(front + seq![node], back);
    lemma_total_free_concat(front, seq![node]);
    assert(post =~= (front + seq![node]) + back);
    assert(total_free(seq![node]) == node.size + total_free(seq![node].drop_first()));
    assert(seq![node].drop_first() =~= Seq::<ListNode>::empty());

    lemma_free_concat(front + mid, back);
    lemma_free_concat(front, mid);
    lemma_free_concat(front + seq![node], back);
    lemma_free_concat(front, seq![node]);
    assert forall|a: int| is_free(post, a) <==> (is_free(pre, a) || (addr <= a < addr + size)) by {
        assert(is_free(post, a) == is_free((front + seq![node]) + back, a));
        assert(is_free(pre, a) == is_free((front + mid) + back, a));
        assert(is_free(seq![node], a) <==> covers(node, a)) by {
            if is_free(seq![node], a) {
                let i = choose|i: int| 0 <= i < 1 && covers(#[trigger] seq![node][i], a);
                assert(covers(node, a));
            }
            if covers(node, a) {
                assert(covers(seq![node][0], a));
            }
        };
    };
}

proof fn lemma_total_free_small(s: Seq<ListNode>)
    requires
        s.len() <= 2,
    ensures
        s.len() == 0 ==> total_free(s) == 0,
        s.len() == 1 ==> total_free(s) == s[0].size,
        s.len() == 2 ==> total_free(s) == s[0].size + s[1].size,
{
    if s.len() == 1 {
        assert(total_free(s.drop_first()) == 0);
    } else if s.len() == 2 {
        let d = s.drop_first();
        assert(d[0] == s[1] && d.len() == 1);
        assert(total_free(d) == d[0].size + total_free(d.drop_first()));
        assert(total_free(d.drop_first()) == 0);
    }
}

/// Replacing `pre[lo..hi]` by one well-formed node that keeps a gap to
/// both neighbors preserves the free-list invariant.
proof fn lemma_wf_replace(pre: Seq<ListNode>, post: Seq<ListNode>, lo: int, hi: int, node: ListNode)
    requires
        wf_free_list(pre),
        0 <= lo <= hi <= pre.len(),
        post == pre.subrange(0, lo) + seq![node] + pre.subrange(hi, pre.len() as int),
        node.wf(),
        lo > 0 ==> pre[lo - 1].end() < node.start,
        hi < pre.len() ==> node.end() < pre[hi].start,
    ensures
        wf_free_list(post),
{
    let shift = hi - lo;
    assert(post.len() == pre.len() - shift + 1);
    assert forall|i: int| 0 <= i < post.len() implies (#[trigger] post[i]).wf() by {
        if i < lo {
            assert(post[i] == pre[i]);
        } else if i == lo {
            assert(post[i] == node);
        } else {
            assert(post[i] == pre[i + shift - 1]);
        }
    };
    assert forall|i: int, j: int| 0 <= i < j < post.len() implies (#[trigger] post[i]).end() < (
    #[trigger] post[j]).start by {
        if j < lo {
            assert(post[i] == pre[i] && post[j] == pre[j]);
        } else if j == lo {
            assert(post[i] == pre[i] && post[j] == node);
            if i < lo - 1 {
                assert(pre[i].end() < pre[lo - 1].start);
                assert(pre[lo - 1].wf());
            }
        } else {
            let jj = j + shift - 1;
            assert(post[j] == pre[jj] && hi <= jj < pre.len());
            if i < lo {
                assert(post[i] == pre[i]);
                assert(pre[i].end() < pre[jj].start);
            } else if i == lo {
                assert(post[i] == node);
                if jj > hi {
                    assert(pre[hi].end() < pre[jj].start);
                    assert(pre[hi].wf());
                }
            } else {
                assert(post[i] == pre[i + shift - 1]);
                assert(pre[i + shift - 1].end() < pre[jj].start);
            }
        }
    };
}

/// Removing a region from a well-formed list keeps it well formed.
proof fn lemma_wf_remove(rs: Seq<ListNode>, i: int)
    requires
        wf_free_list(rs),
        0 <= i < rs.len(),
    ensures
        wf_free_list(rs.remove(i)),
{
    let post = rs.remove(i);
    assert forall|p: int| 0 <= p < post.len() implies (#[trigger] post[p]).wf() by {
        if p < i {
            assert(post[p] == rs[p]);
        } else {
            assert(post[p] == rs[p + 1]);
        }
    };
    assert forall|p: int, q: int| 0 <= p < q < post.len() implies (#[trigger] post[p]).end() < (
    #[trigger] post[q]).start by {
        let pp: int = if p < i { p } else { p + 1 };
        let qq: int = if q < i { q } else { q + 1 };
        assert(post[p] == rs[pp] && post[q] == rs[qq]);
        assert(rs[pp].end() < rs[qq].start);
    };
}

/// Removing a region from a well-formed list frees exactly that
/// region's addresses no longer; the other regions are untouched.
proof fn lemma_free_remove(rs: Seq<ListNode>, i: int)
    requires
        wf_free_list(rs),
        0 <= i < rs.len(),
    ensures
        forall|x: int|
            #![trigger is_free(rs.remove(i), x)]
            is_free(rs.remove(i), x) <==> (is_free(rs, x) && !covers(rs[i], x)),
        total_free(rs.remove(i)) == total_free(rs) - rs[i].size,
{
    let post = rs.remove(i);
    assert forall|x: int| is_free(post, x) implies (is_free(rs, x) && !covers(rs[i], x)) by {
        let p = choose|p: int| 0 <= p < post.len() && covers(#[trigger] post[p], x);
        let pp: int = if p < i { p } else { p + 1 };
        assert(post[p] == rs[pp]);
        assert(covers(rs[pp], x));
        if pp < i {
            assert(rs[pp].end() < rs[i].start);
        } else {
            assert(rs[i].end() < rs[pp].start);
        }
    };
    assert forall|x: int| (is_free(rs, x) && !covers(rs[i], x)) implies is_free(post, x) by {
        let p = choose|p: int| 0 <= p < rs.len() && covers(#[trigger] rs[p], x);
        if p < i {
            assert(covers(post[p], x));
        } else {
            assert(p > i);
            assert(covers(post[p - 1], x));
        }
    };
    let front = rs.subrange(0, i);
    let mid = rs.subrange(i, i + 1);
    let back = rs.subrange(i + 1, rs.len() as int);
    assert(rs =~= (front + mid) + back);
    assert(post =~= front + back);
    lemma_total_free_concat(front + mid, back);
    lemma_total_free_concat(front, mid);
    lemma_total_free_concat(front, back);
    lemma_total_free_small(mid);
}

/// Two well-formed free lists that cover exactly the same addresses are
/// the same list: the sort order and the coalescing invariant make the
/// representation canonical.
pub proof fn lemma_cover_determines_list(rs1: Seq<ListNode>, rs2: Seq<ListNode>)
    requires
        wf_free_list(rs1),
        wf_free_list(rs2),
        forall|a: int|
            #![trigger is_free(rs1, a)]
            #![trigger is_free(rs2, a)]
            is_free(rs1, a) <==> is_free(rs2, a),
    ensures
        rs1 == rs2,
    decreases rs1.len(),
{
    if rs1.len() == 0 {
        if rs2.len() > 0 {
            assert(rs2[0].wf());
            assert(covers(rs2[0], rs2[0].start as int));
            assert(is_free(rs2, rs2[0].start as int));
            assert(false);
        }
        assert(rs1 =~= rs2);
    } else if rs2.len() == 0 {
        assert(rs1[0].wf());
        assert(covers(rs1[0], rs1[0].start as int));
        assert(is_free(rs1, rs1[0].start as int));
        assert(false);
    } else {
        let h1 = rs1[0];
        let h2 = rs2[0];
        assert(h1.wf() && h2.wf());
        // The two heads begin at the least free address.
        assert(covers(h1, h1.start as int));
        assert(is_free(rs2, h1.start as int));
        let i2 = choose|i: int| 0 <= i < rs2.len() && covers(#[trigger] rs2[i], h1.start as int);
        if i2 > 0 {
            assert(rs2[0].end() < rs2[i2].start);
        }
        assert(h2.start <= h1.start);
        assert(covers(h2, h2.start as int));
        assert(is_free(rs1, h2.start as int));
        let i1 = choose|i: int| 0 <= i < rs1.len() && covers(#[trigger] rs1[i], h2.start as int);
        if i1 > 0 {
            assert(rs1[0].end() < rs1[i1].start);
        }
        assert(h1.start == h2.start);
        // And they end where the contiguous free run ends.
        if h1.end() < h2.end() {
            assert(covers(h2, h1.end()));
            assert(is_free(rs1, h1.end()));
            let i = choose|i: int| 0 <= i < rs1.len() && covers(#[trigger] rs1[i], h1.end());
            assert(i > 0);
            assert(rs1[0].end() < rs1[i].start);
            assert(false);
        }
        if h2.end() < h1.end() {
            assert(covers(h1, h2.end()));
            assert(is_free(rs2, h2.end()));
            let i = choose|i: int| 0 <= i < rs2.len() && covers(#[trigger] rs2[i], h2.end());
            assert(i > 0);
            assert(rs2[0].end() < rs2[i].start);
            assert(false);
        }
        assert(h1 == h2);
        let d1 = rs1.drop_first();
        let d2 = rs2.drop_first();
        assert forall|k: int| 0 <= k < d1.len() implies (#[trigger] d1[k]) == rs1[k + 1] by {};
        assert forall|k: int| 0 <= k < d2.len() implies (#[trigger] d2[k]) == rs2[k + 1] by {};
        assert(wf_free_list(d1)) by {
            assert forall|p: int, q: int| 0 <= p < q < d1.len() implies (#[trigger] d1[p]).end()
                < (#[trigger] d1[q]).start by {
                assert(rs1[p + 1].end() < rs1[q + 1].start);
            };
        };
        assert(wf_free_list(d2)) by {
            assert forall|p: int, q: int| 0 <= p < q < d2.len() implies (#[trigger] d2[p]).end()
                < (#[trigger] d2[q]).start by {
                assert(rs2[p + 1].end() < rs2[q + 1].start);
            };
        };
        assert(rs1.remove(0) =~= d1);
        assert(rs2.remove(0) =~= d2);
        lemma_free_remove(rs1, 0);
        lemma_free_remove(rs2, 0);
        assert forall|a: int|
            #![trigger is_free(d1, a)]
            #![trigger is_free(d2, a)]
            is_free(d1, a) <==> is_free(d2, a) by {
            assert(is_free(d1, a) == is_free(rs1.remove(0), a));
            assert(is_free(d2, a) == is_free(rs2.remove(0), a));
        };
        lemma_cover_determines_list(d1, d2);
        assert forall|k: int| 0 <= k < rs1.len() implies rs1[k] == rs2[k] by {
            if k > 0 {
                assert(d1[k - 1] == rs1[k]);
                assert(d2[k - 1] == rs2[k]);
            }
        };
        assert(rs1 =~= rs2);
    }
}

/// The padded request layout: the allocator rounds every request up so
/// that any freed block is later acceptable as a free region.
pub open spec fn norm_align(align: int) -> int {
    if align < NODE_ALIGN as int {
        NODE_ALIGN as int
    } else {
        align
    }
}

pub open spec fn norm_size(size: int, align: int) -> int {
    let padded = spec_align_up(size, norm_align(align));
    if padded < MIN_REGION_SIZE as int {
        MIN_REGION_SIZE as int
    } else {
        padded
    }
}

/// The first-fit test: the block fits behind the aligned start of the
/// region, and the leftover tail is either empty or big enough to stand
/// as a free region of its own — an unusably small fragment must never
/// be carved off.
pub open spec fn region_fits(n: ListNode, size: int, align: int) -> bool {
    let a = spec_align_up(n.start as int, align);
    &&& a + size <= n.end()
    &&& (n.end() - (a + size) == 0 || n.end() - (a + size) >= MIN_REGION_SIZE as int)
}

/// Everything `allocate` promises. On failure nothing changes and no
/// region could have fit the padded request. On success the address is
/// the aligned start of the first region that fits; that region's
/// memory up to the block's end stops being free (an aligned gap at the
/// region's front, if any, is discarded with it) and everything else,
/// the region's leftover tail included, stays free.
pub open spec fn alloc_post(
    pre: Seq<ListNode>,
    post: Seq<ListNode>,
    size: u64,
    align: u64,
    r: Option<u64>,
) -> bool {
    let nsize = norm_size(size as int, align as int);
    let nalign = norm_align(align as int);
    &&& wf_free_list(post)
    &&& (r is None ==> post == pre && (forall|i: int|
        0 <= i < pre.len() ==> !region_fits(#[trigger] pre[i], nsize, nalign)))
    &&& (r matches Some(a) ==> exists|i: int|
        #![trigger pre[i]]
        {
            &&& 0 <= i < pre.len()
            &&& region_fits(pre[i], nsize, nalign)
            &&& (forall|j: int| 0 <= j < i ==> !region_fits(#[trigger] pre[j], nsize, nalign))
            &&& a == spec_align_up(pre[i].start as int, nalign)
            &&& (a as int) % nalign == 0
            &&& pre[i].start <= a && a + nsize <= pre[i].end()
            &&& (forall|x: int|
                #![trigger is_free(post, x)]
                #![trigger is_free(pre, x)]
                is_free(post, x) <==> (is_free(pre, x) && !(pre[i].start <= x < a + nsize)))
            &&& total_free(post) == total_free(pre) - (a + nsize - pre[i].start)
        })
}

pub struct LinkedListAllocator {
    pub regions: Vec<ListNode>,
}

impl LinkedListAllocator {
    pub open spec fn wf(self) -> bool {
        wf_free_list(self.regions@)
    }

    pub fn new() -> (r: LinkedListAllocator)
        ensures
            r.regions@ === Seq::<ListNode>::empty(),
            r.wf(),
    {
        LinkedListAllocator { regions: Vec::new() }
    }

    /// Gives a freed (or fresh) range back to the list: walks to its
    /// place in address order, refuses malformed ranges and any overlap
    /// with memory that is already free, and merges with the regions
    /// that touch it on either side.
    #[verifier::rlimit(100)]
    pub fn add_free_region(&mut self, addr: u64, size: u64) -> (r: Result<(), AllocError>)
        requires
            old(self).wf(),
        ensures
            final(self).wf(),
            add_free_region_post(old(self).regions@, final(self).regions@, addr as int, size as int, r),
    {
        let ghost pre = self.regions@;
        if addr % NODE_ALIGN != 0 || size < MIN_REGION_SIZE {
            return Err(AllocError::PreconditionViolation);
        }
        let end = match addr.checked_add(size) {
            Some(e) => e,
            None => {
                return Err(AllocError::PreconditionViolation);
            },
        };
        assert(valid_free_region(addr as int, size as int));

        // Walk to the first region at or above `addr`.
        let mut idx: usize = 0;
        while idx < self.regions.len() && self.regions[idx].start < addr
            invariant
                self.regions@ == pre,
                0 <= idx <= pre.len(),
                forall|k: int| 0 <= k < idx ==> (#[trigger] pre[k]).start < addr,
            decreases pre.len() - idx,
        {
            idx += 1;
        }
        let ghost lo = idx as int;
        assert(lo < pre.len() ==> pre[lo].start >= addr);
        assert forall|k: int| lo <= k < pre.len() implies (#[trigger] pre[k]).start >= addr by {
            if k > lo {
                assert(pre[lo].end() < pre[k].start);
                assert(pre[lo].wf());
            }
        };

        // Any overlap with a neighbor is corruption; by the sort order no
        // other region can overlap either.
        if idx > 0 {
            let prev = self.regions[idx - 1];
            assert(prev.wf());
            if prev.start + prev.size > addr {
                assert(overlaps(pre[lo - 1], addr as int, size as int));
                return Err(AllocError::CorruptionDetected);
            }
        }
        if idx < self.regions.len() {
            let nxt = self.regions[idx];
            assert(nxt.wf());
            if end > nxt.start {
                assert(overlaps(pre[lo], addr as int, size as int));
                return Err(AllocError::CorruptionDetected);
            }
        }
        assert forall|i: int| 0 <= i < pre.len() implies !overlaps(
            #[trigger] pre[i],
            addr as int,
            size as int,
        ) by {
            assert(pre[i].wf());
            if i < lo - 1 {
                assert(pre[i].end() < pre[lo - 1].start);
                assert(pre[lo - 1].wf());
            } else if i > lo {
                assert(pre[lo].end() < pre[i].start);
                assert(pre[lo].wf());
            }
        };
        assert(!overlaps_list(pre, addr as int, size as int));

        // Coalesce with the neighbors that touch the new region.
        let back = idx > 0 && self.regions[idx - 1].start + self.regions[idx - 1].size == addr;
        let fwd = idx < self.regions.len() && end == self.regions[idx].start;
        let mut node = ListNode { start: addr, size };
        if fwd {
            let nxt = self.regions[idx];
            node.size = node.size + nxt.size;
            self.regions.remove(idx);
        }
        if back {
            let prev = self.regions[idx - 1];
            self.regions[idx - 1] = ListNode { start: prev.start, size: prev.size + node.size };
        } else {
            self.regions.insert(idx, node);
        }

        proof {
            let post = self.regions@;
            let hi: int = if fwd { lo + 1 } else { lo };
            let mlo: int = if back { lo - 1 } else { lo };
            let merged = post[mlo];
            let mid = pre.subrange(mlo, hi);
            assert(post =~= pre.subrange(0, mlo) + seq![merged] + pre.subrange(hi, pre.len() as int));
            lemma_total_free_small(mid);
            assert(back ==> pre[lo - 1].end() == addr);
            assert(fwd ==> pre[lo].start == addr + size);
            assert(merged.size == size as int + total_free(mid)) by {
                if back && fwd {
                    assert(mid =~= seq![pre[lo - 1], pre[lo]]);
                    lemma_total_free_small(mid);
                } else if back {
                    assert(mid =~= seq![pre[lo - 1]]);
                } else if fwd {
                    assert(mid =~= seq![pre[lo]]);
                }
            };
            assert(merged.wf()) by {
                if back {
                    assert(pre[lo - 1].wf());
                }
                if fwd {
                    assert(pre[lo].wf());
                }
            };
            assert forall|a: int|
                covers(merged, a) <==> ((addr <= a < addr + size) || is_free(mid, a)) by {
                if is_free(mid, a) {
                    let i = choose|i: int| 0 <= i < mid.len() && covers(#[trigger] mid[i], a);
                    assert(mid[i] == pre[mlo + i]);
                }
                if covers(merged, a) && !(addr <= a < addr + size) {
                    if a < addr {
                        assert(back);
                        assert(covers(mid[0], a));
                    } else {
                        assert(fwd);
                        assert(covers(mid[mid.len() - 1], a));
                    }
                }
            };
            lemma_wf_replace(pre, post, mlo, hi, merged);
            lemma_cover_replace(pre, post, mlo, hi, merged, addr as int, size as int);
        }
        Ok(())
    }

    /// Hands the allocator its heap range, exactly once, before any
    /// allocation; the caller guarantees the range is reserved for it,
    /// aligned, and big enough for the region bookkeeping.
    pub fn init(&mut self, heap_start: u64, heap_size: u64)
        requires
            old(self).regions@.len() == 0,
            valid_free_region(heap_start as int, heap_size as int),
        ensures
            final(self).wf(),
            final(self).regions@ == seq![ListNode { start: heap_start, size: heap_size }],
    {
        let ghost pre = self.regions@;
        let r = self.add_free_region(heap_start, heap_size);
        proof {
            assert(!overlaps_list(pre, heap_start as int, heap_size as int));
            match r {
                Ok(()) => {},
                Err(AllocError::PreconditionViolation) => {
                    assert(false);
                },
                Err(AllocError::CorruptionDetected) => {
                    assert(false);
                },
            }
            assert(r is Ok);
            let node = ListNode { start: heap_start, size: heap_size };
            let one = seq![node];
            assert(wf_free_list(one)) by {
                assert(one[0].wf());
            };
            assert forall|a: int|
                #![trigger is_free(self.regions@, a)]
                #![trigger is_free(one, a)]
                is_free(self.regions@, a) <==> is_free(one, a) by {
                assert(is_free(one, a) <==> covers(node, a)) by {
                    if is_free(one, a) {
                        let i = choose|i: int| 0 <= i < one.len() && covers(#[trigger] one[i], a);
                        assert(covers(node, a));
                    }
                    if covers(node, a) {
                        assert(covers(one[0], a));
                    }
                };
            };
            lemma_cover_determines_list(self.regions@, one);
        }
    }

    /// Pads a request so that any block handed out can later stand as a
    /// free region: the alignment is raised to the node alignment, the
    /// size is rounded up to a multiple of the alignment and to the
    /// minimum region size. `None` when the padded size no longer fits
    /// in `u64`.
    pub fn size_align(size: u64, align: u64) -> (r: Option<(u64, u64)>)
        requires
            align >= 1,
        ensures
            r matches Some(p) ==> p.0 == norm_size(size as int, align as int) && p.1 == norm_align(
                align as int,
            ),
            r is None <==> norm_size(size as int, align as int) > u64::MAX,
    {
        let a = if align < NODE_ALIGN {
            NODE_ALIGN
        } else {
            align
        };
        match align_up(size, a) {
            Some(p) => {
                let s = if p < MIN_REGION_SIZE {
                    MIN_REGION_SIZE
                } else {
                    p
                };
                Some((s, a))
            },
            None => None,
        }
    }

    /// Checks whether `region` can serve a padded request, and where the
    /// block would start. Errs exactly when the block does not fit, or
    /// fits only by leaving a tail fragment too small to be a region.
    pub fn alloc_from_region(region: &ListNode, size: u64, align: u64) -> (r: Result<u64, ()>)
        requires
            region.wf(),
            align >= 1,
        ensures
            r matches Ok(a) ==> region_fits(*region, size as int, align as int) && a
                == spec_align_up(region.start as int, align as int),
            r is Err <==> !region_fits(*region, size as int, align as int),
    {
        let alloc_start = match align_up(region.start_address(), align) {
            Some(a) => a,
            None => {
                return Err(());
            },
        };
        let alloc_end = match alloc_start.checked_add(size) {
            Some(e) => e,
            None => {
                return Err(());
            },
        };
        let region_end = region.end_address();
        if alloc_end > region_end {
            return Err(());
        }
        let excess = region_end - alloc_end;
        if excess > 0 && excess < MIN_REGION_SIZE {
            return Err(());
        }
        Ok(alloc_start)
    }

    /// First-fit search: scans the regions in address order, splices the
    /// first one that can serve the padded request out of the list, and
    /// returns it with the aligned block start.
    pub fn find_region(&mut self, size: u64, align: u64) -> (r: Option<(ListNode, u64)>)
        requires
            old(self).wf(),
            align >= 1,
        ensures
            final(self).wf(),
            r is None ==> final(self).regions@ == old(self).regions@ && (forall|i: int|
                0 <= i < old(self).regions@.len() ==> !region_fits(
                    #[trigger] old(self).regions@[i],
                    size as int,
                    align as int,
                )),
            r matches Some((n, a)) ==> exists|i: int|
                #![trigger old(self).regions@[i]]
                {
                    &&& 0 <= i < old(self).regions@.len()
                    &&& old(self).regions@[i] == n
                    &&& region_fits(n, size as int, align as int)
                    &&& (forall|j: int|
                        0 <= j < i ==> !region_fits(
                            #[trigger] old(self).regions@[j],
                            size as int,
                            align as int,
                        ))
                    &&& a == spec_align_up(n.start as int, align as int)
                    &&& final(self).regions@ == old(self).regions@.remove(i)
                },
    {
        let ghost pre = self.regions@;
        let mut idx: usize = 0;
        while idx < self.regions.len()
            invariant
                self.regions@ == pre,
                pre == old(self).regions@,
                wf_free_list(pre),
                align >= 1,
                0 <= idx <= pre.len(),
                forall|k: int|
                    0 <= k < idx ==> !region_fits(#[trigger] pre[k], size as int, align as int),
            decreases pre.len() - idx,
        {
            let region = self.regions[idx];
            assert(region.wf());
            match Self::alloc_from_region(&region, size, align) {
                Ok(alloc_start) => {
                    let node = self.regions.remove(idx);
                    proof {
                        lemma_wf_remove(pre, idx as int);
                        assert(0 <= (idx as int) && (idx as int) < pre.len() && pre[idx as int] == node
                            && region_fits(node, size as int, align as int) && (forall|j: int|
                            0 <= j < idx as int ==> !region_fits(
                                #[trigger] pre[j],
                                size as int,
                                align as int,
                            )) && alloc_start == spec_align_up(node.start as int, align as int)
                            && self.regions@ == pre.remove(idx as int));
                        assert(old(self).regions@[idx as int] == node);
                        assert(self.regions@ == old(self).regions@.remove(idx as int));
                    }
                    return Some((node, alloc_start));
                },
                Err(()) => {
                    idx += 1;
                },
            }
        }
        None
    }

    /// Returns the start of a block for the padded request, carved out
    /// of the first free region that fits; the region's leftover tail,
    /// if any, goes straight back on the list. `None` when nothing fits.
    #[verifier::rlimit(100)]
    pub fn allocate(&mut self, size: u64, align: u64) -> (r: Option<u64>)
        requires
            old(self).wf(),
            is_pow2(align as int),
        ensures
            final(self).wf(),
            alloc_post(old(self).regions@, final(self).regions@, size, align, r),
    {
        let ghost pre = self.regions@;
        let ghost nsize_s = norm_size(size as int, align as int);
        let ghost nalign_s = norm_align(align as int);
        proof {
            lemma_pow2_positive(align as int);
        }
        let pair = match Self::size_align(size, align) {
            Some(p) => p,
            None => {
                proof {
                    assert forall|i: int| 0 <= i < pre.len() implies !region_fits(
                        #[trigger] pre[i],
                        nsize_s,
                        nalign_s,
                    ) by {
                        assert(pre[i].wf());
                        lemma_align_up_props(pre[i].start as int, nalign_s);
                    };
                }
                return None;
            },
        };
        let (nsize, nalign) = pair;
        proof {
            assert(is_pow2(NODE_ALIGN as int)) by {
                reveal_with_fuel(is_pow2, 5);
            };
            assert(is_pow2(nalign as int)) by {
                reveal_with_fuel(is_pow2, 5);
            };
            lemma_pow2_divides(NODE_ALIGN as int, nalign as int);
            assert((nsize as int) % (NODE_ALIGN as int) == 0) by {
                lemma_align_up_props(size as int, nalign as int);
                if spec_align_up(size as int, nalign as int) >= MIN_REGION_SIZE as int {
                    lemma_aligned_multiple(nsize as int, nalign as int, NODE_ALIGN as int);
                }
            };
        }
        match self.find_region(nsize, nalign) {
            Some((region, alloc_start)) => {
                let ghost mid = self.regions@;
                let ghost i = choose|i: int|
                    #![trigger pre[i]]
                    {
                        &&& 0 <= i < pre.len()
                        &&& pre[i] == region
                        &&& region_fits(region, nsize as int, nalign as int)
                        &&& (forall|j: int|
                            0 <= j < i ==> !region_fits(
                                #[trigger] pre[j],
                                nsize as int,
                                nalign as int,
                            ))
                        &&& alloc_start == spec_align_up(region.start as int, nalign as int)
                        &&& mid == pre.remove(i)
                    };
                proof {
                    assert(pre[i].wf());
                    lemma_align_up_props(region.start as int, nalign as int);
                    lemma_aligned_multiple(alloc_start as int, nalign as int, NODE_ALIGN as int);
                    lemma_free_remove(pre, i);
                }
                let alloc_end = alloc_start + nsize;
                let region_end = region.end_address();
                let excess = region_end - alloc_end;
                proof {
                    vstd::arithmetic::div_mod::lemma_add_mod_noop(
                        alloc_start as int,
                        nsize as int,
                        NODE_ALIGN as int,
                    );
                    assert((alloc_end as int) % (NODE_ALIGN as int) == 0);
                }
                if excess > 0 {
                    proof {
                        assert(valid_free_region(alloc_end as int, excess as int));
                        assert forall|k: int| 0 <= k < mid.len() implies !overlaps(
                            #[trigger] mid[k],
                            alloc_end as int,
                            excess as int,
                        ) by {
                            let kk: int = if k < i {
                                k
                            } else {
                                k + 1
                            };
                            assert(mid[k] == pre[kk]);
                            if kk < i {
                                assert(pre[kk].end() < pre[i].start);
                            } else {
                                assert(pre[i].end() < pre[kk].start);
                            }
                        };
                        assert(!overlaps_list(mid, alloc_end as int, excess as int));
                    }
                    let res = self.add_free_region(alloc_end, excess);
                    match res {
                        Ok(()) => {},
                        Err(AllocError::PreconditionViolation) => {
                            proof {
                                assert(false);
                            }
                        },
                        Err(AllocError::CorruptionDetected) => {
                            proof {
                                assert(false);
                            }
                        },
                    }
                }
                proof {
                    let post = self.regions@;
                    assert forall|x: int|
                        #![trigger is_free(post, x)]
                        #![trigger is_free(pre, x)]
                        is_free(post, x) <==> (is_free(pre, x) && !(pre[i].start <= x
                            < alloc_start + nsize)) by {
                        assert(covers(region, x) == (region.start <= x < region.end()));
                    };
                    assert(total_free(post) == total_free(pre) - (alloc_start + nsize
                        - pre[i].start));
                    assert(old(self).regions@[i] == region);
                    assert(alloc_post(old(self).regions@, post, size, align, Some(alloc_start)));
                }
                Some(alloc_start)
            },
            None => None,
        }
    }

    /// Gives a block back: pads `(size, align)` exactly as `allocate`
    /// padded them — the caller must pass the layout it allocated with —
    /// and returns the block's range to the free list, where it merges
    /// with any region it touches. Overlap with free memory is reported
    /// as corruption.
    pub fn deallocate(&mut self, ptr: u64, size: u64, align: u64) -> (r: Result<(), AllocError>)
        requires
            old(self).wf(),
            is_pow2(align as int),
            norm_size(size as int, align as int) <= u64::MAX,
        ensures
            final(self).wf(),
            add_free_region_post(
                old(self).regions@,
                final(self).regions@,
                ptr as int,
                norm_size(size as int, align as int),
                r,
            ),
    {
        proof {
            lemma_pow2_positive(align as int);
        }
        match Self::size_align(size, align) {
            Some(pair) => self.add_free_region(ptr, pair.0),
            None => {
                proof {
                    assert(false);
                }
                Err(AllocError::PreconditionViolation)
            },
        }
    }
}

/// Law (round trip): allocate a block, then free it with the layout it
/// was allocated with, and the free list is exactly what it was. Stated
/// for alignments up to the node alignment: a larger alignment can make
/// the allocator discard unusable padding at a region's front, which no
/// deallocation brings back.
pub proof fn lemma_round_trip(
    pre: Seq<ListNode>,
    mid: Seq<ListNode>,
    post: Seq<ListNode>,
    size: u64,
    align: u64,
    a: u64,
    r: Result<(), AllocError>,
)
    requires
        wf_free_list(pre),
        align >= 1,
        align <= NODE_ALIGN,
        alloc_post(pre, mid, size, align, Some(a)),
        add_free_region_post(mid, post, a as int, norm_size(size as int, align as int), r),
    ensures
        r is Ok,
        post == pre,
{
    let nsize = norm_size(size as int, align as int);
    let nalign = norm_align(align as int);
    let i = choose|i: int|
        #![trigger pre[i]]
        {
            &&& 0 <= i < pre.len()
            &&& region_fits(pre[i], nsize, nalign)
            &&& (forall|j: int| 0 <= j < i ==> !region_fits(#[trigger] pre[j], nsize, nalign))
            &&& a == spec_align_up(pre[i].start as int, nalign)
            &&& (a as int) % nalign == 0
            &&& pre[i].start <= a && a + nsize <= pre[i].end()
            &&& (forall|x: int|
                #![trigger is_free(mid, x)]
                #![trigger is_free(pre, x)]
                is_free(mid, x) <==> (is_free(pre, x) && !(pre[i].start <= x < a + nsize)))
            &&& total_free(mid) == total_free(pre) - (a + nsize - pre[i].start)
        };
    assert(pre[i].wf());
    // The region start is node-aligned and the requested alignment does
    // not exceed it, so no front padding was discarded: a == pre[i].start.
    assert(a == pre[i].start);
    assert(valid_free_region(a as int, nsize));
    assert forall|k: int| 0 <= k < mid.len() implies !overlaps(#[trigger] mid[k], a as int, nsize) by {
        if overlaps(mid[k], a as int, nsize) {
            assert(mid[k].wf());
            let x: int = if mid[k].start > a { mid[k].start as int } else { a as int };
            assert(covers(mid[k], x));
            assert(is_free(mid, x));
            assert(pre[i].start <= x < a + nsize);
            assert(false);
        }
    };
    assert(!overlaps_list(mid, a as int, nsize));
    match r {
        Ok(()) => {},
        Err(AllocError::PreconditionViolation) => {
            assert(false);
        },
        Err(AllocError::CorruptionDetected) => {
            assert(false);
        },
    }
    assert(r is Ok);
    assert forall|x: int|
        #![trigger is_free(post, x)]
        #![trigger is_free(pre, x)]
        is_free(post, x) <==> is_free(pre, x) by {
        if a as int <= x < a + nsize {
            assert(covers(pre[i], x));
            assert(is_free(pre, x));
        }
        assert(is_free(post, x) <==> (is_free(mid, x) || (a as int <= x < a + nsize)));
    };
    lemma_cover_determines_list(post, pre);
}

/// Law (exact-fit reuse): free a block and allocate with the layout it
/// was allocated with — the allocator hands back the same address.
/// Alignments up to the node alignment, as in the round-trip law.
pub proof fn lemma_exact_fit_reuse(
    pre: Seq<ListNode>,
    mid: Seq<ListNode>,
    post: Seq<ListNode>,
    fin: Seq<ListNode>,
    size: u64,
    align: u64,
    a: u64,
    rd: Result<(), AllocError>,
    r2: Option<u64>,
)
    requires
        wf_free_list(pre),
        align >= 1,
        align <= NODE_ALIGN,
        alloc_post(pre, mid, size, align, Some(a)),
        add_free_region_post(mid, post, a as int, norm_size(size as int, align as int), rd),
        alloc_post(post, fin, size, align, r2),
    ensures
        r2 == Some(a),
{
    lemma_round_trip(pre, mid, post, size, align, a, rd);
    let nsize = norm_size(size as int, align as int);
    let nalign = norm_align(align as int);
    let i = choose|i: int|
        #![trigger pre[i]]
        {
            &&& 0 <= i < pre.len()
            &&& region_fits(pre[i], nsize, nalign)
            &&& (forall|j: int| 0 <= j < i ==> !region_fits(#[trigger] pre[j], nsize, nalign))
            &&& a == spec_align_up(pre[i].start as int, nalign)
        };
    if r2 is None {
        assert(!region_fits(post[i], nsize, nalign));
        assert(false);
    }
    let b = r2->Some_0;
    let i2 = choose|i2: int|
        #![trigger post[i2]]
        {
            &&& 0 <= i2 < post.len()
            &&& region_fits(post[i2], nsize, nalign)
            &&& (forall|j: int| 0 <= j < i2 ==> !region_fits(#[trigger] post[j], nsize, nalign))
            &&& b == spec_align_up(post[i2].start as int, nalign)
        };
    // First fit is unique: the two witnesses are the same index.
    if i2 < i {
        assert(!region_fits(pre[i2], nsize, nalign));
        assert(false);
    }
    if i < i2 {
        assert(!region_fits(post[i], nsize, nalign));
        assert(false);
    }
}

/// Law: a contiguous run of free addresses always lies inside a single
/// free region — the list never leaves a run split across regions.
pub proof fn lemma_contiguous_run_one_region(rs: Seq<ListNode>, lo: int, hi: int)
    requires
        wf_free_list(rs),
        lo < hi,
        forall|x: int| lo <= x < hi ==> is_free(rs, x),
    ensures
        exists|i: int|
            0 <= i < rs.len() && (#[trigger] rs[i]).start <= lo && hi <= rs[i].end(),
{
    assert(is_free(rs, lo));
    let i = choose|i: int| 0 <= i < rs.len() && covers(#[trigger] rs[i], lo);
    if rs[i].end() < hi {
        let x0 = rs[i].end();
        assert(lo <= x0 < hi);
        assert(is_free(rs, x0));
        let j = choose|j: int| 0 <= j < rs.len() && covers(#[trigger] rs[j], x0);
        if j < i {
            assert(rs[j].end() < rs[i].start);
        } else if j > i {
            assert(rs[i].end() < rs[j].start);
        }
        assert(false);
    }
}

/// Law: freeing two blocks that touch each other leaves one single free
/// region holding both, so a later request larger than either block but
/// no larger than their joint size can still be served from it.
pub proof fn lemma_adjacent_frees_merge(
    s0: Seq<ListNode>,
    s1: Seq<ListNode>,
    s2: Seq<ListNode>,
    addr1: u64,
    size1: u64,
    addr2: u64,
    size2: u64,
)
    requires
        add_free_region_post(s0, s1, addr1 as int, size1 as int, Ok(())),
        add_free_region_post(s1, s2, addr2 as int, size2 as int, Ok(())),
        addr2 == addr1 + size1,
    ensures
        exists|i: int|
            0 <= i < s2.len() && (#[trigger] s2[i]).start <= addr1 && addr1 + size1 + size2
                <= s2[i].end(),
{
    assert(valid_free_region(addr1 as int, size1 as int));
    assert(valid_free_region(addr2 as int, size2 as int));
    assert forall|x: int| addr1 <= x < addr1 + size1 + size2 implies is_free(s2, x) by {
        if x < addr2 {
            assert(is_free(s1, x));
        }
    };
    lemma_contiguous_run_one_region(s2, addr1 as int, addr1 + size1 + size2);
}

/// One handed-out block: a start address and a padded size.
pub open spec fn block_not_free(rs: Seq<ListNode>, b: (u64, u64)) -> bool {
    forall|x: int| b.0 <= x < b.0 + b.1 ==> !is_free(rs, x)
}

pub open spec fn blocks_disjoint(b1: (u64, u64), b2: (u64, u64)) -> bool {
    b1.0 + b1.1 <= b2.0 || b2.0 + b2.1 <= b1.0
}

/// The blocks handed out so far: all nonempty, none of them on free
/// memory, no two of them overlapping.
pub open spec fn live_blocks_ok(live: Seq<(u64, u64)>, rs: Seq<ListNode>) -> bool {
    &&& forall|k: int| 0 <= k < live.len() ==> (#[trigger] live[k]).1 >= 1
    &&& forall|k: int| 0 <= k < live.len() ==> block_not_free(rs, #[trigger] live[k])
    &&& forall|k: int, l: int|
        0 <= k < l < live.len() ==> blocks_disjoint(#[trigger] live[k], #[trigger] live[l])
}

/// Law (allocation safety): a block `allocate` hands out was free
/// memory, honors the padded alignment, and joins the live blocks
/// without overlapping any of them or the memory that stays free — so
/// along any run of allocations, all live blocks stay disjoint.
pub proof fn lemma_allocate_keeps_blocks_disjoint(
    pre: Seq<ListNode>,
    post: Seq<ListNode>,
    live: Seq<(u64, u64)>,
    size: u64,
    align: u64,
    a: u64,
)
    requires
        wf_free_list(pre),
        live_blocks_ok(live, pre),
        alloc_post(pre, post, size, align, Some(a)),
    ensures
        live_blocks_ok(live.push((a, norm_size(size as int, align as int) as u64)), post),
        (a as int) % norm_align(align as int) == 0,
        forall|x: int| a <= x < a + norm_size(size as int, align as int) ==> is_free(pre, x),
{
    let nsize = norm_size(size as int, align as int);
    let nalign = norm_align(align as int);
    let i = choose|i: int|
        #![trigger pre[i]]
        {
            &&& 0 <= i < pre.len()
            &&& region_fits(pre[i], nsize, nalign)
            &&& a == spec_align_up(pre[i].start as int, nalign)
            &&& (a as int) % nalign == 0
            &&& pre[i].start <= a && a + nsize <= pre[i].end()
            &&& (forall|x: int|
                #![trigger is_free(post, x)]
                #![trigger is_free(pre, x)]
                is_free(post, x) <==> (is_free(pre, x) && !(pre[i].start <= x < a + nsize)))
        };
    assert(pre[i].wf());
    assert forall|x: int| a <= x < a + nsize implies is_free(pre, x) by {
        assert(covers(pre[i], x));
    };
    let nb = (a, nsize as u64);
    let live2 = live.push(nb);
    assert(nsize >= MIN_REGION_SIZE as int);
    assert forall|k: int| 0 <= k < live2.len() implies block_not_free(post, #[trigger] live2[k]) by {
        if k < live.len() {
            assert(live2[k] == live[k]);
            assert(block_not_free(pre, live[k]));
            assert forall|x: int| live[k].0 <= x < live[k].0 + live[k].1 implies !is_free(
                post,
                x,
            ) by {};
        } else {
            assert(live2[k] == nb);
            assert forall|x: int| nb.0 <= x < nb.0 + nb.1 implies !is_free(post, x) by {
                assert(pre[i].start <= x < a + nsize);
            };
        }
    };
    assert forall|k: int, l: int| 0 <= k < l < live2.len() implies blocks_disjoint(
        #[trigger] live2[k],
        #[trigger] live2[l],
    ) by {
        if l < live.len() {
            assert(live2[k] == live[k] && live2[l] == live[l]);
        } else {
            assert(live2[k] == live[k] && live2[l] == nb);
            if !blocks_disjoint(live[k], nb) {
                let x: int = if live[k].0 > a {
                    live[k].0 as int
                } else {
                    a as int
                };
                assert(a <= x < a + nsize);
                assert(is_free(pre, x));
                assert(live[k].0 <= x < live[k].0 + live[k].1);
                assert(block_not_free(pre, live[k]));
                assert(false);
            }
        }
    };
}

/// Every address of block `b` is free memory in `rs`.
pub open spec fn block_all_free(rs: Seq<ListNode>, b: (u64, u64)) -> bool {
    forall|x: int| b.0 <= x < b.0 + b.1 ==> is_free(rs, x)
}

/// The blocks a run of allocations hands out, paired with their padded
/// sizes.
pub open spec fn blocks_of(reqs: Seq<(u64, u64)>, outs: Seq<u64>) -> Seq<(u64, u64)> {
    Seq::new(reqs.len(), |k: int| (outs[k], norm_size(reqs[k].0 as int, reqs[k].1 as int) as u64))
}

/// Law: over any chain of successful allocations, every block handed
/// out was free at the start of the run, and all the blocks — together
/// with the memory still free at the end — are pairwise disjoint.
pub proof fn lemma_allocation_run_disjoint(
    states: Seq<Seq<ListNode>>,
    reqs: Seq<(u64, u64)>,
    outs: Seq<u64>,
)
    requires
        states.len() == reqs.len() + 1,
        outs.len() == reqs.len(),
        wf_free_list(states[0]),
        forall|k: int|
            0 <= k < reqs.len() ==> alloc_post(
                #[trigger] states[k],
                states[k + 1],
                reqs[k].0,
                reqs[k].1,
                Some(outs[k]),
            ),
    ensures
        live_blocks_ok(blocks_of(reqs, outs), states[reqs.len() as int]),
        forall|x: int|
            #![trigger is_free(states[reqs.len() as int], x)]
            is_free(states[reqs.len() as int], x) ==> is_free(states[0], x),
        forall|k: int|
            0 <= k < reqs.len() ==> block_all_free(states[0], #[trigger] blocks_of(reqs, outs)[k]),
    decreases reqs.len(),
{
    let n = reqs.len() as int;
    let blocks = blocks_of(reqs, outs);
    if n == 0 {
        assert(blocks.len() == 0);
    } else {
        let states_s = states.subrange(0, n);
        let reqs_s = reqs.subrange(0, n - 1);
        let outs_s = outs.subrange(0, n - 1);
        let blocks_s = blocks_of(reqs_s, outs_s);
        assert forall|k: int|
            0 <= k < reqs_s.len() implies alloc_post(
            #[trigger] states_s[k],
            states_s[k + 1],
            reqs_s[k].0,
            reqs_s[k].1,
            Some(outs_s[k]),
        ) by {
            assert(states_s[k] == states[k] && states_s[k + 1] == states[k + 1]);
        };
        lemma_allocation_run_disjoint(states_s, reqs_s, outs_s);

        let pre = states[n - 1];
        let post = states[n];
        let size = reqs[n - 1].0;
        let align = reqs[n - 1].1;
        let a = outs[n - 1];
        assert(alloc_post(pre, post, size, align, Some(a)));
        assert(wf_free_list(pre)) by {
            if n - 1 > 0 {
                assert(alloc_post(states[n - 2], states[n - 1], reqs[n - 2].0, reqs[n - 2].1, Some(
                    outs[n - 2],
                )));
            }
        };
        assert(states_s[reqs_s.len() as int] == pre);
        lemma_allocate_keeps_blocks_disjoint(pre, post, blocks_s, size, align, a);
        let nb = (a, norm_size(size as int, align as int) as u64);
        assert(blocks =~= blocks_s.push(nb));

        // Free memory only ever shrinks along the chain.
        let i = choose|i: int|
            #![trigger pre[i]]
            {
                &&& 0 <= i < pre.len()
                &&& (forall|x: int|
                    #![trigger is_free(post, x)]
                    #![trigger is_free(pre, x)]
                    is_free(post, x) <==> (is_free(pre, x) && !(pre[i].start <= x < a + norm_size(
                        size as int,
                        align as int,
                    ))))
            };
        assert forall|x: int| is_free(post, x) implies is_free(states[0], x) by {
            assert(is_free(pre, x));
            assert(is_free(states_s[reqs_s.len() as int], x));
        };
        assert forall|k: int| 0 <= k < n implies block_all_free(
            states[0],
            #[trigger] blocks[k],
        ) by {
            if k < n - 1 {
                assert(blocks[k] == blocks_s[k]);
                assert(block_all_free(states_s[0], blocks_s[k]));
                assert(states_s[0] == states[0]);
            } else {
                assert(blocks[k] == nb);
                assert forall|x: int| nb.0 <= x < nb.0 + nb.1 implies is_free(states[0], x) by {
                    assert(is_free(pre, x));
                    assert(is_free(states_s[reqs_s.len() as int], x));
                };
            }
        };
    }
}

} // verus!
