//! A double-ended early-boot allocator over one fixed address range
//! `[start, end)`: a byte arena grows upward from `start`, a page arena
//! grows downward from `end`, and the gap between the two cursors is the
//! space still available. Byte blocks are never reclaimed individually and
//! page blocks are never reclaimed at all; the whole allocator is simply
//! discarded once a richer allocator takes over.

use vstd::prelude::*;
use vstd::arithmetic::power2::{is_pow2, pow2, lemma_pow2_unfold, lemma_pow2_strictly_increases};
use vstd::arithmetic::div_mod::{lemma_fundamental_div_mod, lemma_mod_division_less_than_divisor,
    lemma_div_multiples_vanish, lemma_div_is_ordered};
use crate::align::{spec_align_up, spec_align_down, align_up, align_down, is_power_of_two,
    lemma_pow2_positive, lemma_align_down_bounds};

verus! {

/// The two ways a request can fail: it was malformed or out of contract
/// (`InvalidParam`), or the remaining space cannot satisfy it (`NoMemory`).
#[derive(Clone, Copy, Debug, PartialEq, Eq, Structural)]
pub enum AllocError {
    InvalidParam,
    NoMemory,
}

/// Early memory allocator, to be used before the regular byte and page
/// allocators can work. It hands out byte blocks from the low end of its
/// range and page blocks from the high end:
///
/// ```text
/// [ bytes-used | avail-area | pages-used ]
/// |            | -->    <-- |            |
/// start       b_pos        p_pos       end
/// ```
///
/// `count` tracks outstanding byte allocations for diagnostics only; no
/// allocation decision ever depends on it.
pub struct EarlyAllocator<const PAGE: usize> {
    start: usize,
    end: usize,
    b_pos: usize,
    p_pos: usize,
    count: usize,
}

impl<const PAGE: usize> EarlyAllocator<PAGE> {
    /// The page granularity this allocator serves pages in.
    pub fn page_size(&self) -> (r: usize)
        ensures
            r == PAGE,
    {
        PAGE
    }

    /// Lower bound of the managed region (inclusive).
    pub closed spec fn spec_start(self) -> int {
        self.start as int
    }

    /// Upper bound of the managed region (exclusive).
    pub closed spec fn spec_end(self) -> int {
        self.end as int
    }

    /// Next free address of the byte arena; grows upward.
    pub closed spec fn spec_b_pos(self) -> int {
        self.b_pos as int
    }

    /// Next free address of the page arena; grows downward.
    pub closed spec fn spec_p_pos(self) -> int {
        self.p_pos as int
    }

    /// Diagnostic count of outstanding byte allocations.
    pub closed spec fn spec_count(self) -> int {
        self.count as int
    }

    /// The allocator accepts requests only once a region has been installed.
    /// Every region a completed `init` installs is non-empty, so its upper
    /// bound is nonzero; a fresh allocator has `end == 0`.
    pub open spec fn initialized(self) -> bool {
        self.spec_end() != 0
    }

    /// Once initialized, the two cursors lie inside the region and never
    /// cross: `start <= b_pos <= p_pos <= end`.
    pub open spec fn wf(self) -> bool {
        self.initialized() ==> (self.spec_start() <= self.spec_b_pos()
            && self.spec_b_pos() <= self.spec_p_pos() && self.spec_p_pos() <= self.spec_end())
    }

    /// Creates a fresh, uninitialized allocator.
    pub fn new() -> (r: Self)
        ensures
            !r.initialized(),
            r.wf(),
            r.spec_start() == 0,
            r.spec_end() == 0,
            r.spec_b_pos() == 0,
            r.spec_p_pos() == 0,
            r.spec_count() == 0,
    {
        EarlyAllocator { start: 0, end: 0, b_pos: 0, p_pos: 0, count: 0 }
    }

    /// Reports whether a region has been installed.
    pub fn is_initialized(&self) -> (r: bool)
        ensures
            r == self.initialized(),
    {
        self.end != 0
    }

    /// Installs the managed region `[start, start + size)` and resets both
    /// cursors. The range must be non-empty and must not wrap the address
    /// space.
    pub fn init(&mut self, start: usize, size: usize)
        requires
            size > 0,
            start + size <= usize::MAX,
        ensures
            final(self).spec_start() == start,
            final(self).spec_end() == start + size,
            final(self).spec_b_pos() == start,
            final(self).spec_p_pos() == start + size,
            final(self).spec_count() == 0,
            final(self).wf(),
    {
        let end = start + size;
        self.start = start;
        self.end = end;
        self.b_pos = start;
        self.p_pos = end;
        self.count = 0;
    }

    /// The allocator manages a single contiguous region fixed at
    /// initialization; extending it is unsupported by design.
    pub fn add_memory(&mut self, _start: usize, _size: usize) -> (r: Result<(), AllocError>)
        ensures
            r == Err::<(), AllocError>(AllocError::InvalidParam),
            *final(self) == *old(self),
    {
        Err(AllocError::InvalidParam)
    }

    /// A byte request is well-formed when the allocator is initialized, the
    /// size is nonzero and the alignment is a power of two.
    pub open spec fn byte_params_ok(self, size: usize, align: usize) -> bool {
        self.initialized() && size != 0 && is_pow2(align as int)
    }

    /// A byte request fits when the rounded-up cursor plus the size stays at
    /// or below the page arena's current frontier.
    pub open spec fn byte_alloc_fits(self, size: usize, align: usize) -> bool {
        spec_align_up(self.spec_b_pos(), align as int) + size <= self.spec_p_pos()
    }

    /// Everything a successful byte allocation guarantees: the returned
    /// address is the byte cursor rounded up to `align`, it is aligned, it
    /// lies inside the region, the block ends at the new byte cursor at or
    /// below the page frontier, and nothing but the byte cursor and the
    /// diagnostic count moves.
    pub open spec fn byte_alloc_post(
        pre: Self,
        post: Self,
        size: usize,
        align: usize,
        a: usize,
    ) -> bool {
        &&& pre.byte_params_ok(size, align)
        &&& a == spec_align_up(pre.spec_b_pos(), align as int)
        &&& a as int % align as int == 0
        &&& pre.spec_start() <= pre.spec_b_pos() <= a < pre.spec_b_pos() + align
        &&& post.spec_b_pos() == a + size
        &&& a + size <= pre.spec_p_pos()
        &&& post.spec_start() == pre.spec_start()
        &&& post.spec_end() == pre.spec_end()
        &&& post.spec_p_pos() == pre.spec_p_pos()
        &&& post.spec_count() == vstd::wrapping::usize_specs::wrapping_add(
            pre.spec_count() as usize,
            1,
        )
    }

    /// Allocates `size` bytes aligned to `align` from the byte arena. On
    /// success the byte cursor advances past the new block; on failure
    /// nothing changes. A request that does not fit now can never fit later,
    /// because the page frontier only moves downward.
    pub fn alloc_bytes(&mut self, size: usize, align: usize) -> (r: Result<usize, AllocError>)
        requires
            old(self).wf(),
        ensures
            final(self).wf(),
            r matches Ok(a) ==> Self::byte_alloc_post(*old(self), *final(self), size, align, a),
            r is Ok <==> (old(self).byte_params_ok(size, align) && old(self).byte_alloc_fits(
                size,
                align,
            )),
            r == Err::<usize, AllocError>(AllocError::InvalidParam) <==> !old(self).byte_params_ok(
                size,
                align,
            ),
            r == Err::<usize, AllocError>(AllocError::NoMemory) <==> (old(self).byte_params_ok(
                size,
                align,
            ) && !old(self).byte_alloc_fits(size, align)),
            !(r is Ok) ==> *final(self) == *old(self),
    {
        if !self.is_initialized() {
            return Err(AllocError::InvalidParam);
        }
        if size == 0 {
            return Err(AllocError::InvalidParam);
        }
        if !is_power_of_two(align) {
            return Err(AllocError::InvalidParam);
        }
        proof {
            lemma_pow2_positive(align as int);
        }
        let rem = self.b_pos % align;
        if rem != 0 && align - rem > usize::MAX - self.b_pos {
            // Even rounding the cursor up would wrap the address space, so
            // the block cannot end at or below the page frontier.
            return Err(AllocError::NoMemory);
        }
        let aligned = align_up(self.b_pos, align);
        let new_b_pos = match aligned.checked_add(size) {
            Some(n) => n,
            None => {
                return Err(AllocError::NoMemory);
            },
        };
        if new_b_pos > self.p_pos {
            return Err(AllocError::NoMemory);
        }
        self.b_pos = new_b_pos;
        self.count = self.count.wrapping_add(1);
        Ok(aligned)
    }

    /// Releases a byte block: the diagnostic count drops (clamped at zero),
    /// but the byte arena never shrinks — a deliberate bump-allocator
    /// policy, not an oversight.
    pub fn dealloc(&mut self, _pos: usize, _size: usize, _align: usize)
        ensures
            final(self).spec_start() == old(self).spec_start(),
            final(self).spec_end() == old(self).spec_end(),
            final(self).spec_b_pos() == old(self).spec_b_pos(),
            final(self).spec_p_pos() == old(self).spec_p_pos(),
            final(self).spec_count() == if !old(self).initialized() {
                old(self).spec_count()
            } else if old(self).spec_count() > 0 {
                old(self).spec_count() - 1
            } else {
                0
            },
    {
        if !self.is_initialized() {
            return;
        }
        if self.count > 0 {
            self.count = self.count - 1;
        }
    }

    /// Size of the whole managed region, or 0 before initialization.
    pub open spec fn spec_total_bytes(self) -> int {
        if self.initialized() {
            self.spec_end() - self.spec_start()
        } else {
            0
        }
    }

    /// Bytes handed out by the byte arena, or 0 before initialization.
    pub open spec fn spec_used_bytes(self) -> int {
        if self.initialized() {
            self.spec_b_pos() - self.spec_start()
        } else {
            0
        }
    }

    /// Bytes in the gap between the two arenas, or 0 before initialization.
    pub open spec fn spec_available_bytes(self) -> int {
        if self.initialized() {
            self.spec_p_pos() - self.spec_b_pos()
        } else {
            0
        }
    }

    /// Size of the managed region in bytes.
    pub fn total_bytes(&self) -> (r: usize)
        requires
            self.wf(),
        ensures
            r == self.spec_total_bytes(),
    {
        if !self.is_initialized() {
            return 0;
        }
        self.end - self.start
    }

    /// Bytes currently handed out by the byte arena.
    pub fn used_bytes(&self) -> (r: usize)
        requires
            self.wf(),
        ensures
            r == self.spec_used_bytes(),
    {
        if !self.is_initialized() {
            return 0;
        }
        self.b_pos - self.start
    }

    /// Bytes still free between the byte and page arenas.
    pub fn available_bytes(&self) -> (r: usize)
        requires
            self.wf(),
        ensures
            r == self.spec_available_bytes(),
    {
        if !self.is_initialized() {
            return 0;
        }
        self.p_pos - self.b_pos
    }

    /// The alignment a page request is served with: `2^align_pow2`, but at
    /// least `PAGE`.
    pub open spec fn spec_page_align(align_pow2: usize) -> int {
        if pow2(align_pow2 as nat) >= PAGE as nat {
            pow2(align_pow2 as nat) as int
        } else {
            PAGE as int
        }
    }

    /// A page request is well-formed when the allocator is initialized, the
    /// page count is nonzero, `2^align_pow2` does not overflow, and the
    /// effective alignment is a power of two.
    pub open spec fn page_params_ok(self, num_pages: usize, align_pow2: usize) -> bool {
        &&& self.initialized()
        &&& num_pages != 0
        &&& pow2(align_pow2 as nat) <= usize::MAX
        &&& is_pow2(Self::spec_page_align(align_pow2))
    }

    /// A page request fits when the page frontier, moved down by the
    /// request's size and rounded down to the effective alignment, stays at
    /// or above both the byte cursor and the region's lower bound.
    pub open spec fn page_alloc_fits(self, num_pages: usize, align_pow2: usize) -> bool {
        let size = num_pages * PAGE;
        let aligned = spec_align_down(self.spec_p_pos() - size, Self::spec_page_align(align_pow2));
        &&& size <= usize::MAX
        &&& size <= self.spec_p_pos()
        &&& aligned >= self.spec_b_pos()
        &&& aligned >= self.spec_start()
    }

    /// Everything a successful page allocation guarantees: the returned
    /// address is the page frontier minus the request's size, rounded down
    /// to the effective alignment; it is so aligned, lies between the byte
    /// cursor and the old frontier, becomes the new frontier, and nothing
    /// else moves.
    pub open spec fn page_alloc_post(
        pre: Self,
        post: Self,
        num_pages: usize,
        align_pow2: usize,
        a: usize,
    ) -> bool {
        &&& pre.page_params_ok(num_pages, align_pow2)
        &&& a == spec_align_down(
            pre.spec_p_pos() - num_pages * PAGE,
            Self::spec_page_align(align_pow2),
        )
        &&& a as int % Self::spec_page_align(align_pow2) == 0
        &&& pre.spec_start() <= a
        &&& pre.spec_b_pos() <= a
        &&& a + num_pages * PAGE <= pre.spec_p_pos()
        &&& post.spec_p_pos() == a
        &&& post.spec_start() == pre.spec_start()
        &&& post.spec_end() == pre.spec_end()
        &&& post.spec_b_pos() == pre.spec_b_pos()
        &&& post.spec_count() == pre.spec_count()
    }

    /// Allocates `num_pages` pages aligned to `max(2^align_pow2, PAGE)`
    /// from the page arena, which grows downward from the region's end. On
    /// success the page frontier moves down to the returned address; on
    /// failure nothing changes.
    #[verifier::loop_isolation(false)]
    pub fn alloc_pages(&mut self, num_pages: usize, align_pow2: usize) -> (r: Result<
        usize,
        AllocError,
    >)
        requires
            old(self).wf(),
        ensures
            final(self).wf(),
            r matches Ok(a) ==> Self::page_alloc_post(
                *old(self),
                *final(self),
                num_pages,
                align_pow2,
                a,
            ),
            r is Ok <==> (old(self).page_params_ok(num_pages, align_pow2) && old(
                self,
            ).page_alloc_fits(num_pages, align_pow2)),
            r == Err::<usize, AllocError>(AllocError::InvalidParam) <==> !old(self).page_params_ok(
                num_pages,
                align_pow2,
            ),
            r == Err::<usize, AllocError>(AllocError::NoMemory) <==> (old(self).page_params_ok(
                num_pages,
                align_pow2,
            ) && !old(self).page_alloc_fits(num_pages, align_pow2)),
            !(r is Ok) ==> *final(self) == *old(self),
    {
        if !self.is_initialized() {
            return Err(AllocError::InvalidParam);
        }
        if num_pages == 0 {
            return Err(AllocError::InvalidParam);
        }
        // Compute 2^align_pow2, treating overflow as an invalid alignment.
        let mut shifted: usize = 1;
        let mut i: usize = 0;
        proof {
            vstd::arithmetic::power2::lemma2_to64();
        }
        while i < align_pow2
            invariant
                i <= align_pow2,
                shifted == pow2(i as nat),
            decreases align_pow2 - i,
        {
            if shifted > usize::MAX / 2 {
                proof {
                    lemma_pow2_unfold((i + 1) as nat);
                    if i + 1 < align_pow2 {
                        lemma_pow2_strictly_increases((i + 1) as nat, align_pow2 as nat);
                    }
                }
                return Err(AllocError::InvalidParam);
            }
            shifted = shifted * 2;
            i = i + 1;
            proof {
                lemma_pow2_unfold(i as nat);
            }
        }
        let align = if shifted < PAGE {
            PAGE
        } else {
            shifted
        };
        if !is_power_of_two(align) {
            return Err(AllocError::InvalidParam);
        }
        let size = match num_pages.checked_mul(PAGE) {
            Some(s) => s,
            None => {
                return Err(AllocError::NoMemory);
            },
        };
        let start_addr = match self.p_pos.checked_sub(size) {
            Some(s) => s,
            None => {
                return Err(AllocError::NoMemory);
            },
        };
        let aligned = align_down(start_addr, align);
        if aligned >= self.b_pos && aligned >= self.start {
            self.p_pos = aligned;
            Ok(aligned)
        } else {
            Err(AllocError::NoMemory)
        }
    }

    /// Page allocations are never returned to the arena; releasing pages is
    /// a no-op by design.
    pub fn dealloc_pages(&mut self, _pos: usize, _num_pages: usize)
        ensures
            *final(self) == *old(self),
    {
    }

    /// Pages in the whole managed region.
    pub open spec fn spec_total_pages(self) -> int {
        self.spec_total_bytes() / PAGE as int
    }

    /// Pages handed out by the page arena.
    pub open spec fn spec_used_pages(self) -> int {
        if self.initialized() {
            (self.spec_end() - self.spec_p_pos()) / PAGE as int
        } else {
            0
        }
    }

    /// Whole pages that still fit in the gap between the arenas.
    pub open spec fn spec_available_pages(self) -> int {
        self.spec_available_bytes() / PAGE as int
    }

    /// Size of the managed region in whole pages.
    pub fn total_pages(&self) -> (r: usize)
        requires
            self.wf(),
            PAGE > 0,
        ensures
            r == self.spec_total_pages(),
    {
        if !self.is_initialized() {
            return 0;
        }
        self.total_bytes() / PAGE
    }

    /// Pages currently handed out by the page arena.
    pub fn used_pages(&self) -> (r: usize)
        requires
            self.wf(),
            PAGE > 0,
        ensures
            r == self.spec_used_pages(),
    {
        if !self.is_initialized() {
            return 0;
        }
        (self.end - self.p_pos) / PAGE
    }

    /// Whole pages that still fit between the byte and page arenas: the
    /// available bytes rounded down to the page granularity, in pages.
    pub fn available_pages(&self) -> (r: usize)
        requires
            self.wf(),
            PAGE > 0,
        ensures
            r == self.spec_available_pages(),
    {
        if !self.is_initialized() {
            return 0;
        }
        let avail = self.available_bytes();
        proof {
            lemma_align_down_bounds(avail as int, PAGE as int);
        }
        let rounded = avail - avail % PAGE;
        rounded / PAGE
    }

    /// Law: two byte allocations that succeed one after the other return
    /// blocks that do not overlap — the first ends at or before the second
    /// begins.
    pub proof fn lemma_byte_allocs_disjoint(
        s0: Self,
        s1: Self,
        s2: Self,
        size1: usize,
        align1: usize,
        a1: usize,
        size2: usize,
        align2: usize,
        a2: usize,
    )
        requires
            Self::byte_alloc_post(s0, s1, size1, align1, a1),
            Self::byte_alloc_post(s1, s2, size2, align2, a2),
        ensures
            a1 + size1 <= a2,
    {
    }

    /// Law: two page allocations that succeed one after the other return
    /// blocks that do not overlap — the second ends at or before the first
    /// begins, since the page arena grows downward.
    pub proof fn lemma_page_allocs_disjoint(
        s0: Self,
        s1: Self,
        s2: Self,
        num1: usize,
        pow1: usize,
        a1: usize,
        num2: usize,
        pow2_: usize,
        a2: usize,
    )
        requires
            Self::page_alloc_post(s0, s1, num1, pow1, a1),
            Self::page_alloc_post(s1, s2, num2, pow2_, a2),
        ensures
            a2 + num2 * PAGE <= a1,
    {
    }

    /// Law: a byte block and a later page block never overlap — the byte
    /// block ends at or before the page block begins.
    pub proof fn lemma_byte_then_page_disjoint(
        s0: Self,
        s1: Self,
        s2: Self,
        size1: usize,
        align1: usize,
        a1: usize,
        num2: usize,
        pow2_: usize,
        a2: usize,
    )
        requires
            Self::byte_alloc_post(s0, s1, size1, align1, a1),
            Self::page_alloc_post(s1, s2, num2, pow2_, a2),
        ensures
            a1 + size1 <= a2,
    {
    }

    /// Law: a page block and a later byte block never overlap — the byte
    /// block ends at or before the page block begins.
    pub proof fn lemma_page_then_byte_disjoint(
        s0: Self,
        s1: Self,
        s2: Self,
        num1: usize,
        pow1: usize,
        a1: usize,
        size2: usize,
        align2: usize,
        a2: usize,
    )
        requires
            Self::page_alloc_post(s0, s1, num1, pow1, a1),
            Self::byte_alloc_post(s1, s2, size2, align2, a2),
        ensures
            a2 + size2 <= a1,
    {
    }

    /// Law: while the page arena is still empty (the page frontier at the
    /// region's end), used plus available bytes equals total bytes. Once
    /// pages have been allocated the byte-side sum accounts for strictly
    /// less than the whole region.
    pub proof fn lemma_byte_accounting(s: Self)
        requires
            s.wf(),
            s.spec_p_pos() == s.spec_end(),
        ensures
            s.spec_used_bytes() + s.spec_available_bytes() == s.spec_total_bytes(),
    {
    }

    /// Law: used plus available pages never exceeds total pages.
    pub proof fn lemma_page_accounting(s: Self)
        requires
            s.wf(),
            PAGE > 0,
        ensures
            s.spec_used_pages() + s.spec_available_pages() <= s.spec_total_pages(),
    {
        if s.initialized() {
            let p = PAGE as int;
            let a = s.spec_end() - s.spec_p_pos();
            let b = s.spec_p_pos() - s.spec_b_pos();
            let c = s.spec_end() - s.spec_start();
            lemma_fundamental_div_mod(a, p);
            lemma_mod_division_less_than_divisor(a, p);
            lemma_fundamental_div_mod(b, p);
            lemma_mod_division_less_than_divisor(b, p);
            let q = a / p + b / p;
            assert(p * (a / p + b / p) == p * (a / p) + p * (b / p)) by (nonlinear_arith);
            assert(p * q <= c);
            lemma_div_multiples_vanish(q, p);
            lemma_div_is_ordered(p * q, c, p);
        }
    }
}

} // verus!

