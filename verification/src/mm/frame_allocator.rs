//! The physical frame allocator and the handles it issues.
//!
//! Frames are handed out from a contiguous range of physical page numbers.
//! Frames that came back are reused first, most recently returned first;
//! after that the range is consumed from its low end.

use vstd::prelude::*;
use crate::config::{PAGE_SIZE, PAGE_WORDS, PPN_LIMIT};
use crate::mm::address::PhysPageNum;

verus! {

/// Why a frame could not be returned to the pool.
#[derive(Clone, Copy, Debug, PartialEq, Eq, Structural)]
pub enum FrameError {
    /// The page number is not one that is currently handed out.
    NotAllocated,
}

/// The state of the pool as plain values.
pub struct FramePool {
    /// First page number the pool manages.
    pub start: u64,
    /// First page number that was never handed out.
    pub current: u64,
    /// One past the last page number the pool manages.
    pub end: u64,
    /// Page numbers that came back, oldest first.
    pub recycled: Seq<u64>,
}

/// One operation on the pool.
pub enum FrameOp {
    /// Take a frame.
    Alloc,
    /// Give the frame with this page number back.
    Dealloc(u64),
}

impl FramePool {
    /// The frames that came back were handed out before, and none is listed
    /// twice; what was never handed out lies within what the pool manages.
    pub open spec fn wf(self) -> bool {
        &&& self.start <= self.current <= self.end <= PPN_LIMIT
        &&& self.recycled.no_duplicates()
        &&& forall|i: int|
            0 <= i < self.recycled.len() ==> self.start <= #[trigger] self.recycled[i]
                < self.current
    }

    /// The pool manages the same frames as `other`, and the same of them
    /// were never handed out.
    pub open spec fn same_range(self, other: FramePool) -> bool {
        &&& self.start == other.start
        &&& self.current == other.current
        &&& self.end == other.end
    }

    /// The pool manages the same frames as `other`.
    pub open spec fn same_bounds(self, other: FramePool) -> bool {
        &&& self.start == other.start
        &&& self.end == other.end
    }

    /// `ppn` is managed by the pool and not handed out.
    pub open spec fn is_free(self, ppn: u64) -> bool {
        self.recycled.contains(ppn) || self.current <= ppn < self.end
    }

    /// `ppn` is handed out.
    pub open spec fn is_allocated(self, ppn: u64) -> bool {
        self.start <= ppn < self.current && !self.recycled.contains(ppn)
    }

    /// Number of frames that can still be handed out.
    pub open spec fn free_count(self) -> nat {
        (self.recycled.len() + (self.end - self.current)) as nat
    }

    /// Number of frames that are handed out.
    pub open spec fn allocated_count(self) -> int {
        (self.current - self.start) - self.recycled.len()
    }

    /// The page numbers of the frames that are handed out.
    pub open spec fn allocated_set(self) -> Set<u64> {
        Set::new(|ppn: u64| self.is_allocated(ppn))
    }

    /// The page number the next allocation hands out, if any is left.
    pub open spec fn next(self) -> Option<u64> {
        if self.recycled.len() > 0 {
            Some(self.recycled.last())
        } else if self.current < self.end {
            Some(self.current)
        } else {
            None
        }
    }

    /// The pool after one allocation.
    pub open spec fn allocate(self) -> FramePool {
        if self.recycled.len() > 0 {
            FramePool { recycled: self.recycled.drop_last(), ..self }
        } else if self.current < self.end {
            FramePool { current: (self.current + 1) as u64, ..self }
        } else {
            self
        }
    }

    /// The pool after `n` allocations in a row.
    pub open spec fn allocate_n(self, n: nat) -> FramePool
        decreases n,
    {
        if n == 0 {
            self
        } else {
            self.allocate().allocate_n((n - 1) as nat)
        }
    }

    /// `ppn` is among the first `n` frames that the pool hands out.
    pub open spec fn hands_out(self, n: nat, ppn: u64) -> bool {
        exists|j: nat| j < n && #[trigger] self.allocate_n(j).next() == Some(ppn)
    }

    /// The pool after `ppn` was given back; unchanged when `ppn` is not
    /// handed out.
    pub open spec fn dealloc(self, ppn: u64) -> FramePool {
        if self.is_allocated(ppn) {
            FramePool { recycled: self.recycled.push(ppn), ..self }
        } else {
            self
        }
    }

    /// The pool after `op`.
    pub open spec fn step(self, op: FrameOp) -> FramePool {
        match op {
            FrameOp::Alloc => self.allocate(),
            FrameOp::Dealloc(ppn) => self.dealloc(ppn),
        }
    }

    /// The pool after the operations of `ops`, first to last.
    pub open spec fn run(self, ops: Seq<FrameOp>) -> FramePool
        decreases ops.len(),
    {
        if ops.len() == 0 {
            self
        } else {
            self.run(ops.drop_last()).step(ops.last())
        }
    }

    /// How many operations of `ops` handed a frame out.
    pub open spec fn taken(self, ops: Seq<FrameOp>) -> nat
        decreases ops.len(),
    {
        if ops.len() == 0 {
            0
        } else {
            let before = self.run(ops.drop_last());
            let n = self.taken(ops.drop_last());
            match ops.last() {
                FrameOp::Alloc => if before.next() is Some {
                    n + 1
                } else {
                    n
                },
                FrameOp::Dealloc(_) => n,
            }
        }
    }

    /// How many operations of `ops` gave a handed-out frame back.
    pub open spec fn returned(self, ops: Seq<FrameOp>) -> nat
        decreases ops.len(),
    {
        if ops.len() == 0 {
            0
        } else {
            let before = self.run(ops.drop_last());
            let n = self.returned(ops.drop_last());
            match ops.last() {
                FrameOp::Alloc => n,
                FrameOp::Dealloc(ppn) => if before.is_allocated(ppn) {
                    n + 1
                } else {
                    n
                },
            }
        }
    }
}

/// A frame that is handed out is not free, and the other way round.
pub proof fn law_free_and_allocated_exclude(pool: FramePool, ppn: u64)
    requires
        pool.wf(),
    ensures
        !(pool.is_free(ppn) && pool.is_allocated(ppn)),
        pool.start <= ppn < pool.end ==> (pool.is_free(ppn) || pool.is_allocated(ppn)),
{
}

/// An allocation hands out a page number that no live handle holds, and
/// afterwards that page number is held; every other page number keeps its
/// state.
pub proof fn law_alloc_is_fresh(pool: FramePool)
    requires
        pool.wf(),
    ensures
        pool.allocate().wf(),
        pool.next() is Some <==> pool.free_count() > 0,
        pool.next() is Some ==> {
            let ppn = pool.next()->0;
            &&& !pool.is_allocated(ppn)
            &&& pool.is_free(ppn)
            &&& pool.allocate().is_allocated(ppn)
            &&& pool.allocate().free_count() == pool.free_count() - 1
            &&& forall|q: u64| q != ppn ==> pool.allocate().is_allocated(q) == pool.is_allocated(q)
        },
        pool.next() is None ==> pool.allocate() == pool,
{
    if pool.recycled.len() > 0 {
        let ppn = pool.recycled.last();
        let rest = pool.recycled.drop_last();
        assert(pool.recycled[pool.recycled.len() - 1] == ppn);
        assert forall|q: u64| rest.contains(q) == (pool.recycled.contains(q) && q != ppn) by {
            if rest.contains(q) {
                let i = choose|i: int| 0 <= i < rest.len() && rest[i] == q;
                assert(pool.recycled[i] == q);
            }
            if pool.recycled.contains(q) && q != ppn {
                let i = choose|i: int| 0 <= i < pool.recycled.len() && pool.recycled[i] == q;
                assert(rest[i] == q);
            }
        }
        assert(pool.allocate().wf()) by {
            assert forall|i: int| 0 <= i < rest.len() implies pool.start <= #[trigger] rest[i]
                < pool.current by {
                assert(rest[i] == pool.recycled[i]);
            }
        }
    }
}

/// Giving back a frame that is handed out makes it free and changes no
/// other frame; giving back anything else changes nothing.
pub proof fn law_dealloc_frees(pool: FramePool, ppn: u64)
    requires
        pool.wf(),
    ensures
        pool.dealloc(ppn).wf(),
        pool.is_allocated(ppn) ==> {
            &&& pool.dealloc(ppn).is_free(ppn)
            &&& !pool.dealloc(ppn).is_allocated(ppn)
            &&& pool.dealloc(ppn).free_count() == pool.free_count() + 1
            &&& pool.dealloc(ppn).next() == Some(ppn)
        },
        forall|q: u64| q != ppn ==> pool.dealloc(ppn).is_allocated(q) == pool.is_allocated(q),
        !pool.is_allocated(ppn) ==> pool.dealloc(ppn) == pool,
{
    if pool.is_allocated(ppn) {
        let after = pool.recycled.push(ppn);
        assert(after[after.len() - 1] == ppn);
        assert forall|q: u64| after.contains(q) == (pool.recycled.contains(q) || q == ppn) by {
            if after.contains(q) {
                let i = choose|i: int| 0 <= i < after.len() && after[i] == q;
                if i < pool.recycled.len() {
                    assert(pool.recycled[i] == q);
                }
            }
            if pool.recycled.contains(q) {
                let i = choose|i: int| 0 <= i < pool.recycled.len() && pool.recycled[i] == q;
                assert(after[i] == q);
            }
        }
        assert(after.no_duplicates()) by {
            assert forall|i: int, j: int|
                0 <= i < after.len() && 0 <= j < after.len() && i != j implies after[i]
                != after[j] by {
                if i < pool.recycled.len() {
                    assert(pool.recycled.contains(pool.recycled[i]));
                }
                if j < pool.recycled.len() {
                    assert(pool.recycled.contains(pool.recycled[j]));
                }
            }
        }
    }
}

/// The frames of a pool are the free ones and those handed out: as many
/// frames are free as the pool manages and are not handed out. So two
/// pools that manage the same frames and have the same frames handed out
/// have equally many free frames.
pub proof fn law_frames_are_free_or_handed_out(pool: FramePool)
    requires
        pool.wf(),
    ensures
        pool.allocated_set().finite(),
        pool.allocated_set().len() == pool.allocated_count(),
        pool.free_count() + pool.allocated_set().len() == pool.end - pool.start,
{
    let range = Set::<u64>::range(pool.start, pool.current);
    let back = pool.recycled.to_set();
    vstd::set_lib::range_set_properties::<u64>(pool.start, pool.current);
    pool.recycled.unique_seq_to_set();
    assert(back.finite()) by {
        vstd::seq_lib::seq_to_set_is_finite::<u64>(pool.recycled);
    }
    assert(range.intersect(back) =~= back) by {
        assert forall|p: u64| back.contains(p) implies range.contains(p) by {
            let i = choose|i: int| 0 <= i < pool.recycled.len() && pool.recycled[i] == p;
            assert(pool.start <= pool.recycled[i] < pool.current);
        }
    }
    vstd::set_lib::lemma_set_difference_len(range, back);
    assert(pool.allocated_set() =~= range.difference(back));
}

/// Two pools that manage the same frames and have the same frames handed
/// out have equally many free frames.
pub proof fn lemma_same_allocated_same_free(a: FramePool, b: FramePool)
    requires
        a.wf(),
        b.wf(),
        a.same_bounds(b),
        forall|p: u64| #[trigger] a.is_allocated(p) == b.is_allocated(p),
    ensures
        a.free_count() == b.free_count(),
{
    law_frames_are_free_or_handed_out(a);
    law_frames_are_free_or_handed_out(b);
    assert(a.allocated_set() =~= b.allocated_set());
}

/// Allocations keep the pool well formed and the frames it manages.
pub proof fn lemma_allocate_n_keeps_bounds(pool: FramePool, n: nat)
    requires
        pool.wf(),
    ensures
        pool.allocate_n(n).wf(),
        pool.allocate_n(n).same_bounds(pool),
    decreases n,
{
    if n > 0 {
        law_alloc_is_fresh(pool);
        lemma_allocate_n_keeps_bounds(pool.allocate(), (n - 1) as nat);
    }
}

/// Allocations in a row add up; their number comes off the free count,
/// which stops at zero, where further allocations change nothing.
pub proof fn lemma_allocate_n_adds_up(pool: FramePool, a: nat, b: nat)
    requires
        pool.wf(),
    ensures
        pool.allocate_n(a).allocate_n(b) == pool.allocate_n(a + b),
        pool.allocate_n(a).wf(),
        pool.allocate_n(a).free_count() == if a <= pool.free_count() {
            (pool.free_count() - a) as nat
        } else {
            0
        },
        pool.free_count() <= a ==> pool.allocate_n(a) == pool.allocate_n(pool.free_count()),
    decreases a,
{
    law_alloc_is_fresh(pool);
    if a == 0 {
        assert(pool.allocate_n(0) == pool);
        if pool.free_count() == 0 {
        }
    } else {
        lemma_allocate_n_adds_up(pool.allocate(), (a - 1) as nat, b);
        assert(pool.allocate_n(a + b) == pool.allocate().allocate_n((a + b - 1) as nat));
        if pool.free_count() == 0 {
            assert(pool.allocate() == pool);
            lemma_allocate_n_stays_empty(pool, a);
        } else if pool.free_count() <= a {
            assert(pool.allocate_n(pool.free_count()) == pool.allocate().allocate_n(
                (pool.free_count() - 1) as nat,
            ));
        }
    }
}

/// Allocating from a pool without free frames changes nothing.
pub proof fn lemma_allocate_n_stays_empty(pool: FramePool, n: nat)
    requires
        pool.wf(),
        pool.free_count() == 0,
    ensures
        pool.allocate_n(n) == pool,
    decreases n,
{
    law_alloc_is_fresh(pool);
    if n > 0 {
        assert(pool.allocate() == pool);
        lemma_allocate_n_stays_empty(pool, (n - 1) as nat);
    }
}

/// After `n` allocations the frames handed out are those that were handed
/// out before and the first `n` that the pool hands out; none of these was
/// handed out before.
pub proof fn lemma_allocated_after(pool: FramePool, n: nat, ppn: u64)
    requires
        pool.wf(),
    ensures
        pool.allocate_n(n).is_allocated(ppn) == (pool.is_allocated(ppn) || pool.hands_out(n, ppn)),
        pool.hands_out(n, ppn) ==> !pool.is_allocated(ppn),
    decreases n,
{
    law_alloc_is_fresh(pool);
    if n == 0 {
        assert(pool.allocate_n(0) == pool);
    } else {
        let m = (n - 1) as nat;
        lemma_allocated_after(pool, m, ppn);
        lemma_allocate_n_adds_up(pool, m, 1);
        let last = pool.allocate_n(m);
        law_alloc_is_fresh(last);
        assert(last.allocate_n(1) == last.allocate()) by {
            reveal_with_fuel(FramePool::allocate_n, 2);
        }
        assert(pool.allocate_n(n) == last.allocate());
        if pool.hands_out(n, ppn) {
            let j = choose|j: nat| j < n && #[trigger] pool.allocate_n(j).next() == Some(ppn);
            if j < m {
                assert(pool.hands_out(m, ppn));
            } else {
                assert(last.next() == Some(ppn));
            }
        }
        if pool.hands_out(m, ppn) {
            let j = choose|j: nat| j < m && #[trigger] pool.allocate_n(j).next() == Some(ppn);
            assert(pool.allocate_n(j).next() == Some(ppn));
        }
        if last.next() == Some(ppn) {
            assert(pool.allocate_n(m).next() == Some(ppn));
        }
    }
}

/// What is handed out stays handed out through further allocations.
pub proof fn lemma_allocated_grows(pool: FramePool, n: nat)
    requires
        pool.wf(),
    ensures
        forall|p: u64| #[trigger] pool.is_allocated(p) ==> pool.allocate_n(n).is_allocated(p),
{
    assert forall|p: u64| #[trigger] pool.is_allocated(p) implies pool.allocate_n(n).is_allocated(
        p,
    ) by {
        lemma_allocated_after(pool, n, p);
    }
}

/// The first frames that a pool hands out, one by one.
pub proof fn lemma_hands_out_first(pool: FramePool, ppn: u64)
    requires
        pool.wf(),
    ensures
        !pool.hands_out(0, ppn),
        pool.hands_out(1, ppn) == (pool.next() == Some(ppn)),
        pool.hands_out(2, ppn) == (pool.next() == Some(ppn) || pool.allocate().next() == Some(
            ppn,
        )),
{
    reveal_with_fuel(FramePool::allocate_n, 3);
    assert(pool.allocate_n(0) == pool);
    assert(pool.allocate_n(1) == pool.allocate());
    if pool.hands_out(1, ppn) {
        let j = choose|j: nat| j < 1 && #[trigger] pool.allocate_n(j).next() == Some(ppn);
        assert(j == 0);
    }
    if pool.hands_out(2, ppn) {
        let j = choose|j: nat| j < 2 && #[trigger] pool.allocate_n(j).next() == Some(ppn);
        assert(j == 0 || j == 1);
    }
    if pool.next() == Some(ppn) {
        assert(pool.allocate_n(0).next() == Some(ppn));
    }
    if pool.allocate().next() == Some(ppn) {
        assert(pool.allocate_n(1).next() == Some(ppn));
    }
}

/// A pool hands out no more frames than it has free.
pub proof fn lemma_hands_out_stops(pool: FramePool, n: nat, ppn: u64)
    requires
        pool.wf(),
        n >= pool.free_count(),
    ensures
        pool.hands_out(n, ppn) == pool.hands_out(pool.free_count(), ppn),
{
    if pool.hands_out(n, ppn) {
        let j = choose|j: nat| j < n && #[trigger] pool.allocate_n(j).next() == Some(ppn);
        lemma_allocate_n_adds_up(pool, j, 0);
        law_alloc_is_fresh(pool.allocate_n(j));
        assert(j < pool.free_count());
    }
    if pool.hands_out(pool.free_count(), ppn) {
        let j = choose|j: nat|
            j < pool.free_count() && #[trigger] pool.allocate_n(j).next() == Some(ppn);
        assert(pool.allocate_n(j).next() == Some(ppn));
    }
}

/// The first `a + b` frames that a pool hands out are the first `a`, and
/// the first `b` that it hands out after those.
pub proof fn lemma_hands_out_in_turn(pool: FramePool, a: nat, b: nat, ppn: u64)
    requires
        pool.wf(),
    ensures
        pool.hands_out(a + b, ppn) == (pool.hands_out(a, ppn) || pool.allocate_n(a).hands_out(
            b,
            ppn,
        )),
{
    if pool.hands_out(a + b, ppn) {
        let j = choose|j: nat| j < a + b && #[trigger] pool.allocate_n(j).next() == Some(ppn);
        if j >= a {
            lemma_allocate_n_adds_up(pool, a, (j - a) as nat);
            assert(pool.allocate_n(a).allocate_n((j - a) as nat).next() == Some(ppn));
        }
    }
    if pool.hands_out(a, ppn) {
        let j = choose|j: nat| j < a && #[trigger] pool.allocate_n(j).next() == Some(ppn);
        assert(pool.allocate_n(j).next() == Some(ppn));
    }
    if pool.allocate_n(a).hands_out(b, ppn) {
        let j = choose|j: nat|
            j < b && #[trigger] pool.allocate_n(a).allocate_n(j).next() == Some(ppn);
        lemma_allocate_n_adds_up(pool, a, j);
        assert(pool.allocate_n(a + j).next() == Some(ppn));
    }
}

/// Every sequence of operations keeps the pool well formed. The free count
/// falls by one for each frame handed out and rises by one for each frame
/// given back, so after as many frames were given back as were handed out
/// the free count is what it was.
pub proof fn law_free_count_is_conserved(pool: FramePool, ops: Seq<FrameOp>)
    requires
        pool.wf(),
    ensures
        pool.run(ops).wf(),
        pool.run(ops).free_count() + pool.taken(ops) == pool.free_count() + pool.returned(ops),
        pool.taken(ops) == pool.returned(ops) ==> pool.run(ops).free_count() == pool.free_count(),
        pool.run(ops).free_count() + pool.run(ops).allocated_count() == pool.end - pool.start,
    decreases ops.len(),
{
    if ops.len() > 0 {
        law_free_count_is_conserved(pool, ops.drop_last());
        let before = pool.run(ops.drop_last());
        match ops.last() {
            FrameOp::Alloc => {
                law_alloc_is_fresh(before);
            },
            FrameOp::Dealloc(ppn) => {
                law_dealloc_frees(before, ppn);
            },
        }
    }
}

/// The owning handle of one frame, together with what the frame holds.
///
/// A frame holds one page, kept as 512 little-endian 64-bit words: byte `i`
/// of the page is byte `i % 8` of word `i / 8`.
#[derive(Debug)]
pub struct FrameTracker {
    pub ppn: PhysPageNum,
    pub words: Vec<u64>,
}

/// Byte `k` of the word `w`, counted from the lowest.
pub open spec fn byte_of_word(w: u64, k: u64) -> u8 {
    ((w >> (8 * k)) & 0xff) as u8
}

/// The word `w` with its byte `k` replaced by `b`.
pub open spec fn word_with_byte(w: u64, k: u64, b: u8) -> u64 {
    (w & !(0xffu64 << (8 * k))) | ((b as u64) << (8 * k))
}

/// Replacing one byte of a word changes that byte and no other; every byte
/// of the zero word is zero.
pub proof fn lemma_word_bytes(w: u64, k: u64, b: u8, j: u64)
    requires
        k < 8,
        j < 8,
    ensures
        byte_of_word(word_with_byte(w, k, b), j) == if j == k {
            b
        } else {
            byte_of_word(w, j)
        },
        byte_of_word(0, j) == 0,
{
    assert(((((w & !(0xffu64 << (8 * k))) | ((b as u64) << (8 * k))) >> (8 * k)) & 0xff) as u8
        == b) by (bit_vector)
        requires
            k < 8,
    ;
    assert(j != k ==> ((((w & !(0xffu64 << (8 * k))) | ((b as u64) << (8 * k))) >> (8 * j))
        & 0xff) as u8 == ((w >> (8 * j)) & 0xff) as u8) by (bit_vector)
        requires
            k < 8,
            j < 8,
    ;
    assert(((0u64 >> (8 * j)) & 0xff) as u8 == 0u8) by (bit_vector)
        requires
            j < 8,
    ;
}

impl FrameTracker {
    /// The frame holds exactly one page.
    pub open spec fn wf(&self) -> bool {
        self.words@.len() == PAGE_WORDS
    }

    /// Every word of the frame is zero.
    pub open spec fn zeroed(&self) -> bool {
        forall|i: int| 0 <= i < self.words@.len() ==> self.words@[i] == 0
    }

    /// Byte `i` of the page.
    pub open spec fn byte(&self, i: int) -> u8 {
        byte_of_word(self.words@[i / 8], (i % 8) as u64)
    }

    /// The page as bytes.
    pub open spec fn bytes(&self) -> Seq<u8> {
        Seq::new(PAGE_SIZE as nat, |i: int| self.byte(i))
    }

    /// Reads byte `offset` of the page.
    pub fn read_byte(&self, offset: usize) -> (b: u8)
        requires
            self.wf(),
            offset < PAGE_SIZE,
        ensures
            b == self.byte(offset as int),
    {
        let w: u64 = self.words[offset / 8];
        let k: u64 = (offset % 8) as u64;
        ((w >> (8 * k)) & 0xff) as u8
    }

    /// Writes `b` to byte `offset` of the page.
    pub fn write_byte(&mut self, offset: usize, b: u8)
        requires
            old(self).wf(),
            offset < PAGE_SIZE,
        ensures
            final(self).wf(),
            final(self).ppn == old(self).ppn,
            final(self).bytes() == old(self).bytes().update(offset as int, b),
    {
        let w: u64 = self.words[offset / 8];
        let k: u64 = (offset % 8) as u64;
        let updated: u64 = (w & !(0xffu64 << (8 * k))) | ((b as u64) << (8 * k));
        self.words[offset / 8] = updated;
        proof {
            assert forall|i: int| 0 <= i < PAGE_SIZE implies self.byte(i) == if i == offset {
                b
            } else {
                old(self).byte(i)
            } by {
                if i / 8 == offset / 8 {
                    lemma_word_bytes(w, k, b, (i % 8) as u64);
                }
            }
            assert(self.bytes() =~= old(self).bytes().update(offset as int, b));
        }
    }

    /// A handle for `ppn` whose page is filled with zeros.
    pub fn new(ppn: PhysPageNum) -> (frame: FrameTracker)
        ensures
            frame.ppn == ppn,
            frame.wf(),
            frame.zeroed(),
            forall|i: int| 0 <= i < PAGE_SIZE ==> frame.byte(i) == 0,
    {
        let mut words: Vec<u64> = Vec::new();
        let mut i: usize = 0;
        while i < PAGE_WORDS
            invariant
                i <= PAGE_WORDS,
                words@.len() == i,
                forall|k: int| 0 <= k < i ==> words@[k] == 0,
            decreases PAGE_WORDS - i,
        {
            words.push(0);
            i = i + 1;
        }
        let frame = FrameTracker { ppn, words };
        proof {
            assert forall|i: int| 0 <= i < PAGE_SIZE implies frame.byte(i) == 0 by {
                lemma_word_bytes(0, 0, 0, (i % 8) as u64);
            }
        }
        frame
    }
}

/// The pool of physical frames.
#[derive(Debug)]
pub struct StackFrameAllocator {
    pub start: u64,
    pub current: u64,
    pub end: u64,
    pub recycled: Vec<u64>,
}

impl View for StackFrameAllocator {
    type V = FramePool;

    /// The state of the pool as plain values.
    open spec fn view(&self) -> FramePool {
        FramePool {
            start: self.start,
            current: self.current,
            end: self.end,
            recycled: self.recycled@,
        }
    }
}

impl StackFrameAllocator {
    /// The state of the pool is in order.
    pub open spec fn wf(&self) -> bool {
        self@.wf()
    }

    /// A pool that manages no frame.
    pub fn new() -> (pool: StackFrameAllocator)
        ensures
            pool.wf(),
            pool@ == (FramePool { start: 0, current: 0, end: 0, recycled: Seq::empty() }),
    {
        StackFrameAllocator { start: 0, current: 0, end: 0, recycled: Vec::new() }
    }

    /// Makes the pool manage the frames from `l` up to, not including, `r`,
    /// all of them free. With `r` below `l` the pool manages nothing.
    pub fn init(&mut self, l: PhysPageNum, r: PhysPageNum)
        requires
            l.0 <= PPN_LIMIT,
            r.0 <= PPN_LIMIT,
        ensures
            final(self).wf(),
            final(self)@ == (FramePool {
                start: l.0,
                current: l.0,
                end: if l.0 <= r.0 { r.0 } else { l.0 },
                recycled: Seq::empty(),
            }),
    {
        self.start = l.0;
        self.current = l.0;
        self.end = if l.0 <= r.0 { r.0 } else { l.0 };
        self.recycled = Vec::new();
    }

    /// Hands out the next free page number, or `None` when none is left.
    pub fn allocate(&mut self) -> (r: Option<PhysPageNum>)
        requires
            old(self).wf(),
        ensures
            final(self).wf(),
            final(self)@ == old(self)@.allocate(),
            match r {
                Some(ppn) => old(self)@.next() == Some(ppn.0),
                None => old(self)@.next() is None,
            },
    {
        proof {
            law_alloc_is_fresh(self@);
        }
        if self.recycled.len() > 0 {
            let ghost before = self.recycled@;
            let ppn = self.recycled.pop().unwrap();
            assert(self.recycled@ == before.drop_last());
            Some(PhysPageNum(ppn))
        } else if self.current < self.end {
            let ppn = self.current;
            self.current = self.current + 1;
            Some(PhysPageNum(ppn))
        } else {
            None
        }
    }

    /// Whether at least `n` frames can still be handed out.
    pub fn has_free(&self, n: u64) -> (r: bool)
        requires
            self.wf(),
        ensures
            r == (self@.free_count() >= n),
    {
        let recycled = self.recycled.len() as u64;
        recycled >= n || self.end - self.current >= n - recycled
    }

    /// Whether `ppn` is handed out.
    pub fn is_allocated(&self, ppn: PhysPageNum) -> (r: bool)
        requires
            self.wf(),
        ensures
            r == self@.is_allocated(ppn.0),
    {
        self.start <= ppn.0 && ppn.0 < self.current && !self.in_recycled(ppn.0)
    }

    /// Whether `ppn` is among the frames that came back.
    fn in_recycled(&self, ppn: u64) -> (r: bool)
        ensures
            r == self.recycled@.contains(ppn),
    {
        let mut i: usize = 0;
        while i < self.recycled.len()
            invariant
                i <= self.recycled@.len(),
                forall|k: int| 0 <= k < i ==> self.recycled@[k] != ppn,
            decreases self.recycled@.len() - i,
        {
            if self.recycled[i] == ppn {
                return true;
            }
            i = i + 1;
        }
        false
    }

    /// Takes `ppn` back. Fails, changing nothing, when `ppn` is not handed
    /// out: never handed out, or already given back.
    pub fn dealloc(&mut self, ppn: PhysPageNum) -> (r: Result<(), FrameError>)
        requires
            old(self).wf(),
        ensures
            final(self).wf(),
            final(self)@ == old(self)@.dealloc(ppn.0),
            r is Ok <==> old(self)@.is_allocated(ppn.0),
    {
        proof {
            law_dealloc_frees(self@, ppn.0);
        }
        if ppn.0 < self.start || ppn.0 >= self.current || self.in_recycled(ppn.0) {
            return Err(FrameError::NotAllocated);
        }
        self.recycled.push(ppn.0);
        Ok(())
    }
}

/// Takes a frame from `pool` and fills it with zeros. `None` when the pool
/// has no free frame.
pub fn frame_alloc(pool: &mut StackFrameAllocator) -> (r: Option<FrameTracker>)
    requires
        old(pool).wf(),
    ensures
        final(pool).wf(),
        final(pool)@ == old(pool)@.allocate(),
        match r {
            Some(frame) => {
                &&& old(pool)@.next() == Some(frame.ppn.0)
                &&& frame.ppn.wf()
                &&& frame.wf()
                &&& frame.zeroed()
                &&& forall|i: int| 0 <= i < PAGE_SIZE ==> frame.byte(i) == 0
            },
            None => old(pool)@.next() is None,
        },
{
    match pool.allocate() {
        Some(ppn) => Some(FrameTracker::new(ppn)),
        None => None,
    }
}

/// Gives the frame behind `frame` back to `pool` and ends the handle.
pub fn frame_dealloc(pool: &mut StackFrameAllocator, frame: FrameTracker) -> (r: Result<
    (),
    FrameError,
>)
    requires
        old(pool).wf(),
    ensures
        final(pool).wf(),
        final(pool)@ == old(pool)@.dealloc(frame.ppn.0),
        r is Ok <==> old(pool)@.is_allocated(frame.ppn.0),
{
    pool.dealloc(frame.ppn)
}

/// Takes `n` frames from `pool`, each filled with zeros, in the order in
/// which the pool hands them out. `None`, with the pool as it was, when the
/// pool has fewer than `n` free frames.
pub fn frame_alloc_n(pool: &mut StackFrameAllocator, n: u64) -> (r: Option<Vec<FrameTracker>>)
    requires
        old(pool).wf(),
    ensures
        final(pool).wf(),
        final(pool)@.same_bounds(old(pool)@),
        r is Some <==> old(pool)@.free_count() >= n,
        r is None ==> final(pool)@ == old(pool)@,
        r matches Some(frames) ==> {
            &&& final(pool)@ == old(pool)@.allocate_n(n as nat)
            &&& frames@.len() == n
            &&& forall|j: int|
                0 <= j < n ==> {
                    &&& (#[trigger] frames@[j]).wf()
                    &&& frames@[j].ppn.wf()
                    &&& frames@[j].zeroed()
                    &&& old(pool)@.allocate_n(j as nat).next() == Some(frames@[j].ppn.0)
                    &&& forall|i: int| 0 <= i < PAGE_SIZE ==> frames@[j].byte(i) == 0
                }
        },
{
    if !pool.has_free(n) {
        return None;
    }
    proof {
        lemma_allocate_n_keeps_bounds(pool@, n as nat);
    }
    let mut frames: Vec<FrameTracker> = Vec::new();
    let mut k: u64 = 0;
    while k < n
        invariant
            k <= n,
            old(pool).wf(),
            pool.wf(),
            old(pool)@.free_count() >= n,
            pool@ == old(pool)@.allocate_n(k as nat),
            frames@.len() == k,
            forall|j: int|
                0 <= j < k ==> {
                    &&& (#[trigger] frames@[j]).wf()
                    &&& frames@[j].ppn.wf()
                    &&& frames@[j].zeroed()
                    &&& old(pool)@.allocate_n(j as nat).next() == Some(frames@[j].ppn.0)
                    &&& forall|i: int| 0 <= i < PAGE_SIZE ==> frames@[j].byte(i) == 0
                },
        decreases n - k,
    {
        proof {
            lemma_allocate_n_adds_up(old(pool)@, k as nat, 1);
            law_alloc_is_fresh(pool@);
            assert(pool@.allocate_n(1) == pool@.allocate()) by {
                reveal_with_fuel(FramePool::allocate_n, 2);
            }
        }
        match frame_alloc(pool) {
            Some(frame) => {
                frames.push(frame);
            },
            None => {
                assert(false);
            },
        }
        k = k + 1;
    }
    Some(frames)
}

} // verus!
