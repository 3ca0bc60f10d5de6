//! Three-level page tables.
//!
//! A page table is a tree of table frames of fixed depth. A root table has
//! up to 512 middle tables, a middle table up to 512 leaf tables, and a leaf
//! table holds 512 leaf entries, one per virtual page. Every table owns the
//! frame that backs it; the words of that frame are its entries.

use vstd::prelude::*;
use crate::config::{PPN_LIMIT, VPN_LIMIT, TABLE_ENTRIES};
use crate::mm::address::{lemma_indexes_injective, PhysPageNum, VPNRange, VirtPageNum};
use crate::mm::frame_allocator::{
    frame_alloc, frame_dealloc, law_alloc_is_fresh, law_dealloc_frees, lemma_allocate_n_adds_up,
    lemma_allocate_n_keeps_bounds, lemma_hands_out_first, lemma_hands_out_in_turn,
    lemma_hands_out_stops, FramePool, FrameTracker, StackFrameAllocator,
};

verus! {

/// Entry is valid.
pub const FLAG_V: u8 = 1;

/// Page may be read.
pub const FLAG_R: u8 = 2;

/// Page may be written.
pub const FLAG_W: u8 = 4;

/// Page may be executed.
pub const FLAG_X: u8 = 8;

/// Page may be used from user mode.
pub const FLAG_U: u8 = 16;

/// Mapping is global.
pub const FLAG_G: u8 = 32;

/// Page was accessed.
pub const FLAG_A: u8 = 64;

/// Page was written.
pub const FLAG_D: u8 = 128;

/// The identifier of the three-level translation mode in an address-space
/// token.
pub const TOKEN_MODE: u64 = 0x8000_0000_0000_0000;

/// The flag bits of a page-table entry.
#[derive(Clone, Copy, Debug, PartialEq, Eq, Structural)]
pub struct PTEFlags {
    pub bits: u8,
}

impl PTEFlags {
    /// Whether every bit of `bits` is set.
    pub open spec fn spec_contains(&self, bits: u8) -> bool {
        self.bits & bits == bits
    }

    /// These flags with the bits of `bits` set as well.
    pub open spec fn spec_with(&self, bits: u8) -> PTEFlags {
        PTEFlags { bits: self.bits | bits }
    }

    /// The flags with exactly the bits of `bits` set.
    pub fn from_bits(bits: u8) -> (r: PTEFlags)
        ensures
            r.bits == bits,
    {
        PTEFlags { bits }
    }

    /// Whether every bit of `bits` is set.
    #[verifier::when_used_as_spec(spec_contains)]
    pub fn contains(&self, bits: u8) -> (r: bool)
        ensures
            r == self.spec_contains(bits),
    {
        self.bits & bits == bits
    }

    /// These flags with the bits of `bits` set as well.
    #[verifier::when_used_as_spec(spec_with)]
    pub fn with(&self, bits: u8) -> (r: PTEFlags)
        ensures
            r == self.spec_with(bits),
    {
        PTEFlags { bits: self.bits | bits }
    }
}

/// Setting the valid bit makes flags valid and keeps every bit that was set;
/// no flag is set in zero.
pub proof fn lemma_flag_bits(bits: u8, other: u8)
    ensures
        (bits | FLAG_V) & FLAG_V == FLAG_V,
        (bits | other) & other == other,
        (bits | other) & bits == bits,
        0u8 & FLAG_V != FLAG_V,
        FLAG_V & FLAG_V == FLAG_V,
        ((bits | other) & FLAG_V == FLAG_V) <==> (bits & FLAG_V == FLAG_V || other & FLAG_V
            == FLAG_V),
{
    assert((bits | 1u8) & 1u8 == 1u8) by (bit_vector);
    assert((bits | other) & other == other) by (bit_vector);
    assert((bits | other) & bits == bits) by (bit_vector);
    assert(0u8 & 1u8 != 1u8) by (bit_vector);
    assert(1u8 & 1u8 == 1u8) by (bit_vector);
    assert(((bits | other) & 1u8 == 1u8) <==> (bits & 1u8 == 1u8 || other & 1u8 == 1u8))
        by (bit_vector);
}

/// One entry of a page table: a physical page number above ten flag bits,
/// of which the low eight are used.
#[derive(Clone, Copy, Debug, PartialEq, Eq, Structural)]
pub struct PageTableEntry {
    pub bits: u64,
}

impl PageTableEntry {
    /// The entry that holds `ppn` and `flags`.
    pub open spec fn spec_new(ppn: PhysPageNum, flags: PTEFlags) -> PageTableEntry {
        PageTableEntry { bits: (ppn.0 * 1024 + flags.bits) as u64 }
    }

    /// The page number the entry holds.
    pub open spec fn spec_ppn(&self) -> PhysPageNum {
        PhysPageNum(((self.bits / 1024) % PPN_LIMIT) as u64)
    }

    /// The flags the entry holds.
    pub open spec fn spec_flags(&self) -> PTEFlags {
        PTEFlags { bits: (self.bits % 256) as u8 }
    }

    /// Whether the valid bit is set.
    pub open spec fn spec_is_valid(&self) -> bool {
        self.spec_flags().spec_contains(FLAG_V)
    }

    /// The entry that holds `ppn` and `flags`.
    pub fn new(ppn: PhysPageNum, flags: PTEFlags) -> (r: PageTableEntry)
        requires
            ppn.wf(),
        ensures
            r == PageTableEntry::spec_new(ppn, flags),
            r.spec_ppn() == ppn,
            r.spec_flags() == flags,
            r.spec_is_valid() == flags.spec_contains(FLAG_V),
    {
        proof {
            lemma_entry_round_trip(ppn, flags);
        }
        PageTableEntry { bits: ppn.0 * 1024 + (flags.bits as u64) }
    }

    /// The entry with no bit set; it is not valid.
    pub fn empty() -> (r: PageTableEntry)
        ensures
            r.bits == 0,
            !r.spec_is_valid(),
    {
        proof {
            lemma_flag_bits(0, 0);
        }
        PageTableEntry { bits: 0 }
    }

    /// The page number the entry holds.
    #[verifier::when_used_as_spec(spec_ppn)]
    pub fn ppn(&self) -> (r: PhysPageNum)
        ensures
            r == self.spec_ppn(),
            r.wf(),
    {
        PhysPageNum((self.bits / 1024) % PPN_LIMIT)
    }

    /// The flags the entry holds.
    #[verifier::when_used_as_spec(spec_flags)]
    pub fn flags(&self) -> (r: PTEFlags)
        ensures
            r == self.spec_flags(),
    {
        PTEFlags { bits: (self.bits % 256) as u8 }
    }

    /// Whether the valid bit is set.
    #[verifier::when_used_as_spec(spec_is_valid)]
    pub fn is_valid(&self) -> (r: bool)
        ensures
            r == self.spec_is_valid(),
    {
        self.flags().contains(FLAG_V)
    }

    /// Whether the page may be read.
    pub fn readable(&self) -> (r: bool)
        ensures
            r == self.spec_flags().spec_contains(FLAG_R),
    {
        self.flags().contains(FLAG_R)
    }

    /// Whether the page may be written.
    pub fn writable(&self) -> (r: bool)
        ensures
            r == self.spec_flags().spec_contains(FLAG_W),
    {
        self.flags().contains(FLAG_W)
    }

    /// Whether the page may be executed.
    pub fn executable(&self) -> (r: bool)
        ensures
            r == self.spec_flags().spec_contains(FLAG_X),
    {
        self.flags().contains(FLAG_X)
    }
}

/// An entry built from a page number and flags gives both back, and is
/// valid exactly when the flags hold the valid bit.
pub proof fn lemma_entry_round_trip(ppn: PhysPageNum, flags: PTEFlags)
    requires
        ppn.wf(),
    ensures
        PageTableEntry::spec_new(ppn, flags).spec_ppn() == ppn,
        PageTableEntry::spec_new(ppn, flags).spec_flags() == flags,
        PageTableEntry::spec_new(ppn, flags).spec_is_valid() == flags.spec_contains(FLAG_V),
{
    let x = ppn.0 * 1024 + flags.bits;
    vstd::arithmetic::div_mod::lemma_fundamental_div_mod_converse(
        x,
        1024,
        ppn.0 as int,
        flags.bits as int,
    );
    vstd::arithmetic::div_mod::lemma_fundamental_div_mod_converse(
        x,
        256,
        ppn.0 * 4,
        flags.bits as int,
    );
    vstd::arithmetic::div_mod::lemma_small_mod(ppn.0 as nat, PPN_LIMIT as nat);
}

/// Why a page table could not be changed.
#[derive(Clone, Copy, Debug, PartialEq, Eq, Structural)]
pub enum MapError {
    /// No frame was left for a table or a page.
    OutOfMemory,
    /// The virtual page is mapped already.
    AlreadyMapped,
    /// The virtual page is not mapped.
    NotMapped,
}

/// A table of the lowest level: its entries map pages.
#[derive(Debug)]
pub struct LeafTable {
    pub frame: FrameTracker,
}

/// A table of the middle level: its entries point to leaf tables.
#[derive(Debug)]
pub struct MidTable {
    pub frame: FrameTracker,
    pub children: Vec<Option<LeafTable>>,
}

/// A page table, which is its root table.
#[derive(Debug)]
pub struct PageTable {
    pub frame: FrameTracker,
    pub children: Vec<Option<MidTable>>,
}

/// The pool after the frames of the leaf tables of `slots` were given
/// back, last slot first.
pub open spec fn released_leaves(pool: FramePool, slots: Seq<Option<LeafTable>>) -> FramePool
    decreases slots.len(),
{
    if slots.len() == 0 {
        pool
    } else {
        released_leaves(
            match slots.last() {
                Some(leaf) => pool.dealloc(leaf.frame.ppn.0),
                None => pool,
            },
            slots.drop_last(),
        )
    }
}

/// The pool after the frames of the middle table `mid` were given back:
/// those of its leaf tables, last slot first, then its own.
pub open spec fn released_mid(pool: FramePool, mid: MidTable) -> FramePool {
    released_leaves(pool, mid.children@).dealloc(mid.frame.ppn.0)
}

/// The pool after the frames of the middle tables of `slots` were given
/// back, last slot first.
pub open spec fn released_mids(pool: FramePool, slots: Seq<Option<MidTable>>) -> FramePool
    decreases slots.len(),
{
    if slots.len() == 0 {
        pool
    } else {
        released_mids(
            match slots.last() {
                Some(mid) => released_mid(pool, mid),
                None => pool,
            },
            slots.drop_last(),
        )
    }
}

/// The pool after the frames of all tables of the page table `table` were
/// given back: those of the middle tables, last slot first, then that of
/// the root table.
pub open spec fn released_tables(pool: FramePool, table: PageTable) -> FramePool {
    released_mids(pool, table.children@).dealloc(table.frame.ppn.0)
}

/// The word that a table holds for a slot with the child table `child`:
/// zero without a child, else a valid entry with the page number of the
/// child's frame and no other flag.
pub open spec fn pointer_word(child: Option<PhysPageNum>) -> u64 {
    match child {
        Some(ppn) => PageTableEntry::spec_new(ppn, PTEFlags { bits: FLAG_V }).bits,
        None => 0,
    }
}

impl LeafTable {
    /// The table is on a frame of one page.
    pub open spec fn wf(&self) -> bool {
        &&& self.frame.wf()
        &&& self.frame.ppn.wf()
    }

    /// The entry for the page with leaf index `i`.
    pub open spec fn entry(&self, i: int) -> PageTableEntry {
        PageTableEntry { bits: self.frame.words@[i] }
    }
}

impl MidTable {
    /// The page number of the child in slot `i`, if there is one.
    pub open spec fn child_ppn(&self, i: int) -> Option<PhysPageNum> {
        match self.children@[i] {
            Some(leaf) => Some(leaf.frame.ppn),
            None => None,
        }
    }

    /// Slot `i` is in order: its child is well formed and its word points
    /// to it.
    pub open spec fn slot_ok(&self, i: int) -> bool {
        &&& self.frame.words@[i] == pointer_word(self.child_ppn(i))
        &&& self.children@[i] matches Some(leaf) ==> leaf.wf()
    }

    /// Every slot of the table is in order.
    pub open spec fn wf(&self) -> bool {
        &&& self.frame.wf()
        &&& self.frame.ppn.wf()
        &&& self.children@.len() == TABLE_ENTRIES
        &&& forall|i: int| 0 <= i < TABLE_ENTRIES ==> #[trigger] self.slot_ok(i)
    }

    /// The leaf entry reached through slot `i1`, then leaf index `i2`.
    pub open spec fn entry(&self, i1: int, i2: int) -> Option<PageTableEntry> {
        match self.children@[i1] {
            Some(leaf) => Some(leaf.entry(i2)),
            None => None,
        }
    }

    /// The page number `ppn` is that of the leaf table in a slot from
    /// `from` on.
    pub open spec fn leaf_from(&self, from: int, ppn: u64) -> bool {
        exists|i: int|
            from <= i < TABLE_ENTRIES && (#[trigger] self.children@[i]) is Some
                && self.children@[i]->0.frame.ppn.0 == ppn
    }

    /// The page number `ppn` is that of a leaf table of this table.
    pub open spec fn ppns_below(&self, ppn: u64) -> bool {
        self.leaf_from(0, ppn)
    }

    /// The page numbers of the frames of this table and its leaf tables.
    pub open spec fn ppns(&self) -> Set<u64> {
        Set::new(|ppn: u64| ppn == self.frame.ppn.0 || self.ppns_below(ppn))
    }

    /// Gives the frames of this table and its leaf tables back to `pool`.
    fn release(self, pool: &mut StackFrameAllocator)
        requires
            old(pool).wf(),
            self.children@.len() == TABLE_ENTRIES,
        ensures
            final(pool).wf(),
            final(pool)@ == released_mid(old(pool)@, self),
            final(pool)@.same_range(old(pool)@),
            forall|ppn: u64|
                #[trigger] final(pool)@.is_allocated(ppn) == (old(pool)@.is_allocated(ppn)
                    && !self.ppns().contains(ppn)),
    {
        let MidTable { frame, children } = self;
        let mut children = children;
        let ghost all = children@;
        while children.len() > 0
            invariant
                pool.wf(),
                pool@.same_range(old(pool)@),
                released_leaves(pool@, children@) == released_leaves(old(pool)@, all),
                all == self.children@,
                all.len() == TABLE_ENTRIES,
                children@.len() <= all.len(),
                children@ == all.subrange(0, children@.len() as int),
                forall|ppn: u64|
                    #[trigger] pool@.is_allocated(ppn) == (old(pool)@.is_allocated(ppn)
                        && !self.leaf_from(children@.len() as int, ppn)),
            decreases children@.len(),
        {
            let ghost pool_before = pool@;
            let slot = children.pop().unwrap();
            let ghost at = children@.len() as int;
            proof {
                assert(children@ =~= all.subrange(0, at));
                assert(slot == all[at]);
            }
            match slot {
                Some(leaf) => {
                    proof {
                        law_dealloc_frees(pool@, leaf.frame.ppn.0);
                    }
                    let _ = frame_dealloc(pool, leaf.frame);
                },
                None => {},
            }
            proof {
                assert forall|ppn: u64| #[trigger]
                    pool@.is_allocated(ppn) == (old(pool)@.is_allocated(ppn) && !self.leaf_from(
                        at,
                        ppn,
                    )) by {
                    if all[at] is Some {
                        law_dealloc_frees(pool_before, all[at]->0.frame.ppn.0);
                        assert(pool@ == pool_before.dealloc(all[at]->0.frame.ppn.0));
                    } else {
                        assert(pool@ == pool_before);
                    }
                    assert(pool_before.is_allocated(ppn) == (old(pool)@.is_allocated(ppn)
                        && !self.leaf_from(at + 1, ppn)));
                    if self.leaf_from(at + 1, ppn) {
                        let i = choose|i: int|
                            at + 1 <= i < TABLE_ENTRIES && (#[trigger] self.children@[i]) is Some
                                && self.children@[i]->0.frame.ppn.0 == ppn;
                        assert(self.children@[i] is Some);
                    }
                    if self.leaf_from(at, ppn) && !self.leaf_from(at + 1, ppn) {
                        let i = choose|i: int|
                            at <= i < TABLE_ENTRIES && (#[trigger] self.children@[i]) is Some
                                && self.children@[i]->0.frame.ppn.0 == ppn;
                        if i != at {
                            assert(self.children@[i] is Some);
                        }
                    }
                    if all[at] is Some && all[at]->0.frame.ppn.0 == ppn {
                        assert(self.children@[at] is Some);
                    }
                }
            }
        }
        let ghost drained = pool@;
        proof {
            law_dealloc_frees(drained, frame.ppn.0);
        }
        let _ = frame_dealloc(pool, frame);
        proof {
            assert forall|ppn: u64| #[trigger]
                pool@.is_allocated(ppn) == (old(pool)@.is_allocated(ppn) && !self.ppns().contains(
                    ppn,
                )) by {
                assert(frame.ppn.0 == self.frame.ppn.0);
                assert(pool@ == drained.dealloc(frame.ppn.0));
                if ppn != frame.ppn.0 {
                    assert(pool@.is_allocated(ppn) == drained.is_allocated(ppn));
                } else {
                    assert(!pool@.is_allocated(ppn));
                }
                assert(self.ppns().contains(ppn) == (ppn == self.frame.ppn.0 || self.ppns_below(
                    ppn,
                )));
            }
        }
    }

    /// A middle table on `frame` without children.
    fn new(frame: FrameTracker) -> (r: MidTable)
        requires
            frame.wf(),
            frame.zeroed(),
            frame.ppn.wf(),
        ensures
            r.wf(),
            r.frame == frame,
            forall|i: int| 0 <= i < TABLE_ENTRIES ==> r.children@[i] is None,
    {
        let mut children: Vec<Option<LeafTable>> = Vec::new();
        let mut i: usize = 0;
        while i < TABLE_ENTRIES
            invariant
                i <= TABLE_ENTRIES,
                children@.len() == i,
                forall|k: int| 0 <= k < i ==> children@[k] is None,
            decreases TABLE_ENTRIES - i,
        {
            children.push(None);
            i = i + 1;
        }
        let r = MidTable { frame, children };
        assert forall|k: int| 0 <= k < TABLE_ENTRIES implies #[trigger] r.slot_ok(k) by {}
        r
    }

    /// Makes sure slot `i1` has a leaf table, taking a frame for it from
    /// `pool` if it has none. Fails, changing nothing, only when a frame is
    /// needed and none is left.
    fn ensure_leaf(&mut self, i1: usize, pool: &mut StackFrameAllocator) -> (ok: bool)
        requires
            old(self).wf(),
            old(pool).wf(),
            i1 < TABLE_ENTRIES,
        ensures
            final(self).wf(),
            final(pool).wf(),
            final(self).frame.ppn == old(self).frame.ppn,
            ok == (old(self).children@[i1 as int] is Some || old(pool)@.next() is Some),
            ok ==> final(self).children@[i1 as int] is Some,
            !ok ==> *final(self) == *old(self) && final(pool)@ == old(pool)@,
            old(self).children@[i1 as int] is Some ==> *final(self) == *old(self)
                && final(pool)@ == old(pool)@,
            old(self).children@[i1 as int] is None ==> final(pool)@ == old(pool)@.allocate(),
            old(self).children@[i1 as int] is None && ok ==> {
                &&& final(self).children@[i1 as int]->0.frame.zeroed()
                &&& final(self).children@[i1 as int]->0.frame.ppn.0 == old(pool)@.next()->0
            },
            forall|ppn: u64| #[trigger]
                final(self).ppns().contains(ppn) == (old(self).ppns().contains(ppn)
                    || (old(self).children@[i1 as int] is None && old(pool)@.next() == Some(ppn))),
            forall|k: int|
                0 <= k < TABLE_ENTRIES && k != i1
                    ==> final(self).children@[k] == old(self).children@[k],
    {
        if self.children[i1].is_some() {
            return true;
        }
        match frame_alloc(pool) {
            None => false,
            Some(frame) => {
                let entry = PageTableEntry::new(frame.ppn, PTEFlags::from_bits(FLAG_V));
                self.frame.words[i1] = entry.bits;
                self.children[i1] = Some(LeafTable { frame });
                proof {
                    assert forall|k: int| 0 <= k < TABLE_ENTRIES implies #[trigger] self.slot_ok(
                        k,
                    ) by {
                        if k != i1 {
                            assert(old(self).slot_ok(k));
                        }
                    }
                    let fresh = old(pool)@.next()->0;
                    assert forall|ppn: u64| #[trigger]
                        self.ppns().contains(ppn) == (old(self).ppns().contains(ppn) || ppn
                            == fresh) by {
                        if old(self).leaf_from(0, ppn) {
                            let i = choose|i: int|
                                0 <= i < TABLE_ENTRIES
                                    && (#[trigger] old(self).children@[i]) is Some
                                    && old(self).children@[i]->0.frame.ppn.0 == ppn;
                            assert(self.children@[i] is Some);
                        }
                        if self.leaf_from(0, ppn) {
                            let i = choose|i: int|
                                0 <= i < TABLE_ENTRIES && (#[trigger] self.children@[i]) is Some
                                    && self.children@[i]->0.frame.ppn.0 == ppn;
                            if i != i1 {
                                assert(old(self).children@[i] is Some);
                            }
                        }
                        if ppn == fresh {
                            assert(self.children@[i1 as int] is Some);
                        }
                    }
                }
                true
            },
        }
    }
}

impl View for PageTable {
    type V = Map<u64, PageTableEntry>;

    /// The valid leaf entries, by virtual page number.
    open spec fn view(&self) -> Map<u64, PageTableEntry> {
        Map::new(
            |v: u64| self.is_mapped(VirtPageNum(v)),
            |v: u64| self.leaf_entry(VirtPageNum(v))->0,
        )
    }
}

impl PageTable {
    /// The page number of the child in slot `i`, if there is one.
    pub open spec fn child_ppn(&self, i: int) -> Option<PhysPageNum> {
        match self.children@[i] {
            Some(mid) => Some(mid.frame.ppn),
            None => None,
        }
    }

    /// Slot `i` is in order: its child is well formed and its word points
    /// to it.
    pub open spec fn slot_ok(&self, i: int) -> bool {
        &&& self.frame.words@[i] == pointer_word(self.child_ppn(i))
        &&& self.children@[i] matches Some(mid) ==> mid.wf()
    }

    /// Every slot of the root table is in order.
    pub open spec fn wf(&self) -> bool {
        &&& self.frame.wf()
        &&& self.frame.ppn.wf()
        &&& self.children@.len() == TABLE_ENTRIES
        &&& forall|i: int| 0 <= i < TABLE_ENTRIES ==> #[trigger] self.slot_ok(i)
    }

    /// The page number of the root table.
    pub open spec fn root_ppn(&self) -> PhysPageNum {
        self.frame.ppn
    }

    /// The leaf entry that the walk for `vpn` ends at, if the tables on the
    /// way exist. The entry need not be valid.
    pub open spec fn leaf_entry(&self, vpn: VirtPageNum) -> Option<PageTableEntry> {
        let (i0, i1, i2) = vpn.spec_indexes();
        match self.children@[i0] {
            Some(mid) => mid.entry(i1, i2),
            None => None,
        }
    }

    /// Whether `vpn` is mapped: it is a page number of the address space,
    /// and the walk for it ends at a valid entry.
    pub open spec fn is_mapped(&self, vpn: VirtPageNum) -> bool {
        &&& vpn.wf()
        &&& self.leaf_entry(vpn) matches Some(entry)
        &&& entry.spec_is_valid()
    }

    /// The middle table with the number `m` exists. Middle table `m` serves
    /// the pages from `m * 512 * 512` on.
    pub open spec fn has_mid(&self, m: int) -> bool {
        0 <= m < 512 && self.children@[m] is Some
    }

    /// The leaf table with the number `n` exists. Leaf table `n` serves the
    /// pages from `n * 512` on.
    pub open spec fn has_leaf(&self, n: int) -> bool {
        &&& 0 <= n < 512 * 512
        &&& self.children@[n / 512] is Some
        &&& self.children@[n / 512]->0.children@[n % 512] is Some
    }

    /// How many of the leaf tables with the numbers from `lo` up to, not
    /// including, `hi` are lacking.
    pub open spec fn leaves_missing(&self, lo: int, hi: int) -> nat
        decreases hi - lo,
    {
        if lo >= hi {
            0
        } else {
            self.leaves_missing(lo, hi - 1) + if self.has_leaf(hi - 1) {
                0nat
            } else {
                1nat
            }
        }
    }

    /// How many of the middle tables with the numbers from `lo` up to, not
    /// including, `hi` are lacking.
    pub open spec fn mids_missing(&self, lo: int, hi: int) -> nat
        decreases hi - lo,
    {
        if lo >= hi {
            0
        } else {
            self.mids_missing(lo, hi - 1) + if self.has_mid(hi - 1) {
                0nat
            } else {
                1nat
            }
        }
    }

    /// How many tables are lacking to map the pages from `start` up to,
    /// not including, `end`.
    pub open spec fn tables_needed(&self, start: int, end: int) -> nat {
        if start >= end {
            0
        } else {
            self.leaves_missing(start / 512, (end - 1) / 512 + 1) + self.mids_missing(
                start / 262144,
                (end - 1) / 262144 + 1,
            )
        }
    }

    /// The tables are those of `before` and those that serve the pages
    /// from `start` up to, not including, `end`.
    pub open spec fn covers_since(&self, before: &PageTable, start: int, end: int) -> bool {
        &&& forall|n: int| #[trigger]
            self.has_leaf(n) == (before.has_leaf(n) || (start < end && start / 512 <= n <= (end
                - 1) / 512))
        &&& forall|m: int| #[trigger]
            self.has_mid(m) == (before.has_mid(m) || (start < end && start / 262144 <= m <= (
            end - 1) / 262144))
    }

    /// The frames of the tables are those of the tables of `before` and
    /// the first `n` that the pool `pool` hands out.
    pub open spec fn took(&self, before: &PageTable, pool: FramePool, n: nat) -> bool {
        forall|ppn: u64| #[trigger]
            self.ppns().contains(ppn) == (before.ppns().contains(ppn) || pool.hands_out(n, ppn))
    }

    /// The page table has the tables that `other` has.
    pub open spec fn same_tables(&self, other: &PageTable) -> bool {
        &&& forall|n: int| #[trigger] self.has_leaf(n) == other.has_leaf(n)
        &&& forall|m: int| #[trigger] self.has_mid(m) == other.has_mid(m)
    }

    /// How many tables the walk for `vpn` lacks.
    pub open spec fn tables_missing(&self, vpn: VirtPageNum) -> nat {
        let (i0, i1, i2) = vpn.spec_indexes();
        match self.children@[i0] {
            Some(mid) => if mid.children@[i1] is Some {
                0
            } else {
                1
            },
            None => 2,
        }
    }

    /// The page number `ppn` is that of a frame of the middle table in a
    /// slot from `from` on, or of one of its leaf tables.
    pub open spec fn mid_from(&self, from: int, ppn: u64) -> bool {
        exists|i: int|
            from <= i < TABLE_ENTRIES && (#[trigger] self.children@[i]) is Some
                && self.children@[i]->0.ppns().contains(ppn)
    }

    /// The page number `ppn` is that of a frame of a table below the root
    /// table.
    pub open spec fn ppns_below(&self, ppn: u64) -> bool {
        self.mid_from(0, ppn)
    }

    /// The page numbers of the frames of all tables of this page table.
    pub open spec fn ppns(&self) -> Set<u64> {
        Set::new(|ppn: u64| ppn == self.frame.ppn.0 || self.ppns_below(ppn))
    }

    /// The token that selects this page table: the translation mode and
    /// the page number of the root table.
    pub open spec fn spec_token(&self) -> u64 {
        (TOKEN_MODE + self.frame.ppn.0) as u64
    }

    /// A page table that maps nothing, on a frame taken from `pool`. `None`
    /// when the pool has no free frame.
    pub fn new(pool: &mut StackFrameAllocator) -> (r: Option<PageTable>)
        requires
            old(pool).wf(),
        ensures
            final(pool).wf(),
            final(pool)@ == old(pool)@.allocate(),
            r is Some <==> old(pool)@.next() is Some,
            r matches Some(table) ==> {
                &&& table.wf()
                &&& table@ == Map::<u64, PageTableEntry>::empty()
                &&& table.root_ppn().0 == old(pool)@.next()->0
                &&& forall|i: int| 0 <= i < TABLE_ENTRIES ==> table.children@[i] is None
                &&& forall|ppn: u64| #[trigger]
                    table.ppns().contains(ppn) == (old(pool)@.next() == Some(ppn))
                &&& forall|n: int| !(#[trigger] table.has_leaf(n))
                &&& forall|m: int| !(#[trigger] table.has_mid(m))
            },
    {
        match frame_alloc(pool) {
            None => None,
            Some(frame) => {
                let mut children: Vec<Option<MidTable>> = Vec::new();
                let mut i: usize = 0;
                while i < TABLE_ENTRIES
                    invariant
                        i <= TABLE_ENTRIES,
                        children@.len() == i,
                        forall|k: int| 0 <= k < i ==> children@[k] is None,
                    decreases TABLE_ENTRIES - i,
                {
                    children.push(None);
                    i = i + 1;
                }
                let table = PageTable { frame, children };
                proof {
                    assert forall|k: int| 0 <= k < TABLE_ENTRIES implies #[trigger] table.slot_ok(
                        k,
                    ) by {}
                    assert forall|v: u64| !table.is_mapped(VirtPageNum(v)) by {
                        let (i0, i1, i2) = VirtPageNum(v).spec_indexes();
                        assert(table.children@[i0] is None);
                    }
                    assert(table@ =~= Map::<u64, PageTableEntry>::empty());
                    assert forall|ppn: u64| #[trigger]
                        table.ppns().contains(ppn) == (old(pool)@.next() == Some(ppn)) by {
                        if table.mid_from(0, ppn) {
                            let i = choose|i: int|
                                0 <= i < TABLE_ENTRIES && (#[trigger] table.children@[i]) is Some
                                    && table.children@[i]->0.ppns().contains(ppn);
                            assert(table.children@[i] is None);
                        }
                    }
                }
                Some(table)
            },
        }
    }

    /// The token that selects this page table.
    #[verifier::when_used_as_spec(spec_token)]
    pub fn token(&self) -> (r: u64)
        requires
            self.wf(),
        ensures
            r == self.spec_token(),
    {
        TOKEN_MODE + self.frame.ppn.0
    }

    /// Makes sure slot `i0` has a middle table, taking a frame for it from
    /// `pool` if it has none.
    fn ensure_mid(&mut self, i0: usize, pool: &mut StackFrameAllocator) -> (ok: bool)
        requires
            old(self).wf(),
            old(pool).wf(),
            i0 < TABLE_ENTRIES,
        ensures
            final(self).wf(),
            final(pool).wf(),
            final(self).frame.ppn == old(self).frame.ppn,
            ok == (old(self).children@[i0 as int] is Some || old(pool)@.next() is Some),
            ok ==> final(self).children@[i0 as int] is Some,
            !ok ==> *final(self) == *old(self) && final(pool)@ == old(pool)@,
            old(self).children@[i0 as int] is Some ==> *final(self) == *old(self)
                && final(pool)@ == old(pool)@,
            old(self).children@[i0 as int] is None ==> final(pool)@ == old(pool)@.allocate(),
            old(self).children@[i0 as int] is None && ok ==> forall|k: int|
                0 <= k < TABLE_ENTRIES
                    ==> (#[trigger] final(self).children@[i0 as int]->0.children@[k]) is None,
            forall|ppn: u64| #[trigger]
                final(self).ppns().contains(ppn) == (old(self).ppns().contains(ppn)
                    || (old(self).children@[i0 as int] is None && old(pool)@.next() == Some(ppn))),
            forall|k: int|
                0 <= k < TABLE_ENTRIES && k != i0
                    ==> final(self).children@[k] == old(self).children@[k],
    {
        if self.children[i0].is_some() {
            return true;
        }
        match frame_alloc(pool) {
            None => false,
            Some(frame) => {
                let entry = PageTableEntry::new(frame.ppn, PTEFlags::from_bits(FLAG_V));
                self.frame.words[i0] = entry.bits;
                self.children[i0] = Some(MidTable::new(frame));
                proof {
                    assert forall|k: int| 0 <= k < TABLE_ENTRIES implies #[trigger] self.slot_ok(
                        k,
                    ) by {
                        if k != i0 {
                            assert(old(self).slot_ok(k));
                        }
                    }
                    let fresh = old(pool)@.next()->0;
                    let made = self.children@[i0 as int]->0;
                    assert forall|ppn: u64| #[trigger] made.ppns().contains(ppn) == (ppn
                        == fresh) by {
                        if made.leaf_from(0, ppn) {
                            let i = choose|i: int|
                                0 <= i < TABLE_ENTRIES && (#[trigger] made.children@[i]) is Some
                                    && made.children@[i]->0.frame.ppn.0 == ppn;
                            assert(made.children@[i] is None);
                        }
                    }
                    assert forall|ppn: u64| #[trigger]
                        self.ppns().contains(ppn) == (old(self).ppns().contains(ppn) || ppn
                            == fresh) by {
                        if old(self).mid_from(0, ppn) {
                            let i = choose|i: int|
                                0 <= i < TABLE_ENTRIES
                                    && (#[trigger] old(self).children@[i]) is Some
                                    && old(self).children@[i]->0.ppns().contains(ppn);
                            assert(self.children@[i] is Some);
                        }
                        if self.mid_from(0, ppn) {
                            let i = choose|i: int|
                                0 <= i < TABLE_ENTRIES && (#[trigger] self.children@[i]) is Some
                                    && self.children@[i]->0.ppns().contains(ppn);
                            if i != i0 {
                                assert(old(self).children@[i] is Some);
                            }
                        }
                        if ppn == fresh {
                            assert(self.children@[i0 as int] is Some);
                            assert(made.ppns().contains(ppn));
                        }
                    }
                }
                true
            },
        }
    }

    /// Maps `vpn` to `ppn` with `flags` and the valid bit, taking frames from
    /// `pool` for the tables that the walk lacks.
    ///
    /// Fails with `OutOfMemory` when the pool has fewer free frames than
    /// tables are missing, else with `AlreadyMapped` when `vpn` is mapped.
    /// A failure leaves every mapping as it was.
    pub fn map(
        &mut self,
        pool: &mut StackFrameAllocator,
        vpn: VirtPageNum,
        ppn: PhysPageNum,
        flags: PTEFlags,
    ) -> (r: Result<(), MapError>)
        requires
            old(self).wf(),
            old(pool).wf(),
            vpn.wf(),
            ppn.wf(),
        ensures
            final(self).wf(),
            final(pool).wf(),
            final(self).root_ppn() == old(self).root_ppn(),
            final(pool)@ == old(pool)@.allocate_n(old(self).tables_missing(vpn)),
            final(pool)@.same_bounds(old(pool)@),
            r == if old(pool)@.free_count() < old(self).tables_missing(vpn) {
                Err::<(), MapError>(MapError::OutOfMemory)
            } else if old(self).is_mapped(vpn) {
                Err(MapError::AlreadyMapped)
            } else {
                Ok(())
            },
            r is Ok ==> final(self)@ == old(self)@.insert(
                vpn.0,
                PageTableEntry::spec_new(ppn, flags.spec_with(FLAG_V)),
            ),
            r is Err ==> final(self)@ == old(self)@,
            final(self).took(old(self), old(pool)@, old(self).tables_missing(vpn)),
            r !is Err || r == Err::<(), MapError>(MapError::AlreadyMapped)
                ==> final(self).covers_since(old(self), vpn.0 as int, vpn.0 + 1),
    {
        if !self.ensure_tables(pool, vpn) {
            return Err(MapError::OutOfMemory);
        }
        let ghost with_tables = *self;
        proof {
            assert(self@.dom().contains(vpn.0) == self.is_mapped(VirtPageNum(vpn.0)));
            assert(old(self)@.dom().contains(vpn.0) == old(self).is_mapped(VirtPageNum(vpn.0)));
        }
        if self.translate(vpn).is_some() {
            return Err(MapError::AlreadyMapped);
        }
        let fresh = PageTableEntry::new(ppn, flags.with(FLAG_V));
        proof {
            lemma_flag_bits(flags.bits, FLAG_V);
        }
        self.set_entry(vpn, fresh);
        proof {
            assert forall|n: int| #[trigger] self.has_leaf(n) == with_tables.has_leaf(n) by {}
            assert forall|m: int| #[trigger] self.has_mid(m) == with_tables.has_mid(m) by {}
            assert forall|p: u64| #[trigger]
                self.ppns().contains(p) == with_tables.ppns().contains(p) by {}
        }
        Ok(())
    }

    /// Creates the tables that the walk for `vpn` lacks, taking their frames
    /// from `pool`. No mapping changes. Fails when the pool has fewer free
    /// frames than tables are missing; the pool is then empty.
    pub fn ensure_tables(&mut self, pool: &mut StackFrameAllocator, vpn: VirtPageNum) -> (ok: bool)
        requires
            old(self).wf(),
            old(pool).wf(),
        ensures
            final(self).wf(),
            final(pool).wf(),
            final(self).root_ppn() == old(self).root_ppn(),
            final(self)@ == old(self)@,
            final(pool)@ == old(pool)@.allocate_n(old(self).tables_missing(vpn)),
            final(pool)@.same_bounds(old(pool)@),
            ok == (old(pool)@.free_count() >= old(self).tables_missing(vpn)),
            ok ==> final(self).tables_missing(vpn) == 0,
            forall|w: VirtPageNum| #[trigger]
                final(self).tables_missing(w) <= old(self).tables_missing(w),
            ok && vpn.wf() ==> final(self).covers_since(old(self), vpn.0 as int, vpn.0 + 1),
            !ok ==> final(pool)@.free_count() == 0,
            final(self).took(old(self), old(pool)@, old(self).tables_missing(vpn)),
    {
        let (i0, i1, i2) = vpn.indexes();
        proof {
            reveal_with_fuel(FramePool::allocate_n, 3);
            law_alloc_is_fresh(pool@);
            law_alloc_is_fresh(pool@.allocate());
            lemma_allocate_n_keeps_bounds(pool@, self.tables_missing(vpn));
        }
        if !self.ensure_mid(i0, pool) {
            proof {
                let pool0 = old(pool)@;
                assert forall|ppn: u64| #[trigger]
                    self.ppns().contains(ppn) == (old(self).ppns().contains(ppn)
                        || pool0.hands_out(old(self).tables_missing(vpn), ppn)) by {
                    lemma_hands_out_first(pool0, ppn);
                    assert(pool0.allocate() == pool0);
                }
            }
            return false;
        }
        let ghost mid_state = *self;
        let ghost pool_mid = pool@;
        proof {
            assert(old(self).slot_ok(i0 as int));
            assert forall|v: u64| #[trigger]
                mid_state.leaf_entry(VirtPageNum(v)) == old(self).leaf_entry(VirtPageNum(v)) || (
                mid_state.leaf_entry(VirtPageNum(v)) is None && old(self).leaf_entry(
                    VirtPageNum(v),
                ) is None) by {
                let (j0, j1, j2) = VirtPageNum(v).spec_indexes();
                assert(0 <= j2 < 512 && 0 <= j1 < 512 && 0 <= j0 < 512);
                if j0 == i0 && old(self).children@[i0 as int] is None {
                    assert(mid_state.children@[i0 as int]->0.children@[j1] is None);
                }
            }
            assert(mid_state@ =~= old(self)@);
            assert(self.slot_ok(i0 as int));
            assert forall|w: VirtPageNum| #[trigger]
                mid_state.tables_missing(w) <= old(self).tables_missing(w) by {
                let (j0, j1, j2) = w.spec_indexes();
                assert(0 <= j2 < 512 && 0 <= j1 < 512 && 0 <= j0 < 512);
                if j0 == i0 && old(self).children@[i0 as int] is None {
                    assert(mid_state.children@[i0 as int]->0.children@[j1] is None);
                }
            }
        }
        let ok = match &mut self.children[i0] {
            Some(mid) => mid.ensure_leaf(i1, pool),
            None => {
                assert(false);
                false
            },
        };
        proof {
            assert forall|k: int| 0 <= k < TABLE_ENTRIES implies #[trigger] self.slot_ok(k) by {
                assert(mid_state.slot_ok(k));
            }
            let mid_before = mid_state.children@[i0 as int]->0;
            let mid_after = self.children@[i0 as int]->0;
            assert forall|v: u64| #[trigger]
                self.leaf_entry(VirtPageNum(v)) == mid_state.leaf_entry(VirtPageNum(v)) || (
                mid_state.leaf_entry(VirtPageNum(v)) is None && self.leaf_entry(VirtPageNum(v))
                    == Some(PageTableEntry { bits: 0 })) by {
                let (j0, j1, j2) = VirtPageNum(v).spec_indexes();
                assert(0 <= j2 < 512 && 0 <= j1 < 512 && 0 <= j0 < 512);
                if j0 == i0 && j1 == i1 && mid_before.children@[i1 as int] is None && ok {
                    assert(mid_after.slot_ok(i1 as int));
                    assert(mid_after.children@[i1 as int]->0.frame.zeroed());
                    assert(mid_after.children@[i1 as int]->0.frame.words@[j2] == 0);
                }
            }
            lemma_flag_bits(0, 0);
            assert(self@ =~= mid_state@);
            let pool0 = old(pool)@;
            law_alloc_is_fresh(pool0);
            assert forall|ppn: u64| #[trigger]
                self.ppns().contains(ppn) == (old(self).ppns().contains(ppn) || pool0.hands_out(
                    old(self).tables_missing(vpn),
                    ppn,
                )) by {
                lemma_hands_out_first(pool0, ppn);
                lemma_hands_out_first(pool_mid, ppn);
                assert(mid_after.ppns().contains(ppn) == (mid_before.ppns().contains(ppn) || (
                mid_before.children@[i1 as int] is None && pool_mid.next() == Some(ppn))));
                assert(mid_state.ppns().contains(ppn) == (old(self).ppns().contains(ppn)
                    || (old(self).children@[i0 as int] is None && pool0.next() == Some(ppn))));
                if mid_state.mid_from(0, ppn) {
                    let i = choose|i: int|
                        0 <= i < TABLE_ENTRIES && (#[trigger] mid_state.children@[i]) is Some
                            && mid_state.children@[i]->0.ppns().contains(ppn);
                    assert(self.children@[i] is Some);
                    assert(self.mid_from(0, ppn));
                }
                if self.mid_from(0, ppn) {
                    let i = choose|i: int|
                        0 <= i < TABLE_ENTRIES && (#[trigger] self.children@[i]) is Some
                            && self.children@[i]->0.ppns().contains(ppn);
                    assert(mid_state.children@[i] is Some);
                    if i != i0 {
                        assert(mid_state.mid_from(0, ppn));
                    }
                }
                if mid_after.ppns().contains(ppn) {
                    assert(self.children@[i0 as int] is Some);
                    assert(self.mid_from(0, ppn));
                }
                if mid_before.ppns().contains(ppn) {
                    assert(mid_state.children@[i0 as int] is Some);
                    assert(mid_state.mid_from(0, ppn));
                }
            }
        }
        ok
    }

    /// Writes `entry` as the leaf entry of `vpn`, whose tables exist.
    pub fn set_entry(&mut self, vpn: VirtPageNum, entry: PageTableEntry)
        requires
            old(self).wf(),
            vpn.wf(),
            old(self).tables_missing(vpn) == 0,
            entry.spec_is_valid(),
        ensures
            final(self).wf(),
            final(self).root_ppn() == old(self).root_ppn(),
            final(self)@ == old(self)@.insert(vpn.0, entry),
            forall|w: VirtPageNum| #[trigger]
                final(self).tables_missing(w) == old(self).tables_missing(w),
            final(self).same_tables(old(self)),
            forall|p: u64| #[trigger] final(self).ppns().contains(p)
                == old(self).ppns().contains(p),
    {
        let (i0, i1, i2) = vpn.indexes();
        proof {
            assert(self.slot_ok(i0 as int));
        }
        match &mut self.children[i0] {
            Some(mid) => {
                proof {
                    assert(mid.slot_ok(i1 as int));
                }
                match &mut mid.children[i1] {
                    Some(leaf) => {
                        leaf.frame.words[i2] = entry.bits;
                    },
                    None => {
                        assert(false);
                    },
                }
            },
            None => {
                assert(false);
            },
        }
        proof {
            let mid_before = old(self).children@[i0 as int]->0;
            let mid_after = self.children@[i0 as int]->0;
            assert forall|k: int| 0 <= k < TABLE_ENTRIES implies #[trigger] mid_after.slot_ok(
                k,
            ) by {
                assert(mid_before.slot_ok(k));
            }
            assert forall|k: int| 0 <= k < TABLE_ENTRIES implies #[trigger] self.slot_ok(k) by {
                assert(old(self).slot_ok(k));
            }
            assert forall|v: u64| v != vpn.0 implies
                self.is_mapped(VirtPageNum(v)) == old(self).is_mapped(VirtPageNum(v))
                    && (self.is_mapped(VirtPageNum(v)) ==> self.leaf_entry(
                VirtPageNum(v),
            ) == old(self).leaf_entry(VirtPageNum(v))) by {
                let w = VirtPageNum(v);
                let (j0, j1, j2) = w.spec_indexes();
                if w.wf() {
                    if j0 == i0 && j1 == i1 && j2 == i2 {
                        lemma_indexes_injective(w, vpn);
                    }
                }
            }
            assert(self.leaf_entry(vpn) == Some(entry));
            assert(self@ =~= old(self)@.insert(vpn.0, entry));
            assert forall|i: int| 0 <= i < TABLE_ENTRIES implies #[trigger] same_slot(
                *old(self),
                *self,
                i,
            ) by {
                assert(old(self).slot_ok(i));
            }
            lemma_same_slots(*old(self), *self);
        }
    }

    /// Removes the mapping of `vpn`. Fails with `NotMapped`, changing
    /// nothing, when `vpn` is not mapped. The tables stay.
    pub fn unmap(&mut self, vpn: VirtPageNum) -> (r: Result<(), MapError>)
        requires
            old(self).wf(),
        ensures
            final(self).wf(),
            final(self).root_ppn() == old(self).root_ppn(),
            r == if old(self).is_mapped(vpn) {
                Ok::<(), MapError>(())
            } else {
                Err(MapError::NotMapped)
            },
            final(self)@ == old(self)@.remove(vpn.0),
            forall|w: VirtPageNum|
                final(self).tables_missing(w) == old(self).tables_missing(w),
            final(self).same_tables(old(self)),
            forall|p: u64| #[trigger] final(self).ppns().contains(p)
                == old(self).ppns().contains(p),
    {
        if vpn.0 >= VPN_LIMIT {
            assert(self@ =~= old(self)@.remove(vpn.0));
            return Err(MapError::NotMapped);
        }
        let (i0, i1, i2) = vpn.indexes();
        proof {
            assert(self.slot_ok(i0 as int));
        }
        let r = match &mut self.children[i0] {
            Some(mid) => {
                proof {
                    assert(mid.slot_ok(i1 as int));
                }
                match &mut mid.children[i1] {
                    Some(leaf) => {
                        let entry = PageTableEntry { bits: leaf.frame.words[i2] };
                        if entry.is_valid() {
                            leaf.frame.words[i2] = 0;
                            Ok(())
                        } else {
                            Err(MapError::NotMapped)
                        }
                    },
                    None => Err(MapError::NotMapped),
                }
            },
            None => Err(MapError::NotMapped),
        };
        proof {
            lemma_flag_bits(0, 0);
            assert(old(self).slot_ok(i0 as int));
            if old(self).children@[i0 as int] is Some {
                let mid_before = old(self).children@[i0 as int]->0;
                let mid_after = self.children@[i0 as int]->0;
                assert(mid_before.slot_ok(i1 as int));
                assert forall|k: int| 0 <= k < TABLE_ENTRIES implies #[trigger] mid_after.slot_ok(
                    k,
                ) by {
                    assert(mid_before.slot_ok(k));
                }
            }
            assert forall|k: int| 0 <= k < TABLE_ENTRIES implies #[trigger] self.slot_ok(k) by {
                assert(old(self).slot_ok(k));
            }
            assert forall|v: u64| v != vpn.0 implies
                self.is_mapped(VirtPageNum(v)) == old(self).is_mapped(VirtPageNum(v))
                    && (self.is_mapped(VirtPageNum(v)) ==> self.leaf_entry(
                VirtPageNum(v),
            ) == old(self).leaf_entry(VirtPageNum(v))) by {
                let w = VirtPageNum(v);
                let (j0, j1, j2) = w.spec_indexes();
                if w.wf() {
                    if j0 == i0 && j1 == i1 && j2 == i2 {
                        lemma_indexes_injective(w, vpn);
                    }
                }
            }
            assert(!self.is_mapped(vpn));
            assert(self@ =~= old(self)@.remove(vpn.0));
            assert forall|i: int| 0 <= i < TABLE_ENTRIES implies #[trigger] same_slot(
                *old(self),
                *self,
                i,
            ) by {
                assert(old(self).slot_ok(i));
            }
            lemma_same_slots(*old(self), *self);
        }
        r
    }

    /// The entry that maps `vpn`, or `None` when `vpn` is not mapped.
    pub fn translate(&self, vpn: VirtPageNum) -> (r: Option<PageTableEntry>)
        requires
            self.wf(),
        ensures
            r == if self.is_mapped(vpn) {
                Some(self@[vpn.0])
            } else {
                None
            },
    {
        if vpn.0 >= VPN_LIMIT {
            return None;
        }
        let (i0, i1, i2) = vpn.indexes();
        match &self.children[i0] {
            Some(mid) => {
                proof {
                    assert(self.slot_ok(i0 as int));
                }
                match &mid.children[i1] {
                    Some(leaf) => {
                        proof {
                            assert(mid.slot_ok(i1 as int));
                        }
                        let entry = PageTableEntry { bits: leaf.frame.words[i2] };
                        if entry.is_valid() {
                            Some(entry)
                        } else {
                            None
                        }
                    },
                    None => None,
                }
            },
            None => None,
        }
    }

    /// Ends the page table and gives the frames of all its tables back to
    /// `pool`. Afterwards none of them is handed out, and every other frame
    /// is handed out exactly when it was before.
    pub fn release(self, pool: &mut StackFrameAllocator)
        requires
            old(pool).wf(),
            self.wf(),
        ensures
            final(pool).wf(),
            final(pool)@ == released_tables(old(pool)@, self),
            final(pool)@.same_range(old(pool)@),
            forall|ppn: u64|
                #[trigger] final(pool)@.is_allocated(ppn) == (old(pool)@.is_allocated(ppn)
                    && !self.ppns().contains(ppn)),
    {
        let PageTable { frame, children } = self;
        let mut children = children;
        let ghost all = children@;
        while children.len() > 0
            invariant
                pool.wf(),
                pool@.same_range(old(pool)@),
                released_mids(pool@, children@) == released_mids(old(pool)@, all),
                self.wf(),
                all == self.children@,
                all.len() == TABLE_ENTRIES,
                children@.len() <= all.len(),
                children@ == all.subrange(0, children@.len() as int),
                forall|ppn: u64|
                    #[trigger] pool@.is_allocated(ppn) == (old(pool)@.is_allocated(ppn)
                        && !self.mid_from(children@.len() as int, ppn)),
            decreases children@.len(),
        {
            let ghost pool_before = pool@;
            let slot = children.pop().unwrap();
            let ghost at = children@.len() as int;
            proof {
                assert(children@ =~= all.subrange(0, at));
                assert(slot == all[at]);
                assert(self.slot_ok(at));
            }
            match slot {
                Some(mid) => {
                    mid.release(pool);
                },
                None => {},
            }
            proof {
                assert forall|ppn: u64| #[trigger]
                    pool@.is_allocated(ppn) == (old(pool)@.is_allocated(ppn) && !self.mid_from(
                        at,
                        ppn,
                    )) by {
                    let gone_here = all[at] is Some && all[at]->0.ppns().contains(ppn);
                    assert(pool_before.is_allocated(ppn) == (old(pool)@.is_allocated(ppn)
                        && !self.mid_from(at + 1, ppn)));
                    assert(pool@.is_allocated(ppn) == (pool_before.is_allocated(ppn)
                        && !gone_here));
                    if gone_here {
                        assert(self.children@[at] is Some);
                        assert(self.mid_from(at, ppn));
                    }
                    if self.mid_from(at + 1, ppn) {
                        let i = choose|i: int|
                            at + 1 <= i < TABLE_ENTRIES && (#[trigger] self.children@[i]) is Some
                                && self.children@[i]->0.ppns().contains(ppn);
                        assert(self.children@[i] is Some);
                        assert(self.mid_from(at, ppn));
                    }
                    if self.mid_from(at, ppn) && !gone_here {
                        let i = choose|i: int|
                            at <= i < TABLE_ENTRIES && (#[trigger] self.children@[i]) is Some
                                && self.children@[i]->0.ppns().contains(ppn);
                        assert(self.children@[i] is Some);
                        assert(self.mid_from(at + 1, ppn));
                    }
                }
            }
        }
        let ghost drained = pool@;
        proof {
            law_dealloc_frees(drained, frame.ppn.0);
        }
        let _ = frame_dealloc(pool, frame);
        proof {
            assert forall|ppn: u64| #[trigger]
                pool@.is_allocated(ppn) == (old(pool)@.is_allocated(ppn) && !self.ppns().contains(
                    ppn,
                )) by {
                assert(frame.ppn.0 == self.frame.ppn.0);
                assert(pool@ == drained.dealloc(frame.ppn.0));
                if ppn != frame.ppn.0 {
                    assert(pool@.is_allocated(ppn) == drained.is_allocated(ppn));
                } else {
                    assert(!pool@.is_allocated(ppn));
                }
                assert(self.ppns().contains(ppn) == (ppn == self.frame.ppn.0 || self.ppns_below(
                    ppn,
                )));
            }
        }
    }

    /// Creates the tables that are lacking to map the pages of `range`,
    /// taking their frames from `pool`. No mapping changes. Fails when the
    /// pool has fewer free frames than tables are lacking; the pool is then
    /// empty.
    pub fn ensure_tables_for(&mut self, pool: &mut StackFrameAllocator, range: &VPNRange) -> (ok:
        bool)
        requires
            old(self).wf(),
            old(pool).wf(),
            range.wf(),
        ensures
            final(self).wf(),
            final(pool).wf(),
            final(self).root_ppn() == old(self).root_ppn(),
            final(self)@ == old(self)@,
            final(pool)@.same_bounds(old(pool)@),
            ok == (old(pool)@.free_count() >= old(self).tables_needed(
                range.start.0 as int,
                range.end.0 as int,
            )),
            final(pool)@ == old(pool)@.allocate_n(
                old(self).tables_needed(range.start.0 as int, range.end.0 as int),
            ),
            ok ==> final(self).covers_since(old(self), range.start.0 as int, range.end.0 as int),
            final(self).took(
                old(self),
                old(pool)@,
                old(self).tables_needed(range.start.0 as int, range.end.0 as int),
            ),
            ok ==> forall|u: u64|
                range.start.0 <= u < range.end.0 ==> #[trigger] final(self).tables_missing(
                    VirtPageNum(u),
                ) == 0,
            forall|w: VirtPageNum| #[trigger]
                final(self).tables_missing(w) <= old(self).tables_missing(w),
    {
        let start: u64 = range.start.0;
        let end: u64 = range.end.0;
        let mut v: u64 = start;
        proof {
            lemma_allocate_n_adds_up(pool@, 0, 0);
            assert forall|ppn: u64| !(#[trigger] pool@.hands_out(0, ppn)) by {
                lemma_hands_out_first(pool@, ppn);
            }
        }
        while v < end
            invariant
                old(self).wf(),
                old(pool).wf(),
                self.wf(),
                pool.wf(),
                start <= v <= end <= VPN_LIMIT,
                start == range.start.0,
                end == range.end.0,
                self.root_ppn() == old(self).root_ppn(),
                self@ == old(self)@,
                pool@.same_bounds(old(pool)@),
                old(pool)@.free_count() >= old(self).tables_needed(start as int, v as int),
                pool@ == old(pool)@.allocate_n(old(self).tables_needed(start as int, v as int)),
                self.took(old(self), old(pool)@, old(self).tables_needed(start as int, v as int)),
                self.covers_since(old(self), start as int, v as int),
                forall|u: u64|
                    start <= u < v ==> #[trigger] self.tables_missing(VirtPageNum(u)) == 0,
                forall|w: VirtPageNum| #[trigger]
                    self.tables_missing(w) <= old(self).tables_missing(w),
            decreases end - v,
        {
            let ghost before = *self;
            let ghost taken = old(self).tables_needed(start as int, v as int);
            let ghost step = self.tables_missing(VirtPageNum(v));
            proof {
                lemma_tables_needed_step(*old(self), before, start as int, v as int);
                lemma_tables_needed_grows(*old(self), start as int, v + 1, end as int);
                lemma_allocate_n_adds_up(old(pool)@, taken, step);
                lemma_allocate_n_adds_up(
                    old(pool)@,
                    old(self).tables_needed(start as int, end as int),
                    0,
                );
                lemma_allocate_n_adds_up(old(pool)@, taken + step, 0);
            }
            let ghost pool_before = pool@;
            if !self.ensure_tables(pool, VirtPageNum(v)) {
                proof {
                    let total = old(self).tables_needed(start as int, end as int);
                    assert(pool_before.free_count() == old(pool)@.free_count() - taken);
                    assert(pool_before.free_count() < step);
                    assert(old(self).tables_needed(start as int, v + 1) == taken + step);
                    assert(taken + step <= total);
                    assert(pool@ == old(pool)@.allocate_n(taken + step));
                    assert(old(pool)@.allocate_n(taken + step) == old(pool)@.allocate_n(
                        old(pool)@.free_count(),
                    ));
                    assert(old(pool)@.allocate_n(total) == old(pool)@.allocate_n(
                        old(pool)@.free_count(),
                    ));
                    assert forall|ppn: u64| #[trigger]
                        self.ppns().contains(ppn) == (old(self).ppns().contains(ppn)
                            || old(pool)@.hands_out(total, ppn)) by {
                        lemma_hands_out_in_turn(old(pool)@, taken, step, ppn);
                        lemma_hands_out_stops(old(pool)@, taken + step, ppn);
                        lemma_hands_out_stops(old(pool)@, total, ppn);
                        assert(self.ppns().contains(ppn) == (before.ppns().contains(ppn)
                            || pool_before.hands_out(step, ppn)));
                        assert(before.ppns().contains(ppn) == (old(self).ppns().contains(ppn)
                            || old(pool)@.hands_out(taken, ppn)));
                    }
                }
                return false;
            }
            proof {
                assert forall|ppn: u64| #[trigger]
                    self.ppns().contains(ppn) == (old(self).ppns().contains(ppn)
                        || old(pool)@.hands_out(taken + step, ppn)) by {
                    lemma_hands_out_in_turn(old(pool)@, taken, step, ppn);
                    assert(self.ppns().contains(ppn) == (before.ppns().contains(ppn)
                        || pool_before.hands_out(step, ppn)));
                    assert(before.ppns().contains(ppn) == (old(self).ppns().contains(ppn)
                        || old(pool)@.hands_out(taken, ppn)));
                }
                assert forall|u: u64| start <= u < v + 1 implies #[trigger] self.tables_missing(
                    VirtPageNum(u),
                ) == 0 by {
                    assert(self.tables_missing(VirtPageNum(u)) <= before.tables_missing(
                        VirtPageNum(u),
                    ));
                }
                assert forall|w: VirtPageNum| #[trigger]
                    self.tables_missing(w) <= old(self).tables_missing(w) by {
                    assert(self.tables_missing(w) <= before.tables_missing(w));
                }
                assert forall|n: int| #[trigger]
                    self.has_leaf(n) == (old(self).has_leaf(n) || (start < v + 1 && start / 512
                        <= n <= (v + 1 - 1) / 512)) by {
                    assert(self.has_leaf(n) == (before.has_leaf(n) || (v / 512 <= n <= v / 512)));
                    assert(before.has_leaf(n) == (old(self).has_leaf(n) || (start < v && start
                        / 512 <= n <= (v - 1) / 512)));
                }
                assert forall|m: int| #[trigger]
                    self.has_mid(m) == (old(self).has_mid(m) || (start < v + 1 && start / 262144
                        <= m <= (v + 1 - 1) / 262144)) by {
                    assert(self.has_mid(m) == (before.has_mid(m) || (v / 262144 <= m <= v
                        / 262144)));
                    assert(before.has_mid(m) == (old(self).has_mid(m) || (start < v && start
                        / 262144 <= m <= (v - 1) / 262144)));
                }
            }
            v = v + 1;
        }
        true
    }
}

/// Slot `i` of two page tables holds tables on the same frames.
pub open spec fn same_slot(before: PageTable, after: PageTable, i: int) -> bool {
    &&& (after.children@[i] is Some) == (before.children@[i] is Some)
    &&& after.children@[i] matches Some(now) ==> {
        let then = before.children@[i]->0;
        &&& now.frame.ppn == then.frame.ppn
        &&& now.children@.len() == then.children@.len()
        &&& forall|j: int|
            0 <= j < TABLE_ENTRIES ==> ((#[trigger] now.children@[j]) is Some) == (
            then.children@[j] is Some)
        &&& forall|j: int|
            0 <= j < TABLE_ENTRIES && (#[trigger] now.children@[j]) is Some
                ==> now.children@[j]->0.frame.ppn == then.children@[j]->0.frame.ppn
    }
}

/// Two page tables whose tables are on the same frames have the same
/// tables and the same table frames.
pub proof fn lemma_same_slots(before: PageTable, after: PageTable)
    requires
        after.frame.ppn == before.frame.ppn,
        forall|i: int| 0 <= i < TABLE_ENTRIES ==> #[trigger] same_slot(before, after, i),
    ensures
        after.same_tables(&before),
        forall|p: u64| #[trigger] after.ppns().contains(p) == before.ppns().contains(p),
{
    assert forall|n: int| #[trigger] after.has_leaf(n) == before.has_leaf(n) by {
        if 0 <= n < 512 * 512 {
            assert(same_slot(before, after, n / 512));
        }
    }
    assert forall|m: int| #[trigger] after.has_mid(m) == before.has_mid(m) by {
        if 0 <= m < 512 {
            assert(same_slot(before, after, m));
        }
    }
    assert forall|p: u64| #[trigger] after.ppns().contains(p) == before.ppns().contains(p) by {
        if after.mid_from(0, p) {
            let i = choose|i: int|
                0 <= i < TABLE_ENTRIES && (#[trigger] after.children@[i]) is Some
                    && after.children@[i]->0.ppns().contains(p);
            assert(same_slot(before, after, i));
            let now = after.children@[i]->0;
            let then = before.children@[i]->0;
            if now.leaf_from(0, p) {
                let j = choose|j: int|
                    0 <= j < TABLE_ENTRIES && (#[trigger] now.children@[j]) is Some
                        && now.children@[j]->0.frame.ppn.0 == p;
                assert(then.children@[j] is Some);
                assert(then.leaf_from(0, p));
            }
            assert(then.ppns().contains(p));
            assert(before.children@[i] is Some);
            assert(before.mid_from(0, p));
        }
        if before.mid_from(0, p) {
            let i = choose|i: int|
                0 <= i < TABLE_ENTRIES && (#[trigger] before.children@[i]) is Some
                    && before.children@[i]->0.ppns().contains(p);
            assert(same_slot(before, after, i));
            let now = after.children@[i]->0;
            let then = before.children@[i]->0;
            if then.leaf_from(0, p) {
                let j = choose|j: int|
                    0 <= j < TABLE_ENTRIES && (#[trigger] then.children@[j]) is Some
                        && then.children@[j]->0.frame.ppn.0 == p;
                assert(now.children@[j] is Some);
                assert(now.leaf_from(0, p));
            }
            assert(now.ppns().contains(p));
            assert(after.children@[i] is Some);
            assert(after.mid_from(0, p));
        }
    }
}

/// Mapping one more page takes the tables that its walk lacks: the tables
/// lacking for the pages from `start` up to `v` are those lacking up to,
/// not including, `v`, and those that the walk for `v` lacks once the
/// tables for the pages before it exist.
pub proof fn lemma_tables_needed_step(before: PageTable, now: PageTable, start: int, v: int)
    requires
        0 <= start <= v < VPN_LIMIT,
        now.covers_since(&before, start, v),
    ensures
        before.tables_needed(start, v + 1) == before.tables_needed(start, v) + now.tables_missing(
            VirtPageNum(v as u64),
        ),
{
    let n = v / 512;
    let m = v / 262144;
    let (i0, i1, i2) = VirtPageNum(v as u64).spec_indexes();
    assert(i0 == m && n / 512 == m && n % 512 == i1);
    assert(now.tables_missing(VirtPageNum(v as u64)) == (if now.has_leaf(n) {
        0nat
    } else {
        1nat
    }) + (if now.has_mid(m) {
        0nat
    } else {
        1nat
    }));
    assert(now.has_leaf(n) == (before.has_leaf(n) || (start < v && start / 512 <= n <= (v - 1)
        / 512)));
    assert(now.has_mid(m) == (before.has_mid(m) || (start < v && start / 262144 <= m <= (v - 1)
        / 262144)));
    reveal_with_fuel(PageTable::leaves_missing, 2);
    reveal_with_fuel(PageTable::mids_missing, 2);
    if start < v {
        if (v - 1) / 512 == n {
        } else {
            assert((v - 1) / 512 + 1 == n);
        }
        if (v - 1) / 262144 == m {
        } else {
            assert((v - 1) / 262144 + 1 == m);
        }
    } else {
        assert(before.leaves_missing(n, n) == 0);
        assert(before.mids_missing(m, m) == 0);
    }
}

/// The tables lacking for more pages are no fewer.
pub proof fn lemma_tables_needed_grows(table: PageTable, start: int, mid: int, end: int)
    requires
        0 <= start <= mid <= end,
    ensures
        table.tables_needed(start, mid) <= table.tables_needed(start, end),
{
    if start < mid {
        lemma_missing_grows(table, start / 512, (mid - 1) / 512 + 1, (end - 1) / 512 + 1);
        lemma_missing_grows(table, start / 262144, (mid - 1) / 262144 + 1, (end - 1) / 262144 + 1);
    }
}

/// The tables lacking among more table numbers are no fewer.
pub proof fn lemma_missing_grows(table: PageTable, lo: int, mid: int, hi: int)
    requires
        mid <= hi,
    ensures
        table.leaves_missing(lo, mid) <= table.leaves_missing(lo, hi),
        table.mids_missing(lo, mid) <= table.mids_missing(lo, hi),
    decreases hi - mid,
{
    if mid < hi {
        lemma_missing_grows(table, lo, mid, hi - 1);
    }
}

} // verus!
