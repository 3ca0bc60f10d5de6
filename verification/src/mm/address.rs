//! Physical and virtual addresses and page numbers.
//!
//! Addresses are 64-bit values cut down to the widths the translation
//! hardware uses: 39 bits of virtual address (27 bits of page number) and 56
//! bits of physical address (44 bits of page number).

use vstd::prelude::*;
use crate::config::{PAGE_SIZE, VA_LIMIT, VPN_LIMIT, PA_LIMIT, PPN_LIMIT};

verus! {

/// A physical address.
#[derive(Clone, Copy, Debug, PartialEq, Eq, Structural)]
pub struct PhysAddr(pub u64);

/// A virtual address.
#[derive(Clone, Copy, Debug, PartialEq, Eq, Structural)]
pub struct VirtAddr(pub u64);

/// A physical page number.
#[derive(Clone, Copy, Debug, PartialEq, Eq, Structural)]
pub struct PhysPageNum(pub u64);

/// A virtual page number.
#[derive(Clone, Copy, Debug, PartialEq, Eq, Structural)]
pub struct VirtPageNum(pub u64);

impl PhysAddr {
    /// The address is within the physical address width.
    pub open spec fn wf(&self) -> bool {
        self.0 < PA_LIMIT
    }

    /// Keeps the low 56 bits of `v`.
    pub fn new(v: u64) -> (r: PhysAddr)
        ensures
            r.0 == v % PA_LIMIT,
            r.wf(),
    {
        PhysAddr(v % PA_LIMIT)
    }

    /// The page that holds this address.
    pub fn floor(&self) -> (r: PhysPageNum)
        ensures
            r.0 == self.0 / PAGE_SIZE,
            self.wf() ==> r.wf(),
    {
        PhysPageNum(self.0 / PAGE_SIZE)
    }

    /// The first page at or above this address.
    pub fn ceil(&self) -> (r: PhysPageNum)
        requires
            self.wf(),
        ensures
            r.0 == (self.0 + PAGE_SIZE - 1) / (PAGE_SIZE as int),
    {
        PhysPageNum((self.0 + (PAGE_SIZE - 1)) / PAGE_SIZE)
    }

    /// Offset of the address inside its page.
    pub fn page_offset(&self) -> (r: u64)
        ensures
            r == self.0 % PAGE_SIZE,
            r < PAGE_SIZE,
    {
        self.0 % PAGE_SIZE
    }

    /// Whether the address is the first of a page.
    pub fn aligned(&self) -> (r: bool)
        ensures
            r == (self.0 % PAGE_SIZE == 0),
    {
        self.page_offset() == 0
    }
}

impl VirtAddr {
    /// The address is within the virtual address width.
    pub open spec fn wf(&self) -> bool {
        self.0 < VA_LIMIT
    }

    /// Keeps the low 39 bits of `v`.
    pub fn new(v: u64) -> (r: VirtAddr)
        ensures
            r.0 == v % VA_LIMIT,
            r.wf(),
    {
        VirtAddr(v % VA_LIMIT)
    }

    /// The page that holds this address.
    pub fn floor(&self) -> (r: VirtPageNum)
        ensures
            r.0 == self.0 / PAGE_SIZE,
            self.wf() ==> r.wf(),
    {
        VirtPageNum(self.0 / PAGE_SIZE)
    }

    /// The first page at or above this address.
    pub fn ceil(&self) -> (r: VirtPageNum)
        requires
            self.wf(),
        ensures
            r.0 == (self.0 + PAGE_SIZE - 1) / (PAGE_SIZE as int),
            r.0 <= VPN_LIMIT,
    {
        VirtPageNum((self.0 + (PAGE_SIZE - 1)) / PAGE_SIZE)
    }

    /// Offset of the address inside its page.
    pub fn page_offset(&self) -> (r: u64)
        ensures
            r == self.0 % PAGE_SIZE,
            r < PAGE_SIZE,
    {
        self.0 % PAGE_SIZE
    }

    /// Whether the address is the first of a page.
    pub fn aligned(&self) -> (r: bool)
        ensures
            r == (self.0 % PAGE_SIZE == 0),
    {
        self.page_offset() == 0
    }
}

impl PhysPageNum {
    /// The page number is within the physical page-number width.
    pub open spec fn wf(&self) -> bool {
        self.0 < PPN_LIMIT
    }

    /// Keeps the low 44 bits of `v`.
    pub fn new(v: u64) -> (r: PhysPageNum)
        ensures
            r.0 == v % PPN_LIMIT,
            r.wf(),
    {
        PhysPageNum(v % PPN_LIMIT)
    }

    /// Address of the first byte of the page.
    pub fn start_addr(&self) -> (r: PhysAddr)
        requires
            self.wf(),
        ensures
            r.0 == self.0 * PAGE_SIZE,
            r.wf(),
    {
        PhysAddr(self.0 * PAGE_SIZE)
    }
}

impl VirtPageNum {
    /// The page number is within the virtual page-number width.
    pub open spec fn wf(&self) -> bool {
        self.0 < VPN_LIMIT
    }

    /// The three 9-bit table indexes of the page number, from the root
    /// table down to the leaf table.
    pub open spec fn spec_indexes(&self) -> (int, int, int) {
        (
            (self.0 as int / 262144) % 512,
            (self.0 as int / 512) % 512,
            self.0 as int % 512,
        )
    }

    /// Keeps the low 27 bits of `v`.
    pub fn new(v: u64) -> (r: VirtPageNum)
        ensures
            r.0 == v % VPN_LIMIT,
            r.wf(),
    {
        VirtPageNum(v % VPN_LIMIT)
    }

    /// Address of the first byte of the page.
    pub fn start_addr(&self) -> (r: VirtAddr)
        requires
            self.wf(),
        ensures
            r.0 == self.0 * PAGE_SIZE,
            r.wf(),
    {
        VirtAddr(self.0 * PAGE_SIZE)
    }

    /// The three table indexes, root first.
    pub fn indexes(&self) -> (r: (usize, usize, usize))
        ensures
            (r.0 as int, r.1 as int, r.2 as int) == self.spec_indexes(),
            r.0 < 512,
            r.1 < 512,
            r.2 < 512,
    {
        let i0: u64 = (self.0 / 262144) % 512;
        let i1: u64 = (self.0 / 512) % 512;
        let i2: u64 = self.0 % 512;
        (i0 as usize, i1 as usize, i2 as usize)
    }
}

/// Two page numbers within the page-number width that share all three table
/// indexes are the same page number.
pub proof fn lemma_indexes_injective(a: VirtPageNum, b: VirtPageNum)
    requires
        a.wf(),
        b.wf(),
        a.spec_indexes() == b.spec_indexes(),
    ensures
        a == b,
{
    let x = a.0 as int;
    let y = b.0 as int;
    assert(x == (x / 262144) * 262144 + ((x / 512) % 512) * 512 + x % 512);
    assert(y == (y / 262144) * 262144 + ((y / 512) % 512) * 512 + y % 512);
    assert(x / 262144 < 512);
    assert(y / 262144 < 512);
}

/// A half-open range of virtual page numbers.
#[derive(Clone, Copy, Debug, PartialEq, Eq, Structural)]
pub struct VPNRange {
    pub start: VirtPageNum,
    pub end: VirtPageNum,
}

impl VPNRange {
    /// The bounds are in order and within the page-number width.
    pub open spec fn wf(&self) -> bool {
        self.start.0 <= self.end.0 <= VPN_LIMIT
    }

    /// Whether `vpn` lies in the range.
    pub open spec fn spec_contains(&self, vpn: VirtPageNum) -> bool {
        self.start.0 <= vpn.0 < self.end.0
    }

    /// Number of pages in the range.
    pub open spec fn spec_len(&self) -> nat {
        if self.start.0 <= self.end.0 {
            (self.end.0 - self.start.0) as nat
        } else {
            0
        }
    }

    /// Whether the two ranges share a page.
    pub open spec fn spec_overlaps(&self, other: &VPNRange) -> bool {
        exists|vpn: VirtPageNum| self.spec_contains(vpn) && other.spec_contains(vpn)
    }

    /// The range from `start` up to, not including, `end`; empty when `end`
    /// is not above `start`.
    pub fn new(start: VirtPageNum, end: VirtPageNum) -> (r: VPNRange)
        ensures
            r.start == start,
            r.end == end,
    {
        VPNRange { start, end }
    }

    /// Whether `vpn` lies in the range.
    #[verifier::when_used_as_spec(spec_contains)]
    pub fn contains(&self, vpn: VirtPageNum) -> (r: bool)
        ensures
            r == self.spec_contains(vpn),
    {
        self.start.0 <= vpn.0 && vpn.0 < self.end.0
    }

    /// Number of pages in the range.
    pub fn len(&self) -> (r: u64)
        ensures
            r == self.spec_len(),
    {
        if self.start.0 <= self.end.0 {
            self.end.0 - self.start.0
        } else {
            0
        }
    }

    /// Whether the two ranges share a page.
    #[verifier::when_used_as_spec(spec_overlaps)]
    pub fn overlaps(&self, other: &VPNRange) -> (r: bool)
        ensures
            r == self.spec_overlaps(other),
    {
        let lo: u64 = if self.start.0 >= other.start.0 { self.start.0 } else { other.start.0 };
        let hi: u64 = if self.end.0 <= other.end.0 { self.end.0 } else { other.end.0 };
        proof {
            if lo < hi {
                assert(self.spec_contains(VirtPageNum(lo)) && other.spec_contains(VirtPageNum(lo)));
            }
        }
        lo < hi
    }
}

} // verus!
