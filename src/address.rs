use vstd::prelude::*;

verus! {

/// Bytes in one page.
pub const PAGE_SIZE: u64 = 4096;
/// Width of the in-page offset.
pub const PAGE_SIZE_BITS: u64 = 12;
/// Number of distinct physical addresses (56-bit physical address space).
pub const PA_LIMIT: u64 = 0x0100_0000_0000_0000;
/// Number of distinct virtual addresses (39-bit virtual address space).
pub const VA_LIMIT: u64 = 0x80_0000_0000;
/// Number of distinct physical page numbers (44 bits).
pub const PPN_LIMIT: u64 = 0x1000_0000_0000;
/// Number of distinct virtual page numbers (27 bits).
pub const VPN_LIMIT: u64 = 0x800_0000;
/// Entries per page-table node (9 index bits per level).
pub const ENTRIES_PER_NODE: u64 = 512;

/// A byte-granular physical address.
#[derive(Clone, Copy, Debug, PartialEq, Eq, Structural)]
pub struct PhysAddr(pub u64);

/// A byte-granular virtual address.
#[derive(Clone, Copy, Debug, PartialEq, Eq, Structural)]
pub struct VirtAddr(pub u64);

/// A page-granular physical address.
#[derive(Clone, Copy, Debug, PartialEq, Eq, Structural)]
pub struct PhysPageNum(pub u64);

/// A page-granular virtual address.
#[derive(Clone, Copy, Debug, PartialEq, Eq, Structural)]
pub struct VirtPageNum(pub u64);

/// The three 9-bit table indices of a virtual page number, most significant first.
pub open spec fn vpn_index(vpn: int, level: int) -> int {
    if level == 0 {
        (vpn / 0x40000) % 512
    } else if level == 1 {
        (vpn / 512) % 512
    } else {
        vpn % 512
    }
}

/// Rounds a byte count up to whole pages.
pub open spec fn pages_up(v: int) -> int {
    (v + 4095) / 4096
}

impl PhysAddr {
    /// Keeps the low 56 bits of `v`.
    pub fn new(v: u64) -> (r: PhysAddr)
        ensures
            r.0 == v % PA_LIMIT,
    {
        PhysAddr(v % PA_LIMIT)
    }

    /// The page that holds this address.
    pub fn floor(self) -> (r: PhysPageNum)
        ensures
            r.0 == self.0 / PAGE_SIZE,
    {
        PhysPageNum(self.0 / PAGE_SIZE)
    }

    /// The first page at or above this address.
    pub fn ceil(self) -> (r: PhysPageNum)
        ensures
            r.0 == pages_up(self.0 as int),
    {
        if self.0 % PAGE_SIZE == 0 {
            PhysPageNum(self.0 / PAGE_SIZE)
        } else {
            PhysPageNum(self.0 / PAGE_SIZE + 1)
        }
    }

    /// The offset of this address inside its page.
    pub fn page_offset(self) -> (r: u64)
        ensures
            r == self.0 % PAGE_SIZE,
    {
        self.0 % PAGE_SIZE
    }

    /// Whether the address starts a page.
    pub fn aligned(self) -> (r: bool)
        ensures
            r == (self.0 % PAGE_SIZE == 0),
    {
        self.0 % PAGE_SIZE == 0
    }
}

impl VirtAddr {
    /// Keeps the low 39 bits of `v`.
    pub fn new(v: u64) -> (r: VirtAddr)
        ensures
            r.0 == v % VA_LIMIT,
    {
        VirtAddr(v % VA_LIMIT)
    }

    /// The page that holds this address.
    pub fn floor(self) -> (r: VirtPageNum)
        ensures
            r.0 == self.0 / PAGE_SIZE,
    {
        VirtPageNum(self.0 / PAGE_SIZE)
    }

    /// The first page at or above this address.
    pub fn ceil(self) -> (r: VirtPageNum)
        ensures
            r.0 == pages_up(self.0 as int),
    {
        if self.0 % PAGE_SIZE == 0 {
            VirtPageNum(self.0 / PAGE_SIZE)
        } else {
            VirtPageNum(self.0 / PAGE_SIZE + 1)
        }
    }

    /// The offset of this address inside its page.
    pub fn page_offset(self) -> (r: u64)
        ensures
            r == self.0 % PAGE_SIZE,
    {
        self.0 % PAGE_SIZE
    }

    /// Whether the address starts a page.
    pub fn aligned(self) -> (r: bool)
        ensures
            r == (self.0 % PAGE_SIZE == 0),
    {
        self.0 % PAGE_SIZE == 0
    }
}

impl PhysPageNum {
    /// Keeps the low 44 bits of `v`.
    pub fn new(v: u64) -> (r: PhysPageNum)
        ensures
            r.0 == v % PPN_LIMIT,
    {
        PhysPageNum(v % PPN_LIMIT)
    }

    /// The first address of the page; the page number is first cut to 44 bits.
    pub fn addr(self) -> (r: PhysAddr)
        ensures
            r.0 == (self.0 % PPN_LIMIT) * PAGE_SIZE,
    {
        let p = self.0 % PPN_LIMIT;
        assert(p * 4096 < 0x0100_0000_0000_0000) by (nonlinear_arith)
            requires
                p < 0x1000_0000_0000,
        ;
        PhysAddr(p * PAGE_SIZE)
    }
}

impl VirtPageNum {
    /// Keeps the low 27 bits of `v`.
    pub fn new(v: u64) -> (r: VirtPageNum)
        ensures
            r.0 == v % VPN_LIMIT,
    {
        VirtPageNum(v % VPN_LIMIT)
    }

    /// The first address of the page; the page number is first cut to 27 bits.
    pub fn addr(self) -> (r: VirtAddr)
        ensures
            r.0 == (self.0 % VPN_LIMIT) * PAGE_SIZE,
    {
        let p = self.0 % VPN_LIMIT;
        assert(p * 4096 < 0x80_0000_0000) by (nonlinear_arith)
            requires
                p < 0x800_0000,
        ;
        VirtAddr(p * PAGE_SIZE)
    }

    /// The table index used at each of the three levels of a walk.
    pub fn indexes(self) -> (r: [u64; 3])
        ensures
            r[0] as int == vpn_index(self.0 as int, 0),
            r[1] as int == vpn_index(self.0 as int, 1),
            r[2] as int == vpn_index(self.0 as int, 2),
            r[0] < 512,
            r[1] < 512,
            r[2] < 512,
    {
        [(self.0 / 0x40000) % 512, (self.0 / 512) % 512, self.0 % 512]
    }
}

} // verus!
