use vstd::prelude::*;
use crate::address::{PhysPageNum, VirtPageNum, vpn_index, PPN_LIMIT, VPN_LIMIT};
use crate::frame_allocator::{FrameAllocState, FrameAllocator, FrameTracker, lemma_alloc_in_range, lemma_took_none, lemma_took_trans, lemma_gave_trans};

verus! {

/// Entry flag: the entry is valid.
pub const PTE_V: u8 = 1;
/// Entry flag: the page may be read.
pub const PTE_R: u8 = 2;
/// Entry flag: the page may be written.
pub const PTE_W: u8 = 4;
/// Entry flag: the page may be executed.
pub const PTE_X: u8 = 8;
/// Entry flag: the page is reachable from user mode.
pub const PTE_U: u8 = 16;
/// Entry flag: the mapping is global.
pub const PTE_G: u8 = 32;
/// Entry flag: the page was accessed.
pub const PTE_A: u8 = 64;
/// Entry flag: the page was written.
pub const PTE_D: u8 = 128;

/// The eight flag bits of a page-table entry.
#[derive(Clone, Copy, Debug, PartialEq, Eq, Structural)]
pub struct PTEFlags {
    pub bits: u8,
}

/// One hardware page-table slot: flags in bits 0..8, the physical page number
/// from bit 10 up.
#[derive(Clone, Copy, Debug, PartialEq, Eq, Structural)]
pub struct PageTableEntry {
    pub bits: u64,
}

/// The word that holds page number `ppn` with flag bits `flags`.
pub open spec fn pte_bits(ppn: u64, flags: u8) -> u64 {
    (ppn * 1024 + flags) as u64
}

/// Whether flag bit `k` (0 = valid .. 7 = dirty) is set in an entry word.
pub open spec fn bit_set(bits: u64, k: u64) -> bool {
    (bits >> k) & 1 == 1
}

impl PageTableEntry {
    pub open spec fn ppn_spec(self) -> u64 {
        (self.bits >> 10) & 0xfff_ffff_ffff
    }

    pub open spec fn flags_spec(self) -> u8 {
        (self.bits & 0xff) as u8
    }

    pub open spec fn valid_spec(self) -> bool {
        bit_set(self.bits, 0)
    }

    /// An entry pointing at `ppn` with `flags`.
    pub fn new(ppn: PhysPageNum, flags: PTEFlags) -> (r: PageTableEntry)
        requires
            ppn.0 < PPN_LIMIT,
        ensures
            r.bits == pte_bits(ppn.0, flags.bits),
    {
        PageTableEntry { bits: ppn.0 * 1024 + flags.bits as u64 }
    }

    /// The invalid entry.
    pub fn empty() -> (r: PageTableEntry)
        ensures
            r.bits == 0,
    {
        PageTableEntry { bits: 0 }
    }

    /// The physical page number field.
    pub fn ppn(&self) -> (r: PhysPageNum)
        ensures
            r.0 == self.ppn_spec(),
    {
        PhysPageNum((self.bits >> 10) & 0xfff_ffff_ffff)
    }

    /// The flag bits.
    pub fn flags(&self) -> (r: PTEFlags)
        ensures
            r.bits == self.flags_spec(),
    {
        PTEFlags { bits: (self.bits & 0xff) as u8 }
    }

    pub fn is_valid(&self) -> (r: bool)
        ensures
            r == bit_set(self.bits, 0),
    {
        (self.bits >> 0) & 1 == 1
    }

    pub fn readable(&self) -> (r: bool)
        ensures
            r == bit_set(self.bits, 1),
    {
        (self.bits >> 1) & 1 == 1
    }

    pub fn writable(&self) -> (r: bool)
        ensures
            r == bit_set(self.bits, 2),
    {
        (self.bits >> 2) & 1 == 1
    }

    pub fn executable(&self) -> (r: bool)
        ensures
            r == bit_set(self.bits, 3),
    {
        (self.bits >> 3) & 1 == 1
    }

    pub fn user(&self) -> (r: bool)
        ensures
            r == bit_set(self.bits, 4),
    {
        (self.bits >> 4) & 1 == 1
    }
}

/// An entry built from a page number and flags gives both back unchanged, and each
/// flag bit of the entry is the flag bit given.
pub proof fn lemma_pte_fields(ppn: u64, flags: u8)
    requires
        ppn < PPN_LIMIT,
    ensures
        (PageTableEntry { bits: pte_bits(ppn, flags) }).ppn_spec() == ppn,
        (PageTableEntry { bits: pte_bits(ppn, flags) }).flags_spec() == flags,
        forall|k: u64|
            k < 8 ==> #[trigger] bit_set(pte_bits(ppn, flags), k) == ((flags as u64 >> k) & 1 == 1),
{
    let f = flags as u64;
    let b = pte_bits(ppn, flags);
    assert(b == ppn * 1024 + f);
    assert((((ppn * 1024 + f) as u64) >> 10) & 0xfff_ffff_ffff == ppn && ((ppn * 1024 + f) as u64) & 0xff == f) by (bit_vector)
        requires
            ppn < 0x1000_0000_0000,
            f < 256,
    ;
    assert forall|k: u64| k < 8 implies #[trigger] bit_set(pte_bits(ppn, flags), k) == ((flags as u64 >> k) & 1 == 1) by {
        assert((((ppn * 1024 + f) as u64) >> k) & 1 == (f >> k) & 1) by (bit_vector)
            requires
                ppn < 0x1000_0000_0000,
                f < 256,
                k < 8,
        ;
    }
}

/// After `map(vpn, ppn, flags)` the walk for `vpn` yields exactly `ppn` and `flags`
/// with the valid bit added, and reads as valid.
pub proof fn lemma_translate_gives_mapping(t: PageTable, vpn: u64, ppn: u64, flags: u8)
    requires
        ppn < PPN_LIMIT,
        t.translate_spec(vpn) == Some(PageTableEntry { bits: pte_bits(ppn, flags | PTE_V) }),
    ensures
        t.translate_spec(vpn) matches Some(e) && e.ppn_spec() == ppn && e.flags_spec() == flags | PTE_V
            && e.valid_spec(),
{
    lemma_pte_fields(ppn, flags | PTE_V);
    let fb = flags | PTE_V;
    assert(((flags | 1u8) as u64 >> 0u64) & 1 == 1) by (bit_vector);
}

/// A three-level translation table. Node 0 is the root; each node is a frame of
/// 512 entries, kept in one flat arena in node order.
pub struct PageTable {
    root_ppn: PhysPageNum,
    frames: Vec<FrameTracker>,
    entries: Vec<PageTableEntry>,
    /// Depth of each node (root 0).
    levels: Ghost<Seq<int>>,
    /// For each node but the root: the node and slot whose entry points at it.
    parents: Ghost<Seq<(int, int)>>,
}

impl PageTable {
    /// The page numbers of the frames that the table owns, root first.
    pub closed spec fn frame_ppns(self) -> Seq<u64> {
        self.frames@.map_values(|f: FrameTracker| f@)
    }

    pub closed spec fn root_spec(self) -> u64 {
        self.root_ppn.0
    }

    spec fn entry(self, k: int, i: int) -> PageTableEntry {
        self.entries@[k * 512 + i]
    }

    spec fn node_count(self) -> int {
        self.frames@.len() as int
    }

    /// The node that slot `i` of node `k` points at.
    spec fn child(self, k: int, i: int) -> int {
        choose|c: int| 0 < c < self.node_count() && self.parents@[c] == (k, i)
    }

    /// The arena index of the leaf slot for `vpn`, where both upper levels exist.
    spec fn leaf_slot(self, vpn: u64) -> Option<int> {
        let i0 = vpn_index(vpn as int, 0);
        let i1 = vpn_index(vpn as int, 1);
        let i2 = vpn_index(vpn as int, 2);
        if !self.entry(0, i0).valid_spec() {
            None
        } else {
            let k1 = self.child(0, i0);
            if !self.entry(k1, i1).valid_spec() {
                None
            } else {
                Some(self.child(k1, i1) * 512 + i2)
            }
        }
    }

    /// What a hardware walk finds for `vpn`: the valid leaf entry, or nothing.
    pub closed spec fn translate_spec(self, vpn: u64) -> Option<PageTableEntry> {
        match self.leaf_slot(vpn) {
            Some(j) => if self.entries@[j].valid_spec() {
                Some(self.entries@[j])
            } else {
                None
            },
            None => None,
        }
    }

    /// How many table nodes mapping `vpn` would have to create.
    pub closed spec fn nodes_needed(self, vpn: u64) -> nat {
        let i0 = vpn_index(vpn as int, 0);
        let i1 = vpn_index(vpn as int, 1);
        if !self.entry(0, i0).valid_spec() {
            2
        } else if !self.entry(self.child(0, i0), i1).valid_spec() {
            1
        } else {
            0
        }
    }

    pub closed spec fn wf(self) -> bool {
        let n = self.node_count();
        &&& n >= 1
        &&& self.entries@.len() == n * 512
        &&& self.levels@.len() == n
        &&& self.parents@.len() == n
        &&& self.root_ppn.0 == self.frames@[0]@
        &&& self.levels@[0] == 0
        &&& forall|k: int| 0 <= k < n ==> #[trigger] self.frames@[k]@ < PPN_LIMIT
        &&& forall|k: int, j: int|
            0 <= k < j < n ==> #[trigger] self.frames@[k]@ != #[trigger] self.frames@[j]@
        &&& forall|c: int|
            0 < c < n ==> {
                let (p, i) = #[trigger] self.parents@[c];
                &&& 0 <= p < c
                &&& 0 <= i < 512
                &&& self.levels@[p] < 2
                &&& self.levels@[c] == self.levels@[p] + 1
                &&& self.entry(p, i).valid_spec()
                &&& self.entry(p, i).ppn_spec() == self.frames@[c]@
            }
        &&& forall|p: int, i: int|
            0 <= p < n && 0 <= i < 512 && self.levels@[p] < 2 && (#[trigger] self.entry(p, i)).valid_spec()
                ==> exists|c: int| 0 < c < n && self.parents@[c] == (p, i)
        &&& forall|c1: int, c2: int|
            0 < c1 < c2 < n ==> #[trigger] self.parents@[c1] != #[trigger] self.parents@[c2]
    }

    /// Every frame of the table is marked allocated in `pool`.
    pub open spec fn frames_allocated_in(self, pool: FrameAllocState) -> bool {
        forall|j: int| 0 <= j < self.frame_ppns().len() ==> pool.is_allocated(#[trigger] self.frame_ppns()[j])
    }

    proof fn lemma_child(self, c: int)
        requires
            self.wf(),
            0 < c < self.node_count(),
        ensures
            self.child(self.parents@[c].0, self.parents@[c].1) == c,
    {
        let (p, i) = self.parents@[c];
        let d = self.child(p, i);
        assert(0 < d < self.node_count() && self.parents@[d] == (p, i));
        if d < c {
            assert(self.parents@[d] != self.parents@[c]);
        } else if c < d {
            assert(self.parents@[c] != self.parents@[d]);
        }
    }

    /// A valid slot of an upper node points at a node whose parent is that slot.
    proof fn lemma_child_of_valid(self, p: int, i: int)
        requires
            self.wf(),
            0 <= p < self.node_count(),
            0 <= i < 512,
            self.levels@[p] < 2,
            self.entry(p, i).valid_spec(),
        ensures
            0 < self.child(p, i) < self.node_count(),
            self.parents@[self.child(p, i)] == (p, i),
            self.levels@[self.child(p, i)] == self.levels@[p] + 1,
            self.entry(p, i).ppn_spec() == self.frames@[self.child(p, i)]@,
    {
        assert(self.entry(p, i).valid_spec());
        let c = choose|c: int| 0 < c < self.node_count() && self.parents@[c] == (p, i);
        assert(self.parents@.index(c) == (p, i));
        assert(0 < self.child(p, i) < self.node_count());
        let d = self.child(p, i);
        assert(self.parents@[d] == (p, i));
    }

    /// A new table: one zeroed root frame. `None` if the pool is empty.
    pub fn new(pool: &mut FrameAllocator) -> (r: Option<PageTable>)
        requires
            old(pool)@.wf(),
        ensures
            r is None <==> old(pool)@.free_count() == 0,
            r is None ==> final(pool)@ == old(pool)@,
            r matches Some(t) ==> {
                &&& t.wf()
                &&& t.frame_ppns().len() == 1
                &&& old(pool)@.took(final(pool)@, t.frame_ppns())
                &&& forall|v: u64| #[trigger] t.translate_spec(v) is None
            },
            final(pool)@.wf(),
    {
        let frame = match pool.alloc_frame() {
            Some(f) => f,
            None => return None,
        };
        let root_ppn = frame.ppn();
        let mut frames: Vec<FrameTracker> = Vec::new();
        frames.push(frame);
        let mut entries: Vec<PageTableEntry> = Vec::new();
        let mut j: usize = 0;
        while j < 512
            invariant
                j <= 512,
                entries@.len() == j,
                forall|x: int| 0 <= x < j ==> #[trigger] entries@[x].bits == 0,
            decreases 512 - j,
        {
            entries.push(PageTableEntry::empty());
            j = j + 1;
        }
        proof {
            assert(old(pool)@.alloc_next().1 == Some(root_ppn.0));
            lemma_alloc_in_range(old(pool)@);
        }
        let t = PageTable {
            root_ppn,
            frames,
            entries,
            levels: Ghost(Seq::empty().push(0int)),
            parents: Ghost(Seq::empty().push((0int, 0int))),
        };
        proof {
            assert(t.frame_ppns() =~= seq![root_ppn.0]);
            assert forall|p: int, i: int|
                0 <= p < 1 && 0 <= i < 512 && t.levels@[p] < 2 && (#[trigger] t.entry(p, i)).valid_spec()
                implies false by {
                assert(t.entry(p, i).bits == 0);
                assert((0u64 >> 0u64) & 1 == 0) by (bit_vector);
            }
            assert forall|v: u64| #[trigger] t.translate_spec(v) is None by {
                let i0 = vpn_index(v as int, 0);
                assert(t.entry(0, i0).bits == 0);
                assert((0u64 >> 0u64) & 1 == 0) by (bit_vector);
            }
            assert(t.wf());
            assert(old(pool)@.took(pool@, t.frame_ppns()));
        }
        Some(t)
    }
}

impl PageTable {
    /// Slot `i` of node `k` is the arena position `k * 512 + i`, and no other pair
    /// gives that position.
    proof fn lemma_slot_unique(a: int, b: int, c: int, d: int)
        requires
            0 <= b < 512,
            0 <= d < 512,
            a * 512 + b == c * 512 + d,
        ensures
            a == c,
            b == d,
    {
        assert(a == c) by (nonlinear_arith)
            requires
                0 <= b < 512,
                0 <= d < 512,
                a * 512 + b == c * 512 + d,
        ;
    }

    /// Two page numbers in range with the same leaf slot are the same page number.
    proof fn lemma_leaf_unique(self, v: u64, w: u64)
        requires
            self.wf(),
            v < VPN_LIMIT,
            w < VPN_LIMIT,
            self.leaf_slot(v) is Some,
            self.leaf_slot(v) == self.leaf_slot(w),
        ensures
            v == w,
    {
        let (v0, v1, v2) = (vpn_index(v as int, 0), vpn_index(v as int, 1), vpn_index(v as int, 2));
        let (w0, w1, w2) = (vpn_index(w as int, 0), vpn_index(w as int, 1), vpn_index(w as int, 2));
        self.lemma_child_of_valid(0, v0);
        self.lemma_child_of_valid(0, w0);
        let kv = self.child(0, v0);
        let kw = self.child(0, w0);
        self.lemma_child_of_valid(kv, v1);
        self.lemma_child_of_valid(kw, w1);
        let cv = self.child(kv, v1);
        let cw = self.child(kw, w1);
        Self::lemma_slot_unique(cv, v2, cw, w2);
        assert(kv == kw && v1 == w1);
        assert(v0 == w0);
        lemma_vpn_decompose(v);
        lemma_vpn_decompose(w);
    }

    /// Writing one slot of a leaf node changes the walk of no page number whose leaf
    /// slot is another one.
    proof fn lemma_leaf_write(self, t: PageTable, s: int, v: u64)
        requires
            self.wf(),
            t.frames@ == self.frames@,
            t.levels@ == self.levels@,
            t.parents@ == self.parents@,
            t.root_ppn == self.root_ppn,
            0 <= s < self.entries@.len(),
            self.levels@[s / 512] == 2,
            t.entries@ == self.entries@.update(s, t.entries@[s]),
            self.leaf_slot(v) != Some(s),
        ensures
            t.leaf_slot(v) == self.leaf_slot(v),
            t.translate_spec(v) == self.translate_spec(v),
    {
        let (i0, i1) = (vpn_index(v as int, 0), vpn_index(v as int, 1));
        let c = s / 512;
        Self::lemma_slot_unique(c, s % 512, c, s % 512);
        if self.entry(0, i0).valid_spec() {
            self.lemma_child_of_valid(0, i0);
            let k1 = self.child(0, i0);
            if k1 * 512 + i1 == s {
                Self::lemma_slot_unique(k1, i1, c, s % 512);
            }
        }
        if 0 * 512 + i0 == s {
            Self::lemma_slot_unique(0, i0, c, s % 512);
        }
    }

    /// Writing one slot of a leaf node keeps the table well formed.
    proof fn lemma_leaf_write_wf(self, t: PageTable, s: int)
        requires
            self.wf(),
            t.frames@ == self.frames@,
            t.levels@ == self.levels@,
            t.parents@ == self.parents@,
            t.root_ppn == self.root_ppn,
            0 <= s < self.entries@.len(),
            self.levels@[s / 512] == 2,
            t.entries@ == self.entries@.update(s, t.entries@[s]),
        ensures
            t.wf(),
            forall|p: int, i: int|
                0 <= p < self.node_count() && 0 <= i < 512 && self.levels@[p] < 2 ==> t.entry(p, i)
                    == self.entry(p, i),
    {
        assert forall|p: int, i: int|
            0 <= p < self.node_count() && 0 <= i < 512 && self.levels@[p] < 2 implies t.entry(p, i)
            == self.entry(p, i) by {
            if p * 512 + i == s {
                Self::lemma_slot_unique(p, i, s / 512, s % 512);
            }
        }
        assert forall|c: int| 0 < c < t.node_count() implies {
            let (p, i) = #[trigger] t.parents@[c];
            &&& t.entry(p, i).valid_spec()
            &&& t.entry(p, i).ppn_spec() == t.frames@[c]@
        } by {
            let (p, i) = t.parents@[c];
            assert(self.entry(p, i) == t.entry(p, i));
        }
        assert forall|p: int, i: int|
            0 <= p < t.node_count() && 0 <= i < 512 && t.levels@[p] < 2 && (#[trigger] t.entry(
                p,
                i,
            )).valid_spec() implies exists|c: int| 0 < c < t.node_count() && t.parents@[c] == (p, i) by {
            assert(self.entry(p, i) == t.entry(p, i));
        }
    }

    proof fn lemma_slot_in_range(self, k: int, i: int)
        requires
            self.wf(),
            0 <= k < self.node_count(),
            0 <= i < 512,
        ensures
            k * 512 + i < self.entries@.len(),
    {
        assert(k * 512 + i < self.node_count() * 512) by (nonlinear_arith)
            requires
                0 <= k < self.node_count(),
                0 <= i < 512,
        ;
    }

    /// A table that keeps every valid upper slot of another, with the same child,
    /// needs no more new nodes for any page than that one.
    proof fn lemma_needed_shrinks(self, t: PageTable, w: u64)
        requires
            self.wf(),
            t.wf(),
            self.node_count() <= t.node_count(),
            t.levels@.subrange(0, self.node_count()) == self.levels@,
            forall|p: int, j: int|
                0 <= p < self.node_count() && 0 <= j < 512 && self.levels@[p] < 2 && self.entry(p, j).valid_spec()
                    ==> #[trigger] t.entry(p, j) == self.entry(p, j) && t.child(p, j) == self.child(p, j),
        ensures
            t.nodes_needed(w) <= self.nodes_needed(w),
            self.nodes_needed(w) <= 2,
    {
        let i0 = vpn_index(w as int, 0);
        let i1 = vpn_index(w as int, 1);
        if self.entry(0, i0).valid_spec() {
            assert(t.entry(0, i0) == self.entry(0, i0));
            self.lemma_child_of_valid(0, i0);
            let k1 = self.child(0, i0);
            if self.entry(k1, i1).valid_spec() {
                assert(t.entry(k1, i1) == self.entry(k1, i1));
            }
        }
    }

    /// Pages in one 512-page block share both upper slots; pages in one 2^18-page
    /// block share the root slot.
    proof fn lemma_same_block(v: u64, w: u64)
        ensures
            v / 512 == w / 512 ==> vpn_index(v as int, 0) == vpn_index(w as int, 0) && vpn_index(v as int, 1)
                == vpn_index(w as int, 1),
            v / 262144 == w / 262144 ==> vpn_index(v as int, 0) == vpn_index(w as int, 0),
    {
        vstd::arithmetic::div_mod::lemma_div_denominator(v as int, 512, 512);
        vstd::arithmetic::div_mod::lemma_div_denominator(w as int, 512, 512);
    }

    /// The node that slot `i` of upper node `k` points at, found by its frame number.
    fn find_child(&self, k: usize, i: usize) -> (r: usize)
        requires
            self.wf(),
            k < self.node_count(),
            i < 512,
            self.levels@[k as int] < 2,
            self.entry(k as int, i as int).valid_spec(),
        ensures
            r == self.child(k as int, i as int),
            0 < r < self.node_count(),
    {
        proof {
            self.lemma_child_of_valid(k as int, i as int);
            self.lemma_slot_in_range(k as int, i as int);
        }
        let len = self.entries.len();
        assert(k * 512 + i < len);
        let target = self.entries[k * 512 + i].ppn();
        let ghost c = self.child(k as int, i as int);
        let mut j: usize = 1;
        while j < self.frames.len()
            invariant
                self.wf(),
                1 <= j <= self.frames@.len(),
                0 < c < self.frames@.len(),
                c == self.child(k as int, i as int),
                self.frames@[c]@ == target.0,
                forall|x: int| 1 <= x < j ==> self.frames@[x]@ != target.0,
            decreases self.frames@.len() - j,
        {
            if self.frames[j].ppn().0 == target.0 {
                proof {
                    if j < c {
                        assert(self.frames@[j as int]@ != self.frames@[c]@);
                    } else if c < j {
                        assert(self.frames@[c]@ != self.frames@[j as int]@);
                    }
                    assert(self.frames@[j as int]@ == target.0);
                    assert(j == c);
                }
                return j;
            }
            j = j + 1;
        }
        proof {
            assert(self.frames@[c]@ != target.0);
        }
        0
    }

    /// The node below slot `i` of upper node `k`, made (zeroed) if the slot is empty.
    /// `None` if a node was needed and the pool is empty.
    fn descend(&mut self, k: usize, i: usize, pool: &mut FrameAllocator) -> (r: Option<usize>)
        requires
            old(self).wf(),
            k < old(self).node_count(),
            i < 512,
            old(self).levels@[k as int] < 2,
            old(pool)@.wf(),
            old(self).frames_allocated_in(old(pool)@),
        ensures
            final(self).wf(),
            final(pool)@.wf(),
            final(self).frames_allocated_in(final(pool)@),
            final(self).frame_ppns().subrange(0, old(self).frame_ppns().len() as int) == old(
                self,
            ).frame_ppns(),
            old(self).frame_ppns().len() <= final(self).frame_ppns().len(),
            final(self).frame_ppns().len() <= old(self).frame_ppns().len() + 1,
            old(pool)@.took(
                final(pool)@,
                final(self).frame_ppns().skip(old(self).frame_ppns().len() as int),
            ),
            old(self).entry(k as int, i as int).valid_spec() ==> final(pool)@ == old(pool)@,
            final(self).root_ppn == old(self).root_ppn,
            forall|v: u64| #[trigger] final(self).translate_spec(v) == old(self).translate_spec(v),
            r is None <==> (!old(self).entry(k as int, i as int).valid_spec() && old(
                pool,
            )@.free_count() == 0),
            r is None ==> *final(self) == *old(self),
            old(self).entry(k as int, i as int).valid_spec() ==> *final(self) == *old(self),
            r matches Some(c) ==> {
                &&& 0 < c < final(self).node_count()
                &&& final(self).entry(k as int, i as int).valid_spec()
                &&& final(self).child(k as int, i as int) == c
                &&& final(self).levels@[c as int] == old(self).levels@[k as int] + 1
            },
            r matches Some(c) ==> old(self).entry(k as int, i as int).valid_spec() || (
            final(pool)@.free_count() + 1 == old(pool)@.free_count() && forall|j: int|
                0 <= j < 512 ==> !(#[trigger] final(self).entry(c as int, j)).valid_spec()),
            forall|p: int, j: int|
                0 <= p < old(self).node_count() && 0 <= j < 512 && (p, j) != (k as int, i as int)
                    ==> #[trigger] final(self).entry(p, j) == old(self).entry(p, j),
            forall|p: int, j: int|
                0 <= p < old(self).node_count() && 0 <= j < 512 && old(self).levels@[p] < 2
                    && old(self).entry(p, j).valid_spec() ==> #[trigger] final(self).child(p, j)
                    == old(self).child(p, j),
            final(self).levels@.subrange(0, old(self).node_count()) == old(self).levels@,
            r is Some && !old(self).entry(k as int, i as int).valid_spec() ==> final(self).node_count()
                == old(self).node_count() + 1,
    {
        proof {
            self.lemma_slot_in_range(k as int, i as int);
            lemma_took_none(pool@);
            assert(self.frame_ppns().skip(self.frame_ppns().len() as int) =~= Seq::empty());
            assert(self.frame_ppns().subrange(0, self.frame_ppns().len() as int) =~= self.frame_ppns());
            assert(self.levels@.subrange(0, self.node_count()) =~= self.levels@);
        }
        let len = self.entries.len();
        assert(k * 512 + i < len);
        if self.entries[k * 512 + i].is_valid() {
            let c = self.find_child(k, i);
            proof {
                self.lemma_child_of_valid(k as int, i as int);
            }
            return Some(c);
        }
        let ghost pool0 = pool@;
        let frame = match pool.alloc_frame() {
            Some(f) => f,
            None => return None,
        };
        let ppn = frame.ppn();
        proof {
            lemma_alloc_in_range(pool0);
            assert(seq![ppn.0].contains(ppn.0)) by {
                assert(seq![ppn.0][0] == ppn.0);
            }
        }
        let ghost old_t = *self;
        let n = self.frames.len();
        let c = n;
        let ghost frame_v = frame;
        self.frames.push(frame);
        let e = PageTableEntry::new(ppn, PTEFlags { bits: PTE_V });
        self.entries.set(k * 512 + i, e);
        let ghost t_mid = *self;
        let mut j: usize = 0;
        while j < 512
            invariant
                j <= 512,
                self.frames@ == t_mid.frames@,
                self.levels@ == t_mid.levels@,
                self.parents@ == t_mid.parents@,
                self.root_ppn == t_mid.root_ppn,
                t_mid.frames@ == old_t.frames@.push(frame_v),
                n == old_t.frames@.len(),
                self.entries@.len() == n * 512 + j,
                forall|x: int|
                    0 <= x < n * 512 ==> #[trigger] self.entries@[x] == old_t.entries@.update(
                        k * 512 + i,
                        e,
                    )[x],
                forall|x: int| n * 512 <= x < n * 512 + j ==> #[trigger] self.entries@[x].bits == 0,
            decreases 512 - j,
        {
            self.entries.push(PageTableEntry::empty());
            j = j + 1;
        }
        self.levels = Ghost(self.levels@.push(old_t.levels@[k as int] + 1));
        self.parents = Ghost(self.parents@.push((k as int, i as int)));
        proof {
            let t = *self;
            lemma_pte_fields(ppn.0, PTE_V);
            assert((1u64 >> 0u64) & 1 == 1) by (bit_vector);
            assert(bit_set(pte_bits(ppn.0, PTE_V), 0));
            assert(bit_set(e.bits, 0));
            assert(e.ppn_spec() == ppn.0);
            assert(t.frame_ppns() =~= old_t.frame_ppns().push(ppn.0));
            assert(t.frame_ppns().subrange(0, n as int) =~= old_t.frame_ppns());
            assert(t.frame_ppns().skip(n as int) =~= seq![ppn.0]);
            assert(t.levels@.subrange(0, n as int) =~= old_t.levels@);
            // the new frame is fresh
            assert forall|x: int| 0 <= x < n implies #[trigger] old_t.frames@[x]@ != ppn.0 by {
                assert(pool0.is_allocated(old_t.frame_ppns()[x]));
            }
            assert(((0u64 >> 0u64) & 1) == 0) by (bit_vector);
            assert forall|jj: int| 0 <= jj < 512 implies !(#[trigger] t.entry(c as int, jj)).valid_spec() by {
                assert(t.entries@[c * 512 + jj].bits == 0);
            }
            assert forall|p: int, jj: int|
                0 <= p < n && 0 <= jj < 512 && (p, jj) != (k as int, i as int) implies #[trigger] t.entry(p, jj)
                == old_t.entry(p, jj) by {
                if p * 512 + jj == k * 512 + i {
                    Self::lemma_slot_unique(p, jj, k as int, i as int);
                }
            }
            // well-formedness
            assert forall|a: int, b: int| 0 <= a < b < t.node_count() implies #[trigger] t.frames@[a]@ != #[trigger] t.frames@[b]@ by {
                if b < n {
                    assert(old_t.frames@[a]@ != old_t.frames@[b]@);
                }
            }
            assert forall|x: int| 0 <= x < t.node_count() implies #[trigger] t.frames@[x]@ < PPN_LIMIT by {
                if x < n {
                    assert(old_t.frames@[x]@ < PPN_LIMIT);
                }
            }
            assert forall|cc: int| 0 < cc < t.node_count() implies {
                let (p, ii) = #[trigger] t.parents@[cc];
                &&& 0 <= p < cc
                &&& 0 <= ii < 512
                &&& t.levels@[p] < 2
                &&& t.levels@[cc] == t.levels@[p] + 1
                &&& t.entry(p, ii).valid_spec()
                &&& t.entry(p, ii).ppn_spec() == t.frames@[cc]@
            } by {
                if cc < n {
                    let (p, ii) = old_t.parents@[cc];
                    assert(old_t.entry(p, ii).valid_spec());
                    if (p, ii) == (k as int, i as int) {
                        assert(false);
                    }
                    assert(t.entry(p, ii) == old_t.entry(p, ii));
                }
            }
            assert forall|p: int, ii: int|
                0 <= p < t.node_count() && 0 <= ii < 512 && t.levels@[p] < 2 && (#[trigger] t.entry(
                    p,
                    ii,
                )).valid_spec() implies exists|cc: int| 0 < cc < t.node_count() && t.parents@[cc] == (p, ii) by {
                if (p, ii) == (k as int, i as int) {
                    assert(t.parents@[c as int] == (p, ii));
                } else if p < n {
                    assert(t.entry(p, ii) == old_t.entry(p, ii));
                    old_t.lemma_child_of_valid(p, ii);
                    let cc = old_t.child(p, ii);
                    assert(t.parents@[cc] == (p, ii));
                } else {
                    assert(t.levels@[p] == old_t.levels@[k as int] + 1);
                    assert(t.entry(p, ii).bits == 0);
                }
            }
            assert forall|c1: int, c2: int| 0 < c1 < c2 < t.node_count() implies #[trigger] t.parents@[c1] != #[trigger] t.parents@[c2] by {
                if c2 == n {
                    let (p, ii) = old_t.parents@[c1];
                    assert(old_t.entry(p, ii).valid_spec());
                } else {
                    assert(old_t.parents@[c1] != old_t.parents@[c2]);
                }
            }
            assert(t.wf());
            t.lemma_child(c as int);
            assert forall|p: int, jj: int|
                0 <= p < n && 0 <= jj < 512 && old_t.levels@[p] < 2 && old_t.entry(p, jj).valid_spec()
                    implies #[trigger] t.child(p, jj) == old_t.child(p, jj) by {
                old_t.lemma_child_of_valid(p, jj);
                let cc = old_t.child(p, jj);
                t.lemma_child(cc);
            }
            assert forall|q: int| 0 <= q < t.frame_ppns().len() implies pool@.is_allocated(#[trigger] t.frame_ppns()[q]) by {
                if q < n {
                    assert(pool0.is_allocated(old_t.frame_ppns()[q]));
                    assert(t.frame_ppns()[q] == old_t.frame_ppns()[q]);
                }
            }
            assert forall|v: u64| #[trigger] t.translate_spec(v) == old_t.translate_spec(v) by {
                let i0 = vpn_index(v as int, 0);
                let i1 = vpn_index(v as int, 1);
                let i2 = vpn_index(v as int, 2);
                if (0int, i0) == (k as int, i as int) {
                    assert(t.entry(c as int, i1).bits == 0);
                } else {
                    assert(t.entry(0, i0) == old_t.entry(0, i0));
                    if old_t.entry(0, i0).valid_spec() {
                        old_t.lemma_child_of_valid(0, i0);
                        let k1 = old_t.child(0, i0);
                        assert(t.child(0, i0) == k1);
                        if (k1, i1) == (k as int, i as int) {
                            assert(t.child(k1, i1) == c);
                            assert(t.entries@[c * 512 + i2].bits == 0);
                        } else {
                            assert(t.entry(k1, i1) == old_t.entry(k1, i1));
                            if old_t.entry(k1, i1).valid_spec() {
                                old_t.lemma_child_of_valid(k1, i1);
                                let k2 = old_t.child(k1, i1);
                                assert(t.child(k1, i1) == k2);
                                assert(old_t.levels@[k2] == 2);
                                if k2 == k {
                                    assert(false);
                                }
                                assert(t.entry(k2, i2) == old_t.entry(k2, i2));
                            }
                        }
                    }
                }
            }
        }
        Some(c)
    }
}

impl PageTable {
    /// Maps `vpn` to `ppn` with `flags` (the valid bit is added), making the missing
    /// table nodes from `pool`. Returns false, with no mapping made, when the pool ran
    /// out of frames for those nodes.
    pub fn map(&mut self, vpn: VirtPageNum, ppn: PhysPageNum, flags: PTEFlags, pool: &mut FrameAllocator) -> (ok: bool)
        requires
            old(self).wf(),
            vpn.0 < VPN_LIMIT,
            ppn.0 < PPN_LIMIT,
            old(self).translate_spec(vpn.0) is None,
            old(pool)@.wf(),
            old(self).frames_allocated_in(old(pool)@),
        ensures
            final(self).wf(),
            final(pool)@.wf(),
            final(self).frames_allocated_in(final(pool)@),
            final(self).root_spec() == old(self).root_spec(),
            old(self).frame_ppns().len() <= final(self).frame_ppns().len(),
            final(self).frame_ppns().subrange(0, old(self).frame_ppns().len() as int) == old(
                self,
            ).frame_ppns(),
            old(pool)@.took(
                final(pool)@,
                final(self).frame_ppns().skip(old(self).frame_ppns().len() as int),
            ),
            ok <==> old(self).nodes_needed(vpn.0) <= old(pool)@.free_count(),
            !ok ==> final(pool)@.free_count() == 0,
            old(pool)@.free_count() >= 2 ==> ok,
            old(self).nodes_needed(vpn.0) <= 2,
            ok ==> final(self).frame_ppns().len() == old(self).frame_ppns().len() + old(self).nodes_needed(vpn.0),
            forall|w: u64| #[trigger] final(self).nodes_needed(w) <= old(self).nodes_needed(w),
            ok ==> forall|w: u64| w / 512 == vpn.0 / 512 ==> #[trigger] final(self).nodes_needed(w) == 0,
            ok ==> forall|w: u64| w / 262144 == vpn.0 / 262144 ==> #[trigger] final(self).nodes_needed(w) <= 1,
            final(self).frame_ppns().len() <= old(self).frame_ppns().len() + 2,
            ok ==> final(self).translate_spec(vpn.0) == Some(
                PageTableEntry { bits: pte_bits(ppn.0, flags.bits | PTE_V) },
            ),
            forall|v: u64|
                v < VPN_LIMIT && (v != vpn.0 || !ok) ==> #[trigger] final(self).translate_spec(v)
                    == old(self).translate_spec(v),
    {
        proof {
            assert(self.levels@.subrange(0, self.node_count()) =~= self.levels@);
            self.lemma_needed_shrinks(*self, vpn.0);
        }
        let idx = vpn.indexes();
        let ghost t0 = *self;
        let ghost pool_start = pool@;
        let ghost n0 = t0.frame_ppns().len() as int;
        let k1 = match self.descend(0, idx[0] as usize, pool) {
            Some(k) => k,
            None => return false,
        };
        let ghost t1 = *self;
        let ghost pool_mid = pool@;
        let ghost n1 = t1.frame_ppns().len() as int;
        let k2 = match self.descend(k1, idx[1] as usize, pool) {
            Some(k) => k,
            None => {
                proof {
                    assert(t1.frame_ppns().skip(n1) =~= Seq::empty());
                    assert(t1.frame_ppns().skip(n0) + Seq::empty() =~= t1.frame_ppns().skip(n0));
                    lemma_took_trans(pool_start, pool_mid, t1.frame_ppns().skip(n0), pool_mid, Seq::empty());
                    if t0.entry(0, vpn_index(vpn.0 as int, 0)).valid_spec() {
                        assert(t1.child(0, vpn_index(vpn.0 as int, 0)) == t0.child(0, vpn_index(vpn.0 as int, 0)));
                    }
                    assert forall|w: u64| #[trigger] self.nodes_needed(w) <= t0.nodes_needed(w) by {
                        t0.lemma_needed_shrinks(t1, w);
                    }
                }
                return false;
            },
        };
        let ghost t2 = *self;
        let ghost pool_end = pool@;
        proof {
            let (i0, i1, i2) = (vpn_index(vpn.0 as int, 0), vpn_index(vpn.0 as int, 1), vpn_index(vpn.0 as int, 2));
            lemma_took_trans(pool_start, pool_mid, t1.frame_ppns().skip(n0), pool_end, t2.frame_ppns().skip(n1));
            assert(t2.frame_ppns().subrange(0, n1) == t1.frame_ppns());
            assert(t1.frame_ppns().skip(n0) + t2.frame_ppns().skip(n1) =~= t2.frame_ppns().skip(n0));
            assert(t2.frame_ppns().subrange(0, n0) =~= t1.frame_ppns().subrange(0, n0));
            assert(t2.levels@[k1 as int] == t1.levels@[k1 as int]) by {
                assert(t2.levels@.subrange(0, t1.node_count())[k1 as int] == t2.levels@[k1 as int]);
            }
            assert(t2.entry(0, i0) == t1.entry(0, i0));
            assert(t2.child(0, i0) == k1);
            assert(t2.leaf_slot(vpn.0) == Some(k2 * 512 + i2));
            t2.lemma_slot_in_range(k2 as int, i2);
            if t0.entry(0, i0).valid_spec() {
                assert(t1.child(0, i0) == t0.child(0, i0));
            }
        }
        let len = self.entries.len();
        let s = k2 * 512 + idx[2] as usize;
        let e = PageTableEntry::new(ppn, PTEFlags { bits: flags.bits | PTE_V });
        self.entries.set(s, e);
        proof {
            let t3 = *self;
            let (i0, i1, i2) = (vpn_index(vpn.0 as int, 0), vpn_index(vpn.0 as int, 1), vpn_index(vpn.0 as int, 2));
            assert(s / 512 == k2 as int);
            t2.lemma_leaf_write_wf(t3, s as int);
            assert(t3.frame_ppns() == t2.frame_ppns());
            assert(t3.entry(0, i0) == t2.entry(0, i0));
            assert(t3.entry(k1 as int, i1) == t2.entry(k1 as int, i1));
            assert(t3.leaf_slot(vpn.0) == Some(s as int));
            assert(t3.levels@.subrange(0, t2.node_count()) =~= t2.levels@);
            assert(t2.levels@.subrange(0, t1.node_count()) == t1.levels@);
            assert(t1.levels@.subrange(0, t0.node_count()) == t0.levels@);
            assert forall|w: u64| #[trigger] t3.nodes_needed(w) <= t0.nodes_needed(w) by {
                t0.lemma_needed_shrinks(t1, w);
                t1.lemma_needed_shrinks(t2, w);
                t2.lemma_needed_shrinks(t3, w);
            }
            assert forall|w: u64| w / 512 == vpn.0 / 512 implies #[trigger] t3.nodes_needed(w) == 0 by {
                Self::lemma_same_block(w, vpn.0);
                assert(t3.child(0, i0) == k1);
            }
            assert forall|w: u64| w / 262144 == vpn.0 / 262144 implies #[trigger] t3.nodes_needed(w) <= 1 by {
                Self::lemma_same_block(w, vpn.0);
            }
            if !t0.entry(0, i0).valid_spec() {
                assert(!t1.entry(k1 as int, i1).valid_spec());
            } else {
                assert(t1 == t0);
            }
            let fl = flags.bits;
            let fb = fl | PTE_V;
            assert((fb as u64 >> 0u64) & 1 == 1) by (bit_vector)
                requires
                    fb == fl | 1u8,
            ;
            lemma_pte_fields(ppn.0, fb);
            assert(t3.entries@[s as int].valid_spec());
            assert forall|v: u64| v < VPN_LIMIT && v != vpn.0 implies #[trigger] t3.translate_spec(v)
                == t0.translate_spec(v) by {
                if t2.leaf_slot(v) == Some(s as int) {
                    t2.lemma_leaf_unique(vpn.0, v);
                }
                t2.lemma_leaf_write(t3, s as int, v);
            }
        }
        true
    }

    /// Clears the mapping of `vpn`, which must be mapped.
    pub fn unmap(&mut self, vpn: VirtPageNum)
        requires
            old(self).wf(),
            vpn.0 < VPN_LIMIT,
            old(self).translate_spec(vpn.0) is Some,
        ensures
            final(self).wf(),
            final(self).frame_ppns() == old(self).frame_ppns(),
            final(self).root_spec() == old(self).root_spec(),
            final(self).translate_spec(vpn.0) is None,
            forall|v: u64|
                v < VPN_LIMIT && v != vpn.0 ==> #[trigger] final(self).translate_spec(v) == old(
                    self,
                ).translate_spec(v),
    {
        let idx = vpn.indexes();
        let ghost t0 = *self;
        let ghost (i0, i1, i2) = (vpn_index(vpn.0 as int, 0), vpn_index(vpn.0 as int, 1), vpn_index(vpn.0 as int, 2));
        proof {
            self.lemma_child_of_valid(0, i0);
        }
        let k1 = self.find_child(0, idx[0] as usize);
        let k2 = self.find_child(k1, idx[1] as usize);
        proof {
            self.lemma_child_of_valid(k1 as int, i1);
            self.lemma_slot_in_range(k2 as int, i2);
        }
        let len = self.entries.len();
        let s = k2 * 512 + idx[2] as usize;
        self.entries.set(s, PageTableEntry::empty());
        proof {
            let t1 = *self;
            assert(s / 512 == k2 as int);
            t0.lemma_leaf_write_wf(t1, s as int);
            assert(t1.entry(0, i0) == t0.entry(0, i0));
            assert(t1.entry(k1 as int, i1) == t0.entry(k1 as int, i1));
            assert(t1.leaf_slot(vpn.0) == Some(s as int));
            assert((0u64 >> 0u64) & 1 == 0) by (bit_vector);
            assert(!t1.entries@[s as int].valid_spec());
            assert forall|v: u64| v < VPN_LIMIT && v != vpn.0 implies #[trigger] t1.translate_spec(v)
                == t0.translate_spec(v) by {
                if t0.leaf_slot(v) == Some(s as int) {
                    t0.lemma_leaf_unique(vpn.0, v);
                }
                t0.lemma_leaf_write(t1, s as int, v);
            }
        }
    }

    /// The valid leaf entry for `vpn`, or `None` where the walk misses.
    pub fn translate(&self, vpn: VirtPageNum) -> (r: Option<PageTableEntry>)
        requires
            self.wf(),
        ensures
            r == self.translate_spec(vpn.0),
    {
        let idx = vpn.indexes();
        let ghost (i0, i1, i2) = (vpn_index(vpn.0 as int, 0), vpn_index(vpn.0 as int, 1), vpn_index(vpn.0 as int, 2));
        let len = self.entries.len();
        proof {
            self.lemma_slot_in_range(0, i0);
        }
        if !self.entries[idx[0] as usize].is_valid() {
            return None;
        }
        let k1 = self.find_child(0, idx[0] as usize);
        proof {
            self.lemma_child_of_valid(0, i0);
            self.lemma_slot_in_range(k1 as int, i1);
        }
        if !self.entries[k1 * 512 + idx[1] as usize].is_valid() {
            return None;
        }
        let k2 = self.find_child(k1, idx[1] as usize);
        proof {
            self.lemma_slot_in_range(k2 as int, i2);
        }
        let e = self.entries[k2 * 512 + idx[2] as usize];
        if e.is_valid() {
            Some(e)
        } else {
            None
        }
    }

    /// Entry `i` of node `k`, as stored in that node's frame.
    pub closed spec fn node_entry_spec(self, k: int, i: int) -> PageTableEntry {
        self.entry(k, i)
    }

    /// Number of nodes, each one frame of 512 entries.
    pub fn nodes(&self) -> (r: usize)
        requires
            self.wf(),
        ensures
            r == self.frame_ppns().len(),
    {
        self.frames.len()
    }

    /// The frame that holds node `k` (node 0 is the root).
    pub fn node_frame(&self, k: usize) -> (r: PhysPageNum)
        requires
            self.wf(),
            k < self.frame_ppns().len(),
        ensures
            r.0 == self.frame_ppns()[k as int],
    {
        self.frames[k].ppn()
    }

    /// Entry `i` of node `k`: the word to store at byte `8 * i` of the node's frame.
    pub fn node_entry(&self, k: usize, i: usize) -> (r: PageTableEntry)
        requires
            self.wf(),
            k < self.frame_ppns().len(),
            i < 512,
        ensures
            r == self.node_entry_spec(k as int, i as int),
    {
        proof {
            self.lemma_slot_in_range(k as int, i as int);
        }
        let len = self.entries.len();
        self.entries[k * 512 + i]
    }

    /// The translation-root register value that selects this table (three-level
    /// mode, root page number in the low bits).
    pub fn token(&self) -> (r: u64)
        requires
            self.wf(),
        ensures
            r == 0x8000_0000_0000_0000u64 + self.root_spec(),
    {
        0x8000_0000_0000_0000u64 + self.root_ppn.0
    }

    /// Gives every frame of the table back to `pool`.
    pub fn destroy(self, pool: &mut FrameAllocator)
        requires
            self.wf(),
            old(pool)@.wf(),
            self.frames_allocated_in(old(pool)@),
        ensures
            old(pool)@.gave(final(pool)@, self.frame_ppns()),
    {
        let ghost all = self.frame_ppns();
        let mut frames = self.frames;
        proof {
            lemma_took_none(pool@);
            assert(all.skip(all.len() as int) =~= Seq::empty());
            assert(frames@.map_values(|f: FrameTracker| f@) =~= all.subrange(0, frames@.len() as int));
        }
        while frames.len() > 0
            invariant
                pool@.wf(),
                frames@.len() <= all.len(),
                frames@.map_values(|f: FrameTracker| f@) == all.subrange(0, frames@.len() as int),
                forall|a: int, b: int| 0 <= a < b < all.len() ==> all[a] != all[b],
                forall|j: int| 0 <= j < frames@.len() ==> pool@.is_allocated(#[trigger] all[j]),
                old(pool)@.gave(pool@, all.skip(frames@.len() as int)),
            decreases frames@.len(),
        {
            let ghost n = frames@.len() as int;
            let ghost before = pool@;
            let f = frames.pop().unwrap();
            proof {
                assert(all.subrange(0, n)[n - 1] == all[n - 1]);
                assert(f@ == all[n - 1]);
                assert(frames@.map_values(|f: FrameTracker| f@) =~= all.subrange(0, n - 1));
            }
            pool.dealloc_frame(f);
            proof {
                lemma_gave_trans(old(pool)@, before, all.skip(n), pool@, seq![all[n - 1]]);
                assert(seq![all[n - 1]] + all.skip(n) =~= all.skip(n - 1));
                assert forall|j: int| 0 <= j < n - 1 implies pool@.is_allocated(#[trigger] all[j]) by {
                    assert(all[j] != all[n - 1]);
                    assert(before.is_allocated(all[j]));
                }
            }
        }
        proof {
            assert(all.skip(0) =~= all);
        }
    }
}

/// A page number below the 27-bit limit is the sum of its three indices.
proof fn lemma_vpn_decompose(v: u64)
    requires
        v < VPN_LIMIT,
    ensures
        v as int == vpn_index(v as int, 0) * 0x40000 + vpn_index(v as int, 1) * 512 + vpn_index(
            v as int,
            2,
        ),
{
    assert(v == ((v / 0x40000) % 512) * 0x40000 + ((v / 512) % 512) * 512 + v % 512) by (bit_vector)
        requires
            v < 0x800_0000,
    ;
}

} // verus!
