use vstd::prelude::*;
use crate::address::{VirtAddr, VirtPageNum, PhysPageNum, VPN_LIMIT, PPN_LIMIT, VA_LIMIT, PAGE_SIZE, pages_up};
use crate::frame_allocator::{FrameAllocState, FrameAllocator, FrameTracker, lemma_alloc_in_range, lemma_gave_trans, lemma_took_none};
use crate::page_table::{PageTable, PageTableEntry, PTEFlags, pte_bits, bit_set, lemma_pte_fields, PTE_V, PTE_R, PTE_W, PTE_X, PTE_U};

verus! {

/// How the pages of an area are backed.
#[derive(Clone, Copy, Debug, PartialEq, Eq, Structural)]
pub enum MapType {
    /// Each virtual page maps to the physical page of the same number.
    Identical,
    /// Each virtual page maps to a frame that the area owns.
    Framed,
    /// Page `start + j` maps to physical page `base + j`, a frame owned elsewhere.
    Linear(u64),
}

/// One contiguous range of virtual pages `[start, end)` of an address space.
pub struct MapArea {
    start: u64,
    end: u64,
    map_type: MapType,
    perm: u8,
    frames: Vec<FrameTracker>,
    /// Contents of the backing frames of a framed area, one page each.
    pages: Vec<Vec<u8>>,
}

impl MapArea {
    pub closed spec fn start_spec(self) -> u64 {
        self.start
    }

    pub closed spec fn end_spec(self) -> u64 {
        self.end
    }

    pub closed spec fn map_type_spec(self) -> MapType {
        self.map_type
    }

    pub closed spec fn perm_spec(self) -> u8 {
        self.perm
    }

    /// The frames the area owns, the one backing `start` first.
    pub closed spec fn frame_ppns(self) -> Seq<u64> {
        self.frames@.map_values(|f: FrameTracker| f@)
    }

    /// The physical page that backs `v`.
    pub open spec fn target(self, v: u64) -> u64 {
        match self.map_type_spec() {
            MapType::Identical => v,
            MapType::Framed => self.frame_ppns()[v - self.start_spec()],
            MapType::Linear(base) => (base + (v - self.start_spec())) as u64,
        }
    }

    /// The leaf entry the area asks for at `v`, if `v` lies in it.
    pub open spec fn entry_of(self, v: u64) -> Option<PageTableEntry> {
        if self.start_spec() <= v < self.end_spec() {
            Some(PageTableEntry { bits: pte_bits(self.target(v), self.perm_spec() | PTE_V) })
        } else {
            None
        }
    }

    pub open spec fn wf(self) -> bool {
        &&& self.start_spec() <= self.end_spec() <= VPN_LIMIT
        &&& self.frame_ppns().no_duplicates()
        &&& self.map_type_spec() == MapType::Framed ==> self.frame_ppns().len() == self.end_spec()
            - self.start_spec()
        &&& self.map_type_spec() == MapType::Identical ==> self.frame_ppns().len() == 0
        &&& self.map_type_spec() matches MapType::Linear(base) ==> self.frame_ppns().len() == 0 && base
            + (self.end_spec() - self.start_spec()) <= PPN_LIMIT
        &&& forall|j: int| 0 <= j < self.frame_ppns().len() ==> #[trigger] self.frame_ppns()[j] < PPN_LIMIT
    }
}

/// Byte `va` of an image of `image` placed at `image_va`, zero outside it.
pub open spec fn image_byte(image: Seq<u8>, image_va: u64, va: int) -> u8 {
    if image_va <= va < image_va + image.len() {
        image[va - image_va]
    } else {
        0
    }
}

impl MapArea {
    /// The byte at virtual address `va` of a framed area's backing frames.
    pub closed spec fn byte_of(self, va: int) -> Option<u8> {
        let idx = va / 4096 - self.start;
        let off = va % 4096;
        if self.map_type == MapType::Framed && self.start <= va / 4096 < self.end && 0 <= idx
            < self.pages@.len() && off < self.pages@[idx]@.len() {
            Some(self.pages@[idx]@[off])
        } else {
            None
        }
    }

    /// Every byte of the area reads as the image of `image` placed at `image_va`.
    pub open spec fn holds_image(self, image: Seq<u8>, image_va: u64) -> bool {
        forall|va: int|
            self.start_spec() * 4096 <= va < self.end_spec() * 4096 ==> #[trigger] self.byte_of(va)
                == Some(image_byte(image, image_va, va))
    }

    /// The byte at `va`, if `va` lies in this framed area.
    fn byte(&self, va: u64) -> (r: Option<u8>)
        ensures
            r == self.byte_of(va as int),
    {
        let vpn = va / 4096;
        let off = (va % 4096) as usize;
        if self.map_type == MapType::Framed && self.start <= vpn && vpn < self.end {
            let d = vpn - self.start;
            if d < self.pages.len() as u64 {
                let idx = d as usize;
                if off < self.pages[idx].len() {
                    return Some(self.pages[idx][off]);
                }
            }
        }
        None
    }
}

/// The byte at `va` in the last of `areas` holding its page.
pub open spec fn byte_at(areas: Seq<MapArea>, va: int) -> Option<u8>
    decreases areas.len(),
{
    if areas.len() == 0 {
        None
    } else if areas.last().start_spec() <= va / 4096 < areas.last().end_spec() {
        areas.last().byte_of(va)
    } else {
        byte_at(areas.drop_last(), va)
    }
}

/// In pairwise disjoint areas, a byte of area `i` is read from area `i`.
proof fn lemma_byte_in(areas: Seq<MapArea>, i: int, va: int)
    requires
        0 <= i < areas.len(),
        areas[i].start_spec() <= va / 4096 < areas[i].end_spec(),
        forall|a: int, b: int|
            0 <= a < b < areas.len() ==> !(#[trigger] areas[a].start_spec() < #[trigger] areas[b].end_spec()
                && areas[b].start_spec() < areas[a].end_spec()),
    ensures
        byte_at(areas, va) == areas[i].byte_of(va),
    decreases areas.len(),
{
    let n = areas.len() - 1;
    assert(areas.last() == areas[n]);
    if i < n {
        assert(!(areas[i].start_spec() < areas[n].end_spec() && areas[n].start_spec() < areas[i].end_spec()));
        let rest = areas.drop_last();
        assert(rest[i] == areas[i]);
        assert forall|a: int, b: int|
            0 <= a < b < rest.len() implies !(#[trigger] rest[a].start_spec() < #[trigger] rest[b].end_spec()
            && rest[b].start_spec() < rest[a].end_spec()) by {
            assert(rest[a] == areas[a] && rest[b] == areas[b]);
        }
        lemma_byte_in(rest, i, va);
    }
}

/// A byte whose page lies in none of `areas` reads as nothing.
proof fn lemma_byte_outside(areas: Seq<MapArea>, va: int)
    requires
        forall|j: int| 0 <= j < areas.len() ==> !(#[trigger] areas[j].start_spec() <= va / 4096 < areas[j].end_spec()),
    ensures
        byte_at(areas, va) is None,
    decreases areas.len(),
{
    if areas.len() > 0 {
        assert(areas.last() == areas[areas.len() - 1]);
        let rest = areas.drop_last();
        assert forall|j: int| 0 <= j < rest.len() implies !(#[trigger] rest[j].start_spec() <= va / 4096 < rest[j].end_spec()) by {
            assert(rest[j] == areas[j]);
        }
        lemma_byte_outside(rest, va);
    }
}

/// One page of contents: byte `b` is the image byte at `page_va + b`.
fn fill_page(image: &[u8], image_va: u64, page_va: u64) -> (r: Vec<u8>)
    requires
        page_va + 4096 <= u64::MAX,
    ensures
        r@.len() == 4096,
        forall|b: int| 0 <= b < 4096 ==> #[trigger] r@[b] == image_byte(image@, image_va, page_va + b),
{
    let mut page: Vec<u8> = Vec::new();
    let mut b: u64 = 0;
    while b < 4096
        invariant
            b <= 4096,
            page_va + 4096 <= u64::MAX,
            page@.len() == b,
            forall|x: int| 0 <= x < b ==> #[trigger] page@[x] == image_byte(image@, image_va, page_va + x),
        decreases 4096 - b,
    {
        let va = page_va + b;
        let byte = if image_va <= va && va - image_va < image.len() as u64 {
            image[(va - image_va) as usize]
        } else {
            0
        };
        page.push(byte);
        b = b + 1;
    }
    page
}

/// The entry that the last of `areas` holding `v` asks for.
pub open spec fn lookup(areas: Seq<MapArea>, v: u64) -> Option<PageTableEntry>
    decreases areas.len(),
{
    if areas.len() == 0 {
        None
    } else {
        match areas.last().entry_of(v) {
            Some(e) => Some(e),
            None => lookup(areas.drop_last(), v),
        }
    }
}

/// The frames owned by `areas`, area by area.
pub open spec fn frames_of(areas: Seq<MapArea>) -> Seq<u64>
    decreases areas.len(),
{
    if areas.len() == 0 {
        Seq::empty()
    } else {
        frames_of(areas.drop_last()) + areas.last().frame_ppns()
    }
}

/// Whether `[start, end)` shares a page with one of `areas`.
pub open spec fn overlaps(areas: Seq<MapArea>, start: u64, end: u64) -> bool {
    exists|i: int|
        0 <= i < areas.len() && #[trigger] areas[i].start_spec() < end && start < areas[i].end_spec()
}

/// A page outside every area is looked up as nothing.
proof fn lemma_lookup_outside(areas: Seq<MapArea>, start: u64, end: u64, v: u64)
    requires
        !overlaps(areas, start, end),
        start <= v < end,
    ensures
        lookup(areas, v) is None,
    decreases areas.len(),
{
    if areas.len() > 0 {
        let last = areas.last();
        assert(areas[areas.len() - 1] == last);
        assert(!(last.start_spec() < end && start < last.end_spec()));
        let rest = areas.drop_last();
        assert forall|i: int| 0 <= i < rest.len() implies !(#[trigger] rest[i].start_spec() < end && start
            < rest[i].end_spec()) by {
            assert(rest[i] == areas[i]);
        }
        lemma_lookup_outside(rest, start, end, v);
    }
}

/// In pairwise disjoint areas, a page of area `i` is looked up as area `i` asks.
proof fn lemma_lookup_in(areas: Seq<MapArea>, i: int, v: u64)
    requires
        0 <= i < areas.len(),
        areas[i].start_spec() <= v < areas[i].end_spec(),
        forall|a: int, b: int|
            0 <= a < b < areas.len() ==> !(#[trigger] areas[a].start_spec() < #[trigger] areas[b].end_spec()
                && areas[b].start_spec() < areas[a].end_spec()),
    ensures
        lookup(areas, v) == areas[i].entry_of(v),
    decreases areas.len(),
{
    let n = areas.len() - 1;
    if i < n {
        assert(!(areas[i].start_spec() < areas[n].end_spec() && areas[n].start_spec() < areas[i].end_spec()));
        assert(areas.last() == areas[n]);
        let rest = areas.drop_last();
        assert(rest[i] == areas[i]);
        assert forall|a: int, b: int|
            0 <= a < b < rest.len() implies !(#[trigger] rest[a].start_spec() < #[trigger] rest[b].end_spec()
            && rest[b].start_spec() < rest[a].end_spec()) by {
            assert(rest[a] == areas[a] && rest[b] == areas[b]);
        }
        lemma_lookup_in(rest, i, v);
    }
}

/// Adding an area on top: its pages first, the rest as before.
proof fn lemma_lookup_push(areas: Seq<MapArea>, a: MapArea, v: u64)
    ensures
        lookup(areas.push(a), v) == match a.entry_of(v) {
            Some(e) => Some(e),
            None => lookup(areas, v),
        },
        frames_of(areas.push(a)) == frames_of(areas) + a.frame_ppns(),
{
    assert(areas.push(a).drop_last() =~= areas);
    assert(areas.push(a).last() == a);
}

/// A complete address space: one page table and the areas mapped into it.
pub struct MemorySet {
    page_table: PageTable,
    areas: Vec<MapArea>,
}

impl MemorySet {
    /// What a walk of the space's table finds for `vpn`.
    pub closed spec fn translate_spec(self, vpn: u64) -> Option<PageTableEntry> {
        self.page_table.translate_spec(vpn)
    }

    pub closed spec fn areas_spec(self) -> Seq<MapArea> {
        self.areas@
    }

    pub closed spec fn root_spec(self) -> u64 {
        self.page_table.root_spec()
    }

    /// Frames of the table's own nodes.
    pub closed spec fn table_frames(self) -> Seq<u64> {
        self.page_table.frame_ppns()
    }

    /// Number of frames the space owns, table nodes and area frames together.
    pub open spec fn frame_count(self) -> nat {
        self.table_frames().len() + frames_of(self.areas_spec()).len()
    }

    /// Every frame the space owns: area frames, area by area, then table nodes.
    pub open spec fn owned_frames(self) -> Seq<u64> {
        frames_of(self.areas_spec()) + self.table_frames()
    }

    /// Every frame the space owns is marked allocated in `pool`.
    pub open spec fn frames_allocated_in(self, pool: FrameAllocState) -> bool {
        &&& forall|q: u64| #[trigger] self.table_frames().contains(q) ==> pool.is_allocated(q)
        &&& forall|q: u64| #[trigger] frames_of(self.areas_spec()).contains(q) ==> pool.is_allocated(q)
    }

    pub closed spec fn wf(self) -> bool {
        &&& self.page_table.wf()
        &&& forall|i: int| 0 <= i < self.areas@.len() ==> (#[trigger] self.areas@[i]).wf()
        &&& forall|a: int, b: int|
            0 <= a < b < self.areas@.len() ==> !(#[trigger] self.areas@[a].start_spec()
                < #[trigger] self.areas@[b].end_spec() && self.areas@[b].start_spec()
                < self.areas@[a].end_spec())
        &&& frames_of(self.areas@).no_duplicates()
        &&& forall|q: u64| #[trigger] self.table_frames().contains(q) ==> !frames_of(self.areas@).contains(q)
        &&& forall|v: u64| v < VPN_LIMIT ==> #[trigger] self.page_table.translate_spec(v) == lookup(self.areas@, v)
    }
}


/// At most how many table nodes mapping the pages `[start, cur)` in order makes: one
/// leaf node per 512-page block touched and one middle node per 2^18-page block
/// touched.
pub open spec fn nodes_bound(start: u64, cur: u64) -> int {
    if cur <= start {
        0
    } else {
        ((cur - 1) / 512 - start / 512 + 1) + ((cur - 1) / 262144 - start / 262144 + 1)
    }
}

/// Frames backing the pages of an area of `map_type` over `[start, end)`.
pub open spec fn data_frames(map_type: MapType, start: u64, end: u64) -> int {
    if map_type == MapType::Framed {
        end - start
    } else {
        0
    }
}

proof fn lemma_bound_mono(start: u64, cur: u64, end: u64)
    requires
        start <= cur <= end,
    ensures
        nodes_bound(start, cur) <= nodes_bound(start, end),
{
    if start < cur {
        vstd::arithmetic::div_mod::lemma_div_is_ordered(cur - 1, end - 1, 512);
        vstd::arithmetic::div_mod::lemma_div_is_ordered(cur - 1, end - 1, 262144);
    } else if start < end {
        vstd::arithmetic::div_mod::lemma_div_is_ordered(start as int, end - 1, 512);
        vstd::arithmetic::div_mod::lemma_div_is_ordered(start as int, end - 1, 262144);
    }
}

proof fn lemma_bound_step(start: u64, cur: u64, nn: int)
    requires
        start <= cur < u64::MAX,
        0 <= nn <= 2,
        cur > start && cur / 512 == (cur - 1) / 512 ==> nn == 0,
        cur > start && cur / 262144 == (cur - 1) / 262144 ==> nn <= 1,
    ensures
        nodes_bound(start, cur) + nn <= nodes_bound(start, (cur + 1) as u64),
{
    if cur > start {
        vstd::arithmetic::div_mod::lemma_div_is_ordered(cur - 1, cur as int, 512);
        vstd::arithmetic::div_mod::lemma_div_is_ordered(cur - 1, cur as int, 262144);
        vstd::arithmetic::div_mod::lemma_div_denominator(cur as int, 512, 512);
        vstd::arithmetic::div_mod::lemma_div_denominator(cur - 1, 512, 512);
    }
}

/// A sequence that extends another holds what that one holds and what was added.
proof fn lemma_contains_split(s1: Seq<u64>, s2: Seq<u64>, q: u64)
    requires
        s1.len() <= s2.len(),
        s2.subrange(0, s1.len() as int) == s1,
    ensures
        s2.contains(q) <==> (s1.contains(q) || s2.skip(s1.len() as int).contains(q)),
{
    let n = s1.len() as int;
    if s2.contains(q) {
        let j = choose|j: int| 0 <= j < s2.len() && s2[j] == q;
        if j < n {
            assert(s1[j] == s2.subrange(0, n)[j]);
        } else {
            assert(s2.skip(n)[j - n] == q);
        }
    }
    if s1.contains(q) {
        let j = choose|j: int| 0 <= j < s1.len() && s1[j] == q;
        assert(s2.subrange(0, n)[j] == s2[j]);
    }
    if s2.skip(n).contains(q) {
        let j = choose|j: int| 0 <= j < s2.skip(n).len() && s2.skip(n)[j] == q;
        assert(s2[j + n] == q);
    }
}

/// Two sequences without repeats and without common items make one without repeats.
proof fn lemma_concat_no_dup(a: Seq<u64>, b: Seq<u64>)
    requires
        a.no_duplicates(),
        b.no_duplicates(),
        forall|q: u64| #[trigger] a.contains(q) ==> !b.contains(q),
    ensures
        (a + b).no_duplicates(),
        forall|q: u64| #[trigger] (a + b).contains(q) <==> (a.contains(q) || b.contains(q)),
{
    assert forall|i: int, j: int| 0 <= i < j < (a + b).len() implies (a + b)[i] != (a + b)[j] by {
        if i < a.len() && j >= a.len() {
            assert(a.contains(a[i]));
            assert(b.contains(b[j - a.len()]));
        } else if i >= a.len() {
            assert(b[i - a.len()] != b[j - a.len()]);
        } else {
            assert(a[i] != a[j]);
        }
    }
    assert forall|q: u64| #[trigger] (a + b).contains(q) <==> (a.contains(q) || b.contains(q)) by {
        if (a + b).contains(q) {
            let i = choose|i: int| 0 <= i < (a + b).len() && (a + b)[i] == q;
            if i < a.len() {
                assert(a[i] == q);
            } else {
                assert(b[i - a.len()] == q);
            }
        }
        if a.contains(q) {
            let i = choose|i: int| 0 <= i < a.len() && a[i] == q;
            assert((a + b)[i] == q);
        }
        if b.contains(q) {
            let i = choose|i: int| 0 <= i < b.len() && b[i] == q;
            assert((a + b)[i + a.len()] == q);
        }
    }
}

impl MemorySet {
    /// Maps the pages `[start, end)` as one new area of `map_type` with `perm`.
    /// An area that shares a page with an existing one is refused, and nothing
    /// changes. If the pool runs dry part way, the pages mapped so far stay as a
    /// shorter area and the result is false.
    #[verifier::loop_isolation(false)]
    #[verifier::spinoff_prover]
    #[verifier::rlimit(100)]
    fn push_area(
        &mut self,
        start: u64,
        end: u64,
        map_type: MapType,
        perm: u8,
        image: &[u8],
        image_va: u64,
        pool: &mut FrameAllocator,
    ) -> (ok: bool)
        requires
            old(self).wf(),
            old(pool)@.wf(),
            old(self).frames_allocated_in(old(pool)@),
            start <= end <= VPN_LIMIT,
            map_type matches MapType::Linear(base) ==> base + (end - start) <= PPN_LIMIT,
        ensures
            final(self).wf(),
            final(pool)@.wf(),
            final(self).frames_allocated_in(final(pool)@),
            final(self).root_spec() == old(self).root_spec(),
            old(self).frame_count() <= final(self).frame_count(),
            old(pool)@.free_count() + old(self).frame_count() == final(pool)@.free_count()
                + final(self).frame_count(),
            overlaps(old(self).areas_spec(), start, end) ==> !ok && *final(self) == *old(self)
                && final(pool)@ == old(pool)@,
            !overlaps(old(self).areas_spec(), start, end) ==> {
                let a = final(self).areas_spec().last();
                &&& final(self).areas_spec() == old(self).areas_spec().push(a)
                &&& a.start_spec() == start
                &&& start <= a.end_spec() <= end
                &&& a.map_type_spec() == map_type
                &&& a.perm_spec() == perm
                &&& ok ==> a.end_spec() == end
                &&& !ok ==> final(pool)@.free_count() <= 1
                &&& map_type == MapType::Framed ==> a.holds_image(image@, image_va)
            },
            !overlaps(old(self).areas_spec(), start, end) && old(pool)@.free_count() >= 3 * (end - start) + 2
                ==> ok,
            !overlaps(old(self).areas_spec(), start, end) && old(pool)@.free_count() >= nodes_bound(start, end)
                + data_frames(map_type, start, end) + 2 ==> ok,
            final(self).frame_count() <= old(self).frame_count() + 3 * (end - start),
            ok ==> final(self).frame_count() <= old(self).frame_count() + nodes_bound(start, end) + data_frames(
                map_type,
                start,
                end,
            ),
    {
        let mut i: usize = 0;
        while i < self.areas.len()
            invariant
                0 <= i <= self.areas@.len(),
                forall|j: int| 0 <= j < i ==> !(#[trigger] self.areas@[j].start_spec() < end && start
                    < self.areas@[j].end_spec()),
            decreases self.areas@.len() - i,
        {
            if self.areas[i].start < end && start < self.areas[i].end {
                return false;
            }
            i = i + 1;
        }
        let ghost s0 = *self;
        let ghost pool_start = pool@;
        let ghost areas0 = self.areas@;
        let mut area = MapArea { start, end: start, map_type, perm, frames: Vec::new(), pages: Vec::new() };
        let mut cur = start;
        let mut ok = true;
        proof {
            assert(area.frame_ppns() =~= Seq::<u64>::empty());
            assert forall|v: u64| v < VPN_LIMIT implies #[trigger] self.page_table.translate_spec(v) == lookup(areas0.push(area), v) by {
                lemma_lookup_push(areas0, area, v);
            }
            assert forall|j: int| 0 <= j < self.page_table.frame_ppns().len() implies pool@.is_allocated(#[trigger] self.page_table.frame_ppns()[j]) by {
                assert(self.table_frames().contains(self.page_table.frame_ppns()[j]));
            }
            assert(self.areas_spec() == areas0);
            assert forall|q: u64| #[trigger] frames_of(areas0).contains(q) implies pool@.is_allocated(q) by {
                assert(frames_of(self.areas_spec()).contains(q));
            }
        }
        while ok && cur < end
            invariant
                start <= cur <= end <= VPN_LIMIT,
                area.start == start,
                area.end == cur,
                area.map_type == map_type,
                area.perm == perm,
                area.wf(),
                self.areas@ == areas0,
                !overlaps(areas0, start, end),
                s0.wf(),
                s0.areas@ == areas0,
                self.page_table.wf(),
                self.page_table.root_spec() == s0.page_table.root_spec(),
                s0.table_frames().len() <= self.table_frames().len(),
                pool@.wf(),
                self.page_table.frames_allocated_in(pool@),
                forall|q: u64| #[trigger] frames_of(areas0).contains(q) ==> pool@.is_allocated(q),
                forall|q: u64| #[trigger] area.frame_ppns().contains(q) ==> pool@.is_allocated(q),
                forall|q: u64| #[trigger] self.table_frames().contains(q) ==> !frames_of(areas0).contains(q),
                forall|q: u64| #[trigger] self.table_frames().contains(q) ==> !area.frame_ppns().contains(q),
                forall|q: u64| #[trigger] frames_of(areas0).contains(q) ==> !area.frame_ppns().contains(q),
                forall|v: u64| v < VPN_LIMIT ==> #[trigger] self.page_table.translate_spec(v) == lookup(areas0.push(area), v),
                pool_start.free_count() + s0.table_frames().len() == pool@.free_count() + self.table_frames().len() + area.frame_ppns().len(),
                !ok ==> pool@.free_count() <= 1,
                self.table_frames().len() - s0.table_frames().len() + area.frame_ppns().len() <= 3 * (cur - start) + (if ok { 0int } else { 2int }),
                !ok ==> cur < end,
                map_type == MapType::Framed ==> area.pages@.len() == cur - start && area.holds_image(image@, image_va),
                pool_start.free_count() >= 3 * (end - start) + 2 ==> ok,
                pool_start.free_count() >= nodes_bound(start, end) + data_frames(map_type, start, end) + 2 ==> ok,
                ok ==> self.table_frames().len() - s0.table_frames().len() <= nodes_bound(start, cur),
                ok && cur > start ==> forall|w: u64| w / 512 == (cur - 1) / 512 ==> #[trigger] self.page_table.nodes_needed(w) == 0,
                ok && cur > start ==> forall|w: u64| w / 262144 == (cur - 1) / 262144 ==> #[trigger] self.page_table.nodes_needed(w) <= 1,
            decreases end - cur, (if ok { 1int } else { 0int }),
        {
            proof {
                lemma_lookup_outside(areas0, start, end, cur);
                lemma_lookup_push(areas0, area, cur);
                lemma_bound_mono(start, cur, end);
                lemma_bound_mono(start, (cur + 1) as u64, end);
            }
            let ghost t0 = self.page_table;
            let ghost a0 = area;
            let vpn = VirtPageNum(cur);
            match map_type {
                MapType::Identical => {
                    let ghost pb = pool@;
                    proof {
                        if pool_start.free_count() >= nodes_bound(start, end) + data_frames(map_type, start, end) + 2 {
                            assert(pool@.free_count() >= 2);
                        }
                    }
                    let done = self.page_table.map(vpn, PhysPageNum(cur), PTEFlags { bits: perm }, pool);
                    proof {
                        if done {
                            lemma_bound_step(start, cur, t0.nodes_needed(cur) as int);
                        }
                    }
                    proof {
                        self.lemma_table_grew(t0, pb, pool@, areas0, a0.frame_ppns());
                    }
                    if done {
                        area.end = cur + 1;
                        cur = cur + 1;
                        proof {
                            assert(area.frame_ppns() == a0.frame_ppns());
                            assert forall|v: u64| v < VPN_LIMIT implies #[trigger] self.page_table.translate_spec(v) == lookup(areas0.push(area), v) by {
                                lemma_lookup_push(areas0, area, v);
                                lemma_lookup_push(areas0, a0, v);
                            }
                        }
                    } else {
                        ok = false;
                    }
                },
                MapType::Linear(base) => {
                    let ghost pb = pool@;
                    proof {
                        if pool_start.free_count() >= nodes_bound(start, end) + data_frames(map_type, start, end) + 2 {
                            assert(pool@.free_count() >= 2);
                        }
                    }
                    let done = self.page_table.map(vpn, PhysPageNum(base + (cur - start)), PTEFlags { bits: perm }, pool);
                    proof {
                        if done {
                            lemma_bound_step(start, cur, t0.nodes_needed(cur) as int);
                        }
                    }
                    proof {
                        self.lemma_table_grew(t0, pb, pool@, areas0, a0.frame_ppns());
                    }
                    if done {
                        area.end = cur + 1;
                        cur = cur + 1;
                        proof {
                            assert(area.frame_ppns() == a0.frame_ppns());
                            assert forall|v: u64| v < VPN_LIMIT implies #[trigger] self.page_table.translate_spec(v) == lookup(areas0.push(area), v) by {
                                lemma_lookup_push(areas0, area, v);
                                lemma_lookup_push(areas0, a0, v);
                            }
                        }
                    } else {
                        ok = false;
                    }
                },
                MapType::Framed => {
                    let ghost pa = pool@;
                    proof {
                        if pool_start.free_count() >= nodes_bound(start, end) + data_frames(map_type, start, end) + 2 {
                            assert(pool@.free_count() >= 3);
                        }
                    }
                    match pool.alloc_frame() {
                        None => {
                            ok = false;
                        },
                        Some(f) => {
                            let ppn = f.ppn();
                            let ghost pb = pool@;
                            proof {
                                assert(seq![f@].contains(f@)) by {
                                    assert(seq![f@][0] == f@);
                                }
                                assert(!pa.is_allocated(f@));
                                lemma_alloc_in_range(pa);
                                assert forall|j: int| 0 <= j < self.page_table.frame_ppns().len() implies pb.is_allocated(#[trigger] self.page_table.frame_ppns()[j]) by {
                                    assert(pa.is_allocated(self.page_table.frame_ppns()[j]));
                                }
                            }
                            let done = self.page_table.map(vpn, ppn, PTEFlags { bits: perm }, pool);
                            proof {
                                if done {
                                    lemma_bound_step(start, cur, t0.nodes_needed(cur) as int);
                                }
                            }
                            proof {
                                self.lemma_table_grew(t0, pb, pool@, areas0, a0.frame_ppns());
                                assert(pool@.is_allocated(f@));
                                assert(!self.table_frames().contains(f@)) by {
                                    lemma_contains_split(t0.frame_ppns(), self.page_table.frame_ppns(), f@);
                                    if self.page_table.frame_ppns().skip(t0.frame_ppns().len() as int).contains(f@) {
                                        assert(!pb.is_allocated(f@));
                                    }
                                    if t0.frame_ppns().contains(f@) {
                                        let j = choose|j: int| 0 <= j < t0.frame_ppns().len() && t0.frame_ppns()[j] == f@;
                                        assert(pa.is_allocated(t0.frame_ppns()[j]));
                                    }
                                }
                            }
                            if done {
                                let page = fill_page(image, image_va, cur * 4096);
                                let ghost pages0 = area.pages@;
                                let ghost c0 = cur;
                                area.pages.push(page);
                                area.frames.push(f);
                                area.end = cur + 1;
                                cur = cur + 1;
                                proof {
                                    assert forall|va: int| start * 4096 <= va < (c0 + 1) * 4096 implies #[trigger] area.byte_of(va)
                                        == Some(image_byte(image@, image_va, va)) by {
                                        let idx = va / 4096 - start;
                                        if va / 4096 < c0 {
                                            assert(area.pages@[idx] == pages0[idx]);
                                            assert(a0.byte_of(va) == Some(image_byte(image@, image_va, va)));
                                        } else {
                                            assert(va / 4096 == c0);
                                            assert(idx == pages0.len());
                                            assert(area.pages@[idx] == page);
                                            assert(c0 * 4096 + va % 4096 == va);
                                        }
                                    }
                                    assert(area.frame_ppns() =~= a0.frame_ppns().push(f@));
                                    assert(!a0.frame_ppns().contains(f@));
                                    assert forall|q: u64| #[trigger] area.frame_ppns().contains(q) <==> (a0.frame_ppns().contains(q) || q == f@) by {
                                        assert(a0.frame_ppns().push(f@)[a0.frame_ppns().len() as int] == f@);
                                        if area.frame_ppns().contains(q) {
                                            let j = choose|j: int| 0 <= j < area.frame_ppns().len() && area.frame_ppns()[j] == q;
                                            if j < a0.frame_ppns().len() {
                                                assert(a0.frame_ppns()[j] == q);
                                            }
                                        }
                                        if a0.frame_ppns().contains(q) {
                                            let j = choose|j: int| 0 <= j < a0.frame_ppns().len() && a0.frame_ppns()[j] == q;
                                            assert(area.frame_ppns()[j] == q);
                                        }
                                    }
                                    assert forall|j: int| 0 <= j < area.frame_ppns().len() implies #[trigger] area.frame_ppns()[j] < PPN_LIMIT by {
                                        if j < a0.frame_ppns().len() {
                                            assert(area.frame_ppns()[j] == a0.frame_ppns()[j]);
                                        }
                                    }
                                    assert forall|j: int, k: int| 0 <= j < k < area.frame_ppns().len() implies area.frame_ppns()[j] != area.frame_ppns()[k] by {
                                        if k == a0.frame_ppns().len() {
                                            assert(a0.frame_ppns().contains(a0.frame_ppns()[j]));
                                        } else {
                                            assert(a0.frame_ppns()[j] != a0.frame_ppns()[k]);
                                        }
                                    }
                                    assert forall|v: u64| v < VPN_LIMIT implies #[trigger] self.page_table.translate_spec(v) == lookup(areas0.push(area), v) by {
                                        lemma_lookup_push(areas0, area, v);
                                        lemma_lookup_push(areas0, a0, v);
                                        if a0.start <= v < a0.end {
                                            assert(area.frame_ppns()[v - start] == a0.frame_ppns()[v - start]);
                                        }
                                    }
                                }
                            } else {
                                pool.dealloc_frame(f);
                                ok = false;
                            }
                        },
                    }
                },
            }
        }
        let ghost a_final = area;
        self.areas.push(area);
        proof {
            assert(self.areas@ == areas0.push(a_final));
            assert(self.areas@.last() == a_final);
            lemma_lookup_push(areas0, a_final, 0);
            lemma_concat_no_dup(frames_of(areas0), a_final.frame_ppns());
            assert forall|b: int, c: int|
                0 <= b < c < self.areas@.len() implies !(#[trigger] self.areas@[b].start_spec()
                < #[trigger] self.areas@[c].end_spec() && self.areas@[c].start_spec()
                < self.areas@[b].end_spec()) by {
                if c == areas0.len() {
                    assert(self.areas@[b] == areas0[b]);
                    assert(!(areas0[b].start_spec() < end && start < areas0[b].end_spec()));
                } else {
                    assert(self.areas@[b] == s0.areas@[b] && self.areas@[c] == s0.areas@[c]);
                }
            }
            assert forall|j: int| 0 <= j < self.areas@.len() implies (#[trigger] self.areas@[j]).wf() by {
                if j < areas0.len() {
                    assert(self.areas@[j] == s0.areas@[j]);
                }
            }
            assert forall|v: u64| v < VPN_LIMIT implies #[trigger] self.page_table.translate_spec(v) == lookup(self.areas@, v) by {}
            assert forall|q: u64| #[trigger] self.table_frames().contains(q) implies pool@.is_allocated(q) by {
                let j = choose|j: int| 0 <= j < self.table_frames().len() && self.table_frames()[j] == q;
                assert(pool@.is_allocated(self.page_table.frame_ppns()[j]));
            }
        }
        ok
    }

    /// After the table took frames from the pool, the frames of the areas are still
    /// allocated and apart from the table's.
    proof fn lemma_table_grew(
        self,
        t0: PageTable,
        pb: FrameAllocState,
        pc: FrameAllocState,
        areas0: Seq<MapArea>,
        extra: Seq<u64>,
    )
        requires
            t0.frame_ppns().len() <= self.page_table.frame_ppns().len(),
            self.page_table.frame_ppns().subrange(0, t0.frame_ppns().len() as int) == t0.frame_ppns(),
            pb.took(pc, self.page_table.frame_ppns().skip(t0.frame_ppns().len() as int)),
            forall|q: u64| #[trigger] frames_of(areas0).contains(q) ==> pb.is_allocated(q),
            forall|q: u64| #[trigger] extra.contains(q) ==> pb.is_allocated(q),
            forall|q: u64| #[trigger] t0.frame_ppns().contains(q) ==> !frames_of(areas0).contains(q),
            forall|q: u64| #[trigger] t0.frame_ppns().contains(q) ==> !extra.contains(q),
        ensures
            forall|q: u64| #[trigger] frames_of(areas0).contains(q) ==> pc.is_allocated(q),
            forall|q: u64| #[trigger] extra.contains(q) ==> pc.is_allocated(q),
            forall|q: u64| #[trigger] self.table_frames().contains(q) ==> !frames_of(areas0).contains(q),
            forall|q: u64| #[trigger] self.table_frames().contains(q) ==> !extra.contains(q),
            forall|q: u64| #[trigger] self.table_frames().contains(q) ==> (t0.frame_ppns().contains(q) || !pb.is_allocated(q)),
    {
        let n = t0.frame_ppns().len() as int;
        let added = self.page_table.frame_ppns().skip(n);
        assert forall|q: u64| #[trigger] self.table_frames().contains(q) implies (t0.frame_ppns().contains(q) || !pb.is_allocated(q)) by {
            lemma_contains_split(t0.frame_ppns(), self.page_table.frame_ppns(), q);
        }
    }
}



/// Boundaries of the kernel image and of physical memory, as byte addresses.
pub struct KernelLayout {
    pub stext: u64,
    pub etext: u64,
    pub srodata: u64,
    pub erodata: u64,
    pub sdata: u64,
    pub edata: u64,
    pub sbss: u64,
    pub ebss: u64,
    pub ekernel: u64,
    pub memory_end: u64,
    /// Start of the privilege-switch code page, inside the text section.
    pub strampoline: u64,
}

impl KernelLayout {
    /// Sections in order, each starting and ending on a page boundary, all below the
    /// top of the virtual address space.
    pub open spec fn wf(self) -> bool {
        &&& self.stext <= self.etext <= self.srodata <= self.erodata <= self.sdata <= self.edata
            <= self.sbss <= self.ebss <= self.ekernel <= self.memory_end <= VA_LIMIT
        &&& self.stext % 4096 == 0
        &&& self.etext % 4096 == 0
        &&& self.srodata % 4096 == 0
        &&& self.erodata % 4096 == 0
        &&& self.sdata % 4096 == 0
        &&& self.edata % 4096 == 0
        &&& self.sbss % 4096 == 0
        &&& self.ebss % 4096 == 0
        &&& self.ekernel % 4096 == 0
        &&& self.memory_end % 4096 == 0
        &&& self.memory_end <= VA_LIMIT - 4096
        &&& self.stext <= self.strampoline < self.etext
        &&& self.strampoline % 4096 == 0
    }

    /// Frames that building the kernel space may take: the root, and the table nodes
    /// of each of its five areas, with two to spare per area.
    pub open spec fn frames_needed(self) -> int {
        1 + (nodes_bound(self.stext / 4096, self.etext / 4096) + 2) + (nodes_bound(
            self.srodata / 4096,
            self.erodata / 4096,
        ) + 2) + (nodes_bound(self.sdata / 4096, self.ebss / 4096) + 2) + (nodes_bound(
            self.ekernel / 4096,
            self.memory_end / 4096,
        ) + 2) + 4
    }
}

/// Whether page `v` of an identity-mapped range `[s, e)` (byte addresses) translates
/// to itself with `flags` and the valid bit.
pub open spec fn identity_mapped(ms: MemorySet, s: u64, e: u64, flags: u8) -> bool {
    forall|v: u64|
        s / 4096 <= v < e / 4096 ==> #[trigger] ms.translate_spec(v) == Some(
            PageTableEntry { bits: pte_bits(v, flags | PTE_V) },
        )
}

/// Whether every page of `[s, e)` (byte addresses) is mapped with the given write
/// and execute bits.
pub open spec fn section_permissions(ms: MemorySet, s: u64, e: u64, writable: bool, executable: bool) -> bool {
    forall|v: u64|
        s / 4096 <= v < e / 4096 ==> (#[trigger] ms.translate_spec(v) matches Some(pte) && bit_set(pte.bits, 2)
            == writable && bit_set(pte.bits, 3) == executable && bit_set(pte.bits, 1))
}

/// Concatenation holds what its parts hold.
proof fn lemma_concat_contains(a: Seq<u64>, b: Seq<u64>)
    ensures
        forall|q: u64| #[trigger] (a + b).contains(q) <==> (a.contains(q) || b.contains(q)),
{
    assert forall|q: u64| #[trigger] (a + b).contains(q) <==> (a.contains(q) || b.contains(q)) by {
        if (a + b).contains(q) {
            let i = choose|i: int| 0 <= i < (a + b).len() && (a + b)[i] == q;
            if i < a.len() {
                assert(a[i] == q);
            } else {
                assert(b[i - a.len()] == q);
            }
        }
        if a.contains(q) {
            let i = choose|i: int| 0 <= i < a.len() && a[i] == q;
            assert((a + b)[i] == q);
        }
        if b.contains(q) {
            let i = choose|i: int| 0 <= i < b.len() && b[i] == q;
            assert((a + b)[i + a.len()] == q);
        }
    }
}

/// The parts of a concatenation without repeats have none, and share nothing.
proof fn lemma_split_no_dup(a: Seq<u64>, b: Seq<u64>)
    requires
        (a + b).no_duplicates(),
    ensures
        a.no_duplicates(),
        b.no_duplicates(),
        forall|q: u64| #[trigger] a.contains(q) ==> !b.contains(q),
{
    assert forall|i: int, j: int| 0 <= i < j < a.len() implies a[i] != a[j] by {
        assert((a + b)[i] == a[i] && (a + b)[j] == a[j]);
    }
    assert forall|i: int, j: int| 0 <= i < j < b.len() implies b[i] != b[j] by {
        assert((a + b)[i + a.len()] == b[i] && (a + b)[j + a.len()] == b[j]);
    }
    assert forall|q: u64| #[trigger] a.contains(q) implies !b.contains(q) by {
        if a.contains(q) && b.contains(q) {
            let i = choose|i: int| 0 <= i < a.len() && a[i] == q;
            let j = choose|j: int| 0 <= j < b.len() && b[j] == q;
            assert((a + b)[i] == (a + b)[j + a.len()]);
        }
    }
}

/// Gives every frame of `area` back to `pool`.
fn release_area(area: MapArea, pool: &mut FrameAllocator)
    requires
        old(pool)@.wf(),
        area.frame_ppns().no_duplicates(),
        forall|q: u64| #[trigger] area.frame_ppns().contains(q) ==> old(pool)@.is_allocated(q),
    ensures
        old(pool)@.gave(final(pool)@, area.frame_ppns()),
{
    let ghost all = area.frame_ppns();
    let mut frames = area.frames;
    proof {
        lemma_took_none(pool@);
        assert(all.skip(all.len() as int) =~= Seq::empty());
        assert(frames@.map_values(|f: FrameTracker| f@) =~= all.subrange(0, frames@.len() as int));
        assert forall|j: int| 0 <= j < frames@.len() implies pool@.is_allocated(#[trigger] all[j]) by {
            assert(all.contains(all[j]));
        }
    }
    while frames.len() > 0
        invariant
            pool@.wf(),
            frames@.len() <= all.len(),
            frames@.map_values(|f: FrameTracker| f@) == all.subrange(0, frames@.len() as int),
            all.no_duplicates(),
            forall|j: int| 0 <= j < frames@.len() ==> pool@.is_allocated(#[trigger] all[j]),
            old(pool)@.gave(pool@, all.skip(frames@.len() as int)),
        decreases frames@.len(),
    {
        let ghost n = frames@.len() as int;
        let ghost before = pool@;
        let f = frames.pop().unwrap();
        proof {
            assert(all.subrange(0, n)[n - 1] == all[n - 1]);
            assert(f@ == all[n - 1]);
            assert(frames@.map_values(|f: FrameTracker| f@) =~= all.subrange(0, n - 1));
        }
        pool.dealloc_frame(f);
        proof {
            lemma_gave_trans(old(pool)@, before, all.skip(n), pool@, seq![all[n - 1]]);
            assert(seq![all[n - 1]] + all.skip(n) =~= all.skip(n - 1));
            assert forall|j: int| 0 <= j < n - 1 implies pool@.is_allocated(#[trigger] all[j]) by {
                assert(all[j] != all[n - 1]);
                assert(before.is_allocated(all[j]));
            }
        }
    }
    proof {
        assert(all.skip(0) =~= all);
    }
}

impl MemorySet {
    /// An empty address space: a table with only its root. `None` if the pool is empty.
    pub fn new_bare(pool: &mut FrameAllocator) -> (r: Option<MemorySet>)
        requires
            old(pool)@.wf(),
        ensures
            final(pool)@.wf(),
            r is None <==> old(pool)@.free_count() == 0,
            r is None ==> final(pool)@ == old(pool)@,
            r matches Some(ms) ==> {
                &&& ms.wf()
                &&& ms.frames_allocated_in(final(pool)@)
                &&& ms.areas_spec().len() == 0
                &&& ms.frame_count() == 1
                &&& old(pool)@.free_count() == final(pool)@.free_count() + ms.frame_count()
                &&& forall|v: u64| #[trigger] ms.translate_spec(v) is None
            },
    {
        let page_table = match PageTable::new(pool) {
            Some(t) => t,
            None => return None,
        };
        let ms = MemorySet { page_table, areas: Vec::new() };
        proof {
            assert(frames_of(ms.areas@) =~= Seq::empty());
            assert forall|q: u64| #[trigger] ms.table_frames().contains(q) implies pool@.is_allocated(q) by {
                let j = choose|j: int| 0 <= j < ms.table_frames().len() && ms.table_frames()[j] == q;
                assert(ms.page_table.frame_ppns().contains(q));
            }
        }
        Some(ms)
    }

    /// Maps the pages covering `[start_va, end_va)` as a new framed area with `perm`,
    /// each page backed by a fresh, zeroed frame from `pool`. A range that shares a
    /// page with an existing area is refused and nothing changes; if the pool runs
    /// dry part way, the pages mapped so far stay as a shorter area and the result is
    /// false.
    pub fn insert_framed_area(
        &mut self,
        start_va: VirtAddr,
        end_va: VirtAddr,
        perm: u8,
        pool: &mut FrameAllocator,
    ) -> (ok: bool)
        requires
            old(self).wf(),
            old(pool)@.wf(),
            old(self).frames_allocated_in(old(pool)@),
            start_va.0 <= end_va.0 <= VA_LIMIT,
        ensures
            final(self).wf(),
            final(pool)@.wf(),
            final(self).frames_allocated_in(final(pool)@),
            final(self).root_spec() == old(self).root_spec(),
            old(pool)@.free_count() + old(self).frame_count() == final(pool)@.free_count()
                + final(self).frame_count(),
            ({
                let (s, e) = (start_va.0 / 4096, pages_up(end_va.0 as int) as u64);
                &&& overlaps(old(self).areas_spec(), s, e) ==> !ok && *final(self) == *old(self)
                &&& !overlaps(old(self).areas_spec(), s, e) ==> {
                    let a = final(self).areas_spec().last();
                    &&& final(self).areas_spec() == old(self).areas_spec().push(a)
                    &&& a.start_spec() == s
                    &&& a.map_type_spec() == MapType::Framed
                    &&& a.perm_spec() == perm
                    &&& ok ==> a.end_spec() == e
                    &&& !ok ==> final(pool)@.free_count() <= 1
                }
                &&& !overlaps(old(self).areas_spec(), s, e) && old(pool)@.free_count() >= nodes_bound(s, e) + (e - s)
                    + 2 ==> ok
            }),
            ok ==> forall|v: u64|
                start_va.0 / 4096 <= v < pages_up(end_va.0 as int) ==> (#[trigger] final(self).translate_spec(v) matches Some(pte) && pte.flags_spec() == perm | PTE_V),
    {
        let s = start_va.floor();
        let e = end_va.ceil();
        let ghost old_self = *self;
        let no_image: Vec<u8> = Vec::new();
        let ok = self.push_area(s.0, e.0, MapType::Framed, perm, no_image.as_slice(), 0, pool);
        proof {
            if ok {
                let a = self.areas@.last();
                assert forall|v: u64| s.0 <= v < e.0 implies (#[trigger] self.translate_spec(v) matches Some(pte) && pte.flags_spec() == perm | PTE_V) by {
                    assert(self.areas@[self.areas@.len() - 1] == a);
                    lemma_lookup_in(self.areas@, self.areas@.len() - 1, v);
                    assert(a.frame_ppns().contains(a.frame_ppns()[v - a.start]));
                    lemma_pte_fields(a.target(v), perm | PTE_V);
                }
            }
        }
        ok
    }

    /// The valid leaf entry for `vpn` in this space, or `None`.
    pub fn translate(&self, vpn: VirtPageNum) -> (r: Option<PageTableEntry>)
        requires
            self.wf(),
        ensures
            r == self.translate_spec(vpn.0),
    {
        self.page_table.translate(vpn)
    }

    /// The byte at virtual address `va` in the frames of a framed area of this space;
    /// `None` where `va` lies in no framed area.
    pub fn read_byte(&self, va: VirtAddr) -> (r: Option<u8>)
        requires
            self.wf(),
        ensures
            r == byte_at(self.areas_spec(), va.0 as int),
    {
        let vpn = va.0 / 4096;
        let mut i: usize = 0;
        while i < self.areas.len()
            invariant
                self.wf(),
                vpn == va.0 / 4096,
                0 <= i <= self.areas@.len(),
                forall|j: int| 0 <= j < i ==> !(#[trigger] self.areas@[j].start_spec() <= vpn < self.areas@[j].end_spec()),
            decreases self.areas@.len() - i,
        {
            if self.areas[i].start <= vpn && vpn < self.areas[i].end {
                proof {
                    lemma_byte_in(self.areas@, i as int, va.0 as int);
                }
                return self.areas[i].byte(va.0);
            }
            i = i + 1;
        }
        proof {
            lemma_byte_outside(self.areas@, va.0 as int);
        }
        None
    }

    /// The table behind this space.
    pub closed spec fn page_table_spec(self) -> PageTable {
        self.page_table
    }

    /// The table behind this space, to be copied into its frames before activation.
    pub fn page_table(&self) -> (r: &PageTable)
        requires
            self.wf(),
        ensures
            *r == self.page_table_spec(),
            r.wf(),
            r.frame_ppns() == self.table_frames(),
            forall|v: u64| #[trigger] r.translate_spec(v) == self.translate_spec(v),
    {
        &self.page_table
    }

    /// The translation-root register value that activates this space.
    pub fn token(&self) -> (r: u64)
        requires
            self.wf(),
        ensures
            r == 0x8000_0000_0000_0000u64 + self.root_spec(),
    {
        self.page_table.token()
    }

    /// Gives every frame the space owns, area frames and table nodes, back to `pool`.
    #[verifier::loop_isolation(false)]
    pub fn destroy(self, pool: &mut FrameAllocator)
        requires
            self.wf(),
            old(pool)@.wf(),
            self.frames_allocated_in(old(pool)@),
        ensures
            final(pool)@.wf(),
            final(pool)@.free_count() == old(pool)@.free_count() + self.frame_count(),
            forall|q: u64|
                #[trigger] final(pool)@.is_allocated(q) == (old(pool)@.is_allocated(q)
                    && !self.table_frames().contains(q) && !frames_of(self.areas_spec()).contains(q)),
            old(pool)@.gave(final(pool)@, self.owned_frames()),
    {
        let ghost all = self.areas@;
        let ghost table = self.table_frames();
        let ghost s0 = self;
        let MemorySet { page_table, areas } = self;
        let mut areas = areas;
        let ghost mut given: Seq<u64> = Seq::empty();
        proof {
            lemma_took_none(pool@);
            assert(areas@ == all);
            assert(all.subrange(0, all.len() as int) =~= all);
            assert forall|q: u64| #[trigger] frames_of(areas@).contains(q) implies pool@.is_allocated(q) by {
                assert(frames_of(s0.areas_spec()).contains(q));
            }
        }
        while areas.len() > 0
            invariant
                pool@.wf(),
                areas@ == all.subrange(0, areas@.len() as int),
                areas@.len() <= all.len(),
                frames_of(areas@).no_duplicates(),
                forall|q: u64| #[trigger] frames_of(areas@).contains(q) ==> pool@.is_allocated(q),
                forall|q: u64| #[trigger] table.contains(q) ==> pool@.is_allocated(q),
                forall|q: u64| #[trigger] table.contains(q) ==> !frames_of(areas@).contains(q),
                forall|q: u64| #[trigger] frames_of(all).contains(q) <==> (frames_of(areas@).contains(q) || given.contains(q)),
                frames_of(areas@).len() + given.len() == frames_of(all).len(),
                old(pool)@.gave(pool@, given),
            decreases areas@.len(),
        {
            let ghost before = pool@;
            let ghost rest = areas@.drop_last();
            let a = areas.pop().unwrap();
            proof {
                assert(areas@ == rest);
                assert(rest =~= all.subrange(0, rest.len() as int));
                assert(frames_of(rest.push(a)) == frames_of(rest) + a.frame_ppns()) by {
                    lemma_lookup_push(rest, a, 0);
                }
                lemma_split_no_dup(frames_of(rest), a.frame_ppns());
                lemma_concat_contains(frames_of(rest), a.frame_ppns());
                assert forall|q: u64| #[trigger] a.frame_ppns().contains(q) implies before.is_allocated(q) by {
                    assert(frames_of(rest.push(a)).contains(q));
                }
            }
            let ghost a_frames = a.frame_ppns();
            release_area(a, pool);
            proof {
                lemma_gave_trans(old(pool)@, before, given, pool@, a_frames);
                lemma_concat_contains(given, a_frames);
                assert forall|q: u64| #[trigger] frames_of(rest).contains(q) implies pool@.is_allocated(q) by {
                    assert(frames_of(rest.push(a)).contains(q));
                    assert(!a_frames.contains(q));
                }
                given = given + a_frames;
            }
        }
        proof {
            assert(frames_of(areas@) =~= Seq::empty());
            assert forall|j: int| 0 <= j < page_table.frame_ppns().len() implies pool@.is_allocated(#[trigger] page_table.frame_ppns()[j]) by {
                assert(table.contains(page_table.frame_ppns()[j]));
            }
        }
        let ghost before = pool@;
        page_table.destroy(pool);
        proof {
            lemma_gave_trans(old(pool)@, before, given, pool@, table);
            lemma_concat_contains(given, table);
            lemma_concat_contains(frames_of(all), table);
            let owned = frames_of(all) + table;
            assert(owned == s0.owned_frames());
            assert forall|q: u64| #[trigger] owned.contains(q) implies pool@.recycled.contains(q) by {
                assert((given + table).contains(q));
            }
        }
    }
}


impl MemorySet {
    /// Adds one identity-mapped section `[s, e)` (byte addresses, page aligned) to a
    /// space whose areas all end at or below `s`.
    fn push_section(&mut self, s: u64, e: u64, perm: u8, pool: &mut FrameAllocator) -> (ok: bool)
        requires
            old(self).wf(),
            old(pool)@.wf(),
            old(self).frames_allocated_in(old(pool)@),
            s <= e <= VA_LIMIT,
            forall|j: int| 0 <= j < old(self).areas_spec().len() ==> #[trigger] old(self).areas_spec()[j].end_spec() <= s / 4096,
        ensures
            final(self).wf(),
            final(pool)@.wf(),
            final(self).frames_allocated_in(final(pool)@),
            old(pool)@.free_count() + old(self).frame_count() == final(pool)@.free_count()
                + final(self).frame_count(),
            final(self).areas_spec().len() == old(self).areas_spec().len() + 1,
            forall|j: int| 0 <= j < old(self).areas_spec().len() ==> #[trigger] final(self).areas_spec()[j] == old(self).areas_spec()[j],
            ok ==> forall|j: int| 0 <= j < final(self).areas_spec().len() ==> #[trigger] final(self).areas_spec()[j].end_spec() <= e / 4096,
            ok ==> identity_mapped(*final(self), s, e, perm),
            old(pool)@.free_count() >= nodes_bound(s / 4096, e / 4096) + 2 ==> ok,
            ok ==> final(self).frame_count() <= old(self).frame_count() + nodes_bound(s / 4096, e / 4096),
            ok ==> {
                let a = final(self).areas_spec()[old(self).areas_spec().len() as int];
                &&& a.start_spec() == s / 4096
                &&& a.end_spec() == e / 4096
                &&& a.map_type_spec() == MapType::Identical
                &&& a.perm_spec() == perm
            },
    {
        proof {
            assert(!overlaps(self.areas@, s / 4096, e / 4096)) by {
                assert forall|j: int| 0 <= j < self.areas@.len() implies !(#[trigger] self.areas@[j].start_spec() < e / 4096 && s / 4096 < self.areas@[j].end_spec()) by {
                    assert(self.areas_spec()[j].end_spec() <= s / 4096);
                }
            }
        }
        let no_image: Vec<u8> = Vec::new();
        let ok = self.push_area(s / PAGE_SIZE, e / PAGE_SIZE, MapType::Identical, perm, no_image.as_slice(), 0, pool);
        proof {
            let n = self.areas@.len() - 1;
            let a = self.areas@.last();
            assert(self.areas@[n] == a);
            assert forall|j: int| 0 <= j < n implies #[trigger] self.areas_spec()[j] == old(self).areas_spec()[j] by {}
            if ok {
                assert forall|j: int| 0 <= j < self.areas_spec().len() implies #[trigger] self.areas_spec()[j].end_spec() <= e / 4096 by {
                    if j < n {
                        assert(old(self).areas_spec()[j].end_spec() <= s / 4096);
                    }
                }
                assert forall|v: u64| s / 4096 <= v < e / 4096 implies #[trigger] self.translate_spec(v) == Some(
                    PageTableEntry { bits: pte_bits(v, perm | PTE_V) }) by {
                    lemma_lookup_in(self.areas@, n, v);
                }
            }
        }
        ok
    }

    /// The kernel's own space: text (read, execute), read-only data (read), data and
    /// bss as one area (read, write), and the physical memory above the kernel image
    /// (read, write), each mapped to itself; and the trampoline page at the top of
    /// the address space, mapped to the trampoline code (read, execute). `None` if
    /// the pool ran dry; every frame taken is then given back.
    pub fn new_kernel(layout: &KernelLayout, pool: &mut FrameAllocator) -> (r: Option<MemorySet>)
        requires
            layout.wf(),
            old(pool)@.wf(),
        ensures
            final(pool)@.wf(),
            r is None ==> final(pool)@.free_count() == old(pool)@.free_count(),
            old(pool)@.free_count() >= layout.frames_needed() ==> r is Some,
            old(pool)@.free_count() >= (layout.memory_end - layout.stext) / 4096 / 256 + 23 ==> r is Some,
            r matches Some(ms) ==> {
                &&& ms.wf()
                &&& ms.frames_allocated_in(final(pool)@)
                &&& old(pool)@.free_count() == final(pool)@.free_count() + ms.frame_count()
                &&& identity_mapped(ms, layout.stext, layout.etext, PTE_R | PTE_X)
                &&& identity_mapped(ms, layout.srodata, layout.erodata, PTE_R)
                &&& identity_mapped(ms, layout.sdata, layout.ebss, PTE_R | PTE_W)
                &&& identity_mapped(ms, layout.ekernel, layout.memory_end, PTE_R | PTE_W)
                &&& ms.translate_spec(TRAMPOLINE_VPN) == Some(
                    PageTableEntry { bits: pte_bits(layout.strampoline / 4096, (PTE_R | PTE_X) | PTE_V) },
                )
            },
    {
        proof {
            lemma_kernel_frames_bound(*layout);
        }
        let mut ms = match MemorySet::new_bare(pool) {
            Some(m) => m,
            None => return None,
        };
        if !ms.push_section(layout.stext, layout.etext, PTE_R | PTE_X, pool) {
            ms.destroy(pool);
            return None;
        }
        let ghost m1 = ms;
        if !ms.push_section(layout.srodata, layout.erodata, PTE_R, pool) {
            ms.destroy(pool);
            return None;
        }
        let ghost m2 = ms;
        if !ms.push_section(layout.sdata, layout.ebss, PTE_R | PTE_W, pool) {
            ms.destroy(pool);
            return None;
        }
        let ghost m3 = ms;
        if !ms.push_section(layout.ekernel, layout.memory_end, PTE_R | PTE_W, pool) {
            ms.destroy(pool);
            return None;
        }
        let ghost m4 = ms;
        proof {
            assert(!overlaps(ms.areas@, TRAMPOLINE_VPN, VPN_LIMIT)) by {
                assert forall|j: int| 0 <= j < ms.areas@.len() implies !(#[trigger] ms.areas@[j].start_spec() < VPN_LIMIT && TRAMPOLINE_VPN < ms.areas@[j].end_spec()) by {
                    assert(ms.areas_spec()[j].end_spec() <= layout.memory_end / 4096);
                }
            }
            assert(nodes_bound(TRAMPOLINE_VPN, VPN_LIMIT) == 2);
        }
        let no_image: Vec<u8> = Vec::new();
        let tramp = layout.strampoline / PAGE_SIZE;
        if !ms.push_area(TRAMPOLINE_VPN, VPN_LIMIT, MapType::Linear(tramp), PTE_R | PTE_X, no_image.as_slice(), 0, pool) {
            ms.destroy(pool);
            return None;
        }
        proof {
            let n = ms.areas@.len() - 1;
            assert(ms.areas@.last() == ms.areas@[n]);
            assert(ms.areas@[0] == m1.areas@[0]);
            assert(ms.areas@[1] == m2.areas@[1]);
            assert(ms.areas@[2] == m3.areas@[2]);
            assert(ms.areas@[3] == m4.areas@[3]);
            lemma_lookup_in(ms.areas@, n, TRAMPOLINE_VPN);
            assert forall|v: u64| layout.stext / 4096 <= v < layout.etext / 4096 implies #[trigger] ms.translate_spec(v) == Some(
                PageTableEntry { bits: pte_bits(v, (PTE_R | PTE_X) | PTE_V) }) by {
                lemma_lookup_in(ms.areas@, 0, v);
            }
            assert forall|v: u64| layout.srodata / 4096 <= v < layout.erodata / 4096 implies #[trigger] ms.translate_spec(v) == Some(
                PageTableEntry { bits: pte_bits(v, PTE_R | PTE_V) }) by {
                lemma_lookup_in(ms.areas@, 1, v);
            }
            assert forall|v: u64| layout.sdata / 4096 <= v < layout.ebss / 4096 implies #[trigger] ms.translate_spec(v) == Some(
                PageTableEntry { bits: pte_bits(v, (PTE_R | PTE_W) | PTE_V) }) by {
                lemma_lookup_in(ms.areas@, 2, v);
            }
            assert forall|v: u64| layout.ekernel / 4096 <= v < layout.memory_end / 4096 implies #[trigger] ms.translate_spec(v) == Some(
                PageTableEntry { bits: pte_bits(v, (PTE_R | PTE_W) | PTE_V) }) by {
                lemma_lookup_in(ms.areas@, 3, v);
            }
        }
        Some(ms)
    }
}

proof fn lemma_div_gap(a: int, b: int, d: int)
    requires
        0 <= b <= a,
        d > 0,
    ensures
        b / d <= a / d,
        a / d - b / d <= (a - b) / d + 1,
{
    vstd::arithmetic::div_mod::lemma_div_is_ordered(b, a, d);
    vstd::arithmetic::div_mod::lemma_fundamental_div_mod(a, d);
    vstd::arithmetic::div_mod::lemma_fundamental_div_mod(b, d);
    vstd::arithmetic::div_mod::lemma_fundamental_div_mod(a - b, d);
    let (qa, ra, qb, rb, qc, rc) = (a / d, a % d, b / d, b % d, (a - b) / d, (a - b) % d);
    assert(qa - qb <= qc + 1) by (nonlinear_arith)
        requires
            a == d * qa + ra,
            b == d * qb + rb,
            a - b == d * qc + rc,
            0 <= ra < d,
            0 <= rb < d,
            0 <= rc < d,
            d > 0,
    ;
}

proof fn lemma_nodes_bound_upper(s: u64, e: u64)
    requires
        s <= e,
    ensures
        nodes_bound(s, e) <= (e / 512 - s / 512) + (e / 262144 - s / 262144) + 2,
        s / 512 <= e / 512,
        s / 262144 <= e / 262144,
{
    lemma_div_gap(e as int, s as int, 512);
    lemma_div_gap(e as int, s as int, 262144);
    if s < e {
        vstd::arithmetic::div_mod::lemma_div_is_ordered(e - 1, e as int, 512);
        vstd::arithmetic::div_mod::lemma_div_is_ordered(e - 1, e as int, 262144);
    }
}

/// Building the kernel space takes at most one frame per 256 pages of the span from
/// the start of the kernel image to the end of memory, plus a constant.
pub proof fn lemma_kernel_frames_bound(l: KernelLayout)
    requires
        l.wf(),
    ensures
        l.frames_needed() <= (l.memory_end - l.stext) / 4096 / 256 + 23,
{
    let (a0, a1, a2, a3, a4, a5, a6, a7) = (l.stext / 4096, l.etext / 4096, l.srodata / 4096, l.erodata / 4096,
        l.sdata / 4096, l.ebss / 4096, l.ekernel / 4096, l.memory_end / 4096);
    assert(a0 <= a1 <= a2 <= a3 <= a4 <= a5 <= a6 <= a7);
    lemma_nodes_bound_upper(a0, a1);
    lemma_nodes_bound_upper(a1, a2);
    lemma_nodes_bound_upper(a2, a3);
    lemma_nodes_bound_upper(a3, a4);
    lemma_nodes_bound_upper(a4, a5);
    lemma_nodes_bound_upper(a5, a6);
    lemma_nodes_bound_upper(a6, a7);
    lemma_div_gap(a7 as int, a0 as int, 512);
    lemma_div_gap(a7 as int, a0 as int, 262144);
    let n = a7 - a0;
    assert((l.memory_end - l.stext) / 4096 == n);
    vstd::arithmetic::div_mod::lemma_div_denominator(n, 512, 512);
    vstd::arithmetic::div_mod::lemma_div_is_ordered(n / 512 / 512, n / 512, 1);
    assert(n / 262144 <= n / 512) by {
        vstd::arithmetic::div_mod::lemma_div_denominator(n, 512, 512);
        vstd::arithmetic::div_mod::lemma_div_is_ordered(0, n / 512, 512);
        vstd::arithmetic::div_mod::lemma_fundamental_div_mod(n / 512, 512);
    }
    assert(2 * (n / 512) <= n / 256) by {
        vstd::arithmetic::div_mod::lemma_fundamental_div_mod(n, 512);
        vstd::arithmetic::div_mod::lemma_fundamental_div_mod(n, 256);
        let (q, r, q2, r2) = (n / 512, n % 512, n / 256, n % 256);
        assert(2 * q <= q2) by (nonlinear_arith)
            requires
                n == 512 * q + r,
                n == 256 * q2 + r2,
                0 <= r < 512,
                0 <= r2 < 256,
        ;
    }
}

/// In every identity-mapped area, each page translates to the physical page of the
/// same number.
pub proof fn lemma_identity_area(ms: MemorySet, i: int, v: u64)
    requires
        ms.wf(),
        0 <= i < ms.areas_spec().len(),
        ms.areas_spec()[i].map_type_spec() == MapType::Identical,
        ms.areas_spec()[i].start_spec() <= v < ms.areas_spec()[i].end_spec(),
    ensures
        ms.translate_spec(v) matches Some(pte) && pte.ppn_spec() == v && pte.valid_spec(),
{
    let a = ms.areas@[i];
    assert(a.wf());
    lemma_lookup_in(ms.areas@, i, v);
    lemma_pte_fields(v, a.perm | PTE_V);
    let fl = a.perm;
    assert(((fl | 1u8) as u64 >> 0u64) & 1 == 1) by (bit_vector);
}

/// In the kernel space, text is executable and not writable, read-only data is not
/// writable, and data and bss are writable; all of them are readable.
pub proof fn lemma_kernel_permissions(ms: MemorySet, layout: KernelLayout)
    requires
        identity_mapped(ms, layout.stext, layout.etext, PTE_R | PTE_X),
        identity_mapped(ms, layout.srodata, layout.erodata, PTE_R),
        identity_mapped(ms, layout.sdata, layout.ebss, PTE_R | PTE_W),
        layout.memory_end <= VA_LIMIT,
        layout.stext <= layout.etext <= layout.srodata <= layout.erodata <= layout.sdata <= layout.edata
            <= layout.sbss <= layout.ebss <= layout.memory_end,
    ensures
        section_permissions(ms, layout.stext, layout.etext, false, true),
        section_permissions(ms, layout.srodata, layout.erodata, false, false),
        section_permissions(ms, layout.sdata, layout.ebss, true, false),
{
    let (rx, r, rw) = ((PTE_R | PTE_X) | PTE_V, PTE_R | PTE_V, (PTE_R | PTE_W) | PTE_V);
    assert((2u8 | 8u8) | 1u8 == 11u8 && 2u8 | 1u8 == 3u8 && (2u8 | 4u8) | 1u8 == 7u8) by (bit_vector);
    assert((11u64 >> 1u64) & 1 == 1 && (11u64 >> 2u64) & 1 == 0 && (11u64 >> 3u64) & 1 == 1) by (bit_vector);
    assert((3u64 >> 1u64) & 1 == 1 && (3u64 >> 2u64) & 1 == 0 && (3u64 >> 3u64) & 1 == 0) by (bit_vector);
    assert((7u64 >> 1u64) & 1 == 1 && (7u64 >> 2u64) & 1 == 1 && (7u64 >> 3u64) & 1 == 0) by (bit_vector);
    assert forall|v: u64| layout.stext / 4096 <= v < layout.etext / 4096 implies (#[trigger] ms.translate_spec(v) matches Some(pte) && bit_set(pte.bits, 2)
        == false && bit_set(pte.bits, 3) == true && bit_set(pte.bits, 1)) by {
        lemma_pte_fields(v, rx);
    }
    assert forall|v: u64| layout.srodata / 4096 <= v < layout.erodata / 4096 implies (#[trigger] ms.translate_spec(v) matches Some(pte) && bit_set(pte.bits, 2)
        == false && bit_set(pte.bits, 3) == false && bit_set(pte.bits, 1)) by {
        lemma_pte_fields(v, r);
    }
    assert forall|v: u64| layout.sdata / 4096 <= v < layout.ebss / 4096 implies (#[trigger] ms.translate_spec(v) matches Some(pte) && bit_set(pte.bits, 2)
        == true && bit_set(pte.bits, 3) == false && bit_set(pte.bits, 1)) by {
        lemma_pte_fields(v, rw);
    }
}

/// Building a space takes from the pool exactly as many frames as the space owns,
/// and tearing it down puts each of them back on the free list: the cursor and the
/// end of the pool stay where they were after building, the free list grows by the
/// space's frame count, and the pool's free count returns to what it was before the
/// space was built.
pub proof fn lemma_teardown_restores(
    before: FrameAllocState,
    built: FrameAllocState,
    after: FrameAllocState,
    ms: MemorySet,
)
    requires
        before.free_count() == built.free_count() + ms.frame_count(),
        built.gave(after, ms.owned_frames()),
    ensures
        after.free_count() == before.free_count(),
        after.current == built.current,
        after.end == built.end,
        after.recycled.len() == built.recycled.len() + ms.frame_count(),
        forall|q: u64| #[trigger] ms.owned_frames().contains(q) ==> after.recycled.contains(q),
{
}


/// The page that holds the privilege-switch code, at the top of every address space.
pub const TRAMPOLINE_VPN: u64 = 0x7ff_ffff;
/// Pages of a user stack.
pub const USER_STACK_PAGES: u64 = 2;

/// One loadable segment of a parsed program image: its byte range and its
/// read / write / execute flags.
pub struct ElfSegment {
    pub start_va: u64,
    pub end_va: u64,
    pub perm: u8,
    /// Initial contents from `start_va` on; the rest of the range reads as zero.
    pub data: Vec<u8>,
}

/// Whether every page of `[s, e)` (byte addresses) is mapped with `flags` and the
/// valid bit, to some frame.
pub open spec fn framed_with(ms: MemorySet, s: u64, e: u64, flags: u8) -> bool {
    forall|v: u64|
        s / 4096 <= v < pages_up(e as int) ==> (#[trigger] ms.translate_spec(v) matches Some(pte)
            && pte.flags_spec() == flags | PTE_V)
}

/// Pages spanned by segment `seg`.
pub open spec fn segment_pages(seg: ElfSegment) -> int {
    pages_up(seg.end_va as int) - seg.start_va / 4096
}

/// Frames the first `n` segments may take: for each, one frame per page, its table
/// nodes, and two to spare.
pub open spec fn segments_frames(segs: Seq<ElfSegment>, n: int) -> int
    decreases n,
{
    if n <= 0 {
        0
    } else {
        segments_frames(segs, n - 1) + nodes_bound(
            segs[n - 1].start_va / 4096,
            pages_up(segs[n - 1].end_va as int) as u64,
        ) + segment_pages(segs[n - 1]) + 2
    }
}

/// No two segments share a page.
pub open spec fn segments_apart(segs: Seq<ElfSegment>) -> bool {
    forall|i: int, j: int|
        0 <= i < j < segs.len() ==> pages_up(#[trigger] segs[i].end_va as int) <= #[trigger] segs[j].start_va / 4096
            || pages_up(segs[j].end_va as int) <= segs[i].start_va / 4096
}

/// Every segment ends low enough to leave room for the guard page and the user stack
/// below the trampoline.
pub open spec fn segments_fit(segs: Seq<ElfSegment>) -> bool {
    forall|i: int|
        0 <= i < segs.len() ==> pages_up(#[trigger] segs[i].end_va as int) + USER_STACK_PAGES + 1 < TRAMPOLINE_VPN
}

proof fn lemma_segments_frames_grow(segs: Seq<ElfSegment>, i: int, n: int)
    requires
        0 <= i <= n <= segs.len(),
        forall|k: int| 0 <= k < segs.len() ==> #[trigger] segs[k].start_va <= segs[k].end_va,
    ensures
        segments_frames(segs, i) <= segments_frames(segs, n),
    decreases n - i,
{
    if i < n {
        lemma_segments_frames_grow(segs, i, n - 1);
        assert(segs[n - 1].start_va <= segs[n - 1].end_va);
        let a = segs[n - 1].start_va / 4096;
        let b = pages_up(segs[n - 1].end_va as int) as u64;
        lemma_bound_mono(a, a, b);
    }
}

impl MemorySet {
    /// A user address space: one framed area per segment (user-accessible, with the
    /// segment's flags), the trampoline page mapped to `trampoline`, and above the
    /// highest segment an unmapped guard page followed by the user stack. Returns the
    /// space, the top of the user stack, and the entry point. `None` when segments
    /// share a page or reach the trampoline, or the pool ran dry; every frame taken is
    /// then given back.
    #[verifier::loop_isolation(false)]
    pub fn from_elf(
        segments: &Vec<ElfSegment>,
        entry_point: u64,
        trampoline: PhysPageNum,
        pool: &mut FrameAllocator,
    ) -> (r: Option<(MemorySet, u64, u64)>)
        requires
            old(pool)@.wf(),
            trampoline.0 < PPN_LIMIT,
            forall|i: int| 0 <= i < segments@.len() ==> #[trigger] segments@[i].start_va <= segments@[i].end_va <= VA_LIMIT,
            forall|i: int| 0 <= i < segments@.len() ==> #[trigger] segments@[i].data@.len() <= segments@[i].end_va - segments@[i].start_va,
        ensures
            final(pool)@.wf(),
            r is None ==> final(pool)@.free_count() == old(pool)@.free_count(),
            segments_apart(segments@) && segments_fit(segments@) && old(pool)@.free_count()
                >= segments_frames(segments@, segments@.len() as int) + 13 ==> r is Some,
            r matches Some((ms, sp, entry)) ==> {
                &&& ms.wf()
                &&& ms.frames_allocated_in(final(pool)@)
                &&& old(pool)@.free_count() == final(pool)@.free_count() + ms.frame_count()
                &&& entry == entry_point
                &&& sp % 4096 == 0
                &&& sp / 4096 < TRAMPOLINE_VPN
                &&& ms.translate_spec(TRAMPOLINE_VPN) == Some(
                    PageTableEntry { bits: pte_bits(trampoline.0, (PTE_R | PTE_X) | PTE_V) },
                )
                &&& ms.translate_spec((sp / 4096 - USER_STACK_PAGES - 1) as u64) is None
                &&& framed_with(ms, (sp - USER_STACK_PAGES * 4096) as u64, sp, (PTE_R | PTE_W) | PTE_U)
                &&& forall|i: int, j: int|
                    0 <= i < segments@.len() && 0 <= j < segments@[i].data@.len() ==> byte_at(
                        ms.areas_spec(),
                        #[trigger] segments@[i].start_va + j,
                    ) == Some(#[trigger] segments@[i].data@[j])
                &&& forall|i: int|
                    0 <= i < segments@.len() ==> framed_with(
                        ms,
                        #[trigger] segments@[i].start_va,
                        segments@[i].end_va,
                        segments@[i].perm | PTE_U,
                    )
            },
    {
        proof {
            lemma_segments_frames_grow(segments@, 0, segments@.len() as int);
        }
        let mut ms = match MemorySet::new_bare(pool) {
            Some(m) => m,
            None => return None,
        };
        let ghost pool_start = old(pool)@;
        let ghost total = segments_frames(segments@, segments@.len() as int);
        let ghost owed = segments_apart(segments@) && segments_fit(segments@) && pool_start.free_count() >= total + 13;
        proof {
            lemma_segments_frames_grow(segments@, 0, segments@.len() as int);
        }
        let no_image: Vec<u8> = Vec::new();
        if !ms.push_area(TRAMPOLINE_VPN, VPN_LIMIT, MapType::Linear(trampoline.0), PTE_R | PTE_X, no_image.as_slice(), 0, pool) {
            ms.destroy(pool);
            return None;
        }
        let mut max_end: u64 = 0;
        let mut i: usize = 0;
        while i < segments.len()
            invariant
                0 <= i <= segments@.len(),
                ms.wf(),
                pool@.wf(),
                ms.frames_allocated_in(pool@),
                pool_start.free_count() == pool@.free_count() + ms.frame_count(),
                ms.areas_spec().len() == i + 1,
                ms.areas_spec()[0].start_spec() == TRAMPOLINE_VPN,
                ms.areas_spec()[0].end_spec() == VPN_LIMIT,
                ms.areas_spec()[0].map_type_spec() == MapType::Linear(trampoline.0),
                ms.areas_spec()[0].perm_spec() == PTE_R | PTE_X,
                max_end <= VPN_LIMIT,
                owed ==> pool@.free_count() >= (total - segments_frames(segments@, i as int)) + 8,
                owed ==> max_end + USER_STACK_PAGES + 1 < TRAMPOLINE_VPN,
                forall|k: int| 0 < k <= i ==> #[trigger] ms.areas_spec()[k].end_spec() <= max_end,
                forall|k: int| 0 <= k < i ==> {
                    let a = #[trigger] ms.areas_spec()[k + 1];
                    &&& a.start_spec() == segments@[k].start_va / 4096
                    &&& a.end_spec() == pages_up(segments@[k].end_va as int)
                    &&& a.map_type_spec() == MapType::Framed
                    &&& a.perm_spec() == segments@[k].perm | PTE_U
                    &&& a.holds_image(segments@[k].data@, segments@[k].start_va)
                },
            decreases segments@.len() - i,
        {
            let seg = &segments[i];
            let s = VirtAddr(seg.start_va).floor();
            let e = VirtAddr(seg.end_va).ceil();
            let ghost before = ms;
            let ghost free_before = pool@.free_count();
            proof {
                lemma_segments_frames_grow(segments@, i as int + 1, segments@.len() as int);
                assert(segments_frames(segments@, i as int + 1) == segments_frames(segments@, i as int) + nodes_bound(s.0, e.0) + (e.0 - s.0) + 2);
                if owed {
                    assert forall|k: int| 0 <= k < before.areas_spec().len() implies !(#[trigger] before.areas_spec()[k].start_spec() < e.0
                        && s.0 < before.areas_spec()[k].end_spec()) by {
                        if k > 0 {
                            assert(segments_apart(segments@));
                            let a = before.areas_spec()[(k - 1) + 1];
                            assert(a.start_spec() == segments@[k - 1].start_va / 4096);
                            assert(pages_up(segments@[k - 1].end_va as int) <= segments@[i as int].start_va / 4096
                                || pages_up(segments@[i as int].end_va as int) <= segments@[k - 1].start_va / 4096);
                        } else {
                            assert(pages_up(segments@[i as int].end_va as int) + USER_STACK_PAGES + 1 < TRAMPOLINE_VPN);
                        }
                    }
                }
            }
            if !ms.push_area(s.0, e.0, MapType::Framed, seg.perm | PTE_U, seg.data.as_slice(), seg.start_va, pool) {
                ms.destroy(pool);
                return None;
            }
            proof {
                assert(!overlaps(before.areas_spec(), s.0, e.0));
                assert(!(before.areas_spec()[0].start_spec() < e.0 && s.0 < before.areas_spec()[0].end_spec()));
                assert forall|k: int| 0 <= k <= i implies {
                    let a = #[trigger] ms.areas_spec()[k + 1];
                    &&& a.start_spec() == segments@[k].start_va / 4096
                    &&& a.end_spec() == pages_up(segments@[k].end_va as int)
                    &&& a.map_type_spec() == MapType::Framed
                    &&& a.perm_spec() == segments@[k].perm | PTE_U
                    &&& a.holds_image(segments@[k].data@, segments@[k].start_va)
                } by {
                    if k < i {
                        assert(ms.areas_spec()[k + 1] == before.areas_spec()[k + 1]);
                    }
                }
            }
            if e.0 > max_end {
                max_end = e.0;
            }
            proof {
                if owed {
                    assert(pages_up(segments@[i as int].end_va as int) + USER_STACK_PAGES + 1 < TRAMPOLINE_VPN);
                }
            }
            proof {
                assert forall|k: int| 0 < k <= i + 1 implies #[trigger] ms.areas_spec()[k].end_spec() <= max_end by {
                    if k <= i {
                        assert(ms.areas_spec()[k] == before.areas_spec()[k]);
                    }
                }
                assert(ms.areas_spec()[0] == before.areas_spec()[0]);
            }
            i = i + 1;
        }
        if max_end + 1 + USER_STACK_PAGES >= TRAMPOLINE_VPN {
            ms.destroy(pool);
            return None;
        }
        let stack_bottom = max_end + 1;
        let stack_top = stack_bottom + USER_STACK_PAGES;
        proof {
            assert(nodes_bound(stack_bottom, stack_top) <= 4);
        }
        let ghost before = ms;
        proof {
            assert forall|k: int| 0 <= k < ms.areas_spec().len() implies !(#[trigger] ms.areas_spec()[k].start_spec() < stack_top && stack_bottom < ms.areas_spec()[k].end_spec()) by {
                if k > 0 {
                    assert(ms.areas_spec()[k].end_spec() <= max_end);
                }
            }
        }
        if !ms.push_area(stack_bottom, stack_top, MapType::Framed, (PTE_R | PTE_W) | PTE_U, no_image.as_slice(), 0, pool) {
            ms.destroy(pool);
            return None;
        }
        let sp = stack_top * 4096;
        proof {
            let n = ms.areas@.len() - 1;
            let last = ms.areas@[n];
            assert(ms.areas@.last() == last);
            assert(ms.areas@[0] == before.areas@[0]);
            // trampoline
            lemma_lookup_in(ms.areas@, 0, TRAMPOLINE_VPN);
            // guard page
            assert forall|k: int| 0 <= k < ms.areas@.len() implies !(#[trigger] ms.areas@[k].start_spec() < max_end + 1 && max_end < ms.areas@[k].end_spec()) by {
                if 0 < k < n {
                    assert(ms.areas@[k] == before.areas@[k]);
                    assert(before.areas_spec()[k].end_spec() <= max_end);
                }
            }
            lemma_lookup_outside(ms.areas@, max_end, (max_end + 1) as u64, max_end);
            assert(sp / 4096 == stack_top);
            // stack
            assert forall|v: u64| ((sp - USER_STACK_PAGES * 4096) as u64) / 4096 <= v < pages_up(sp as int) implies (#[trigger] ms.translate_spec(v) matches Some(pte)
                && pte.flags_spec() == ((PTE_R | PTE_W) | PTE_U) | PTE_V) by {
                lemma_lookup_in(ms.areas@, n, v);
                assert(last.frame_ppns().contains(last.frame_ppns()[v - last.start]));
                lemma_pte_fields(last.target(v), ((PTE_R | PTE_W) | PTE_U) | PTE_V);
            }
            // segment contents
            assert forall|k: int, j: int|
                0 <= k < segments@.len() && 0 <= j < segments@[k].data@.len() implies byte_at(
                    ms.areas_spec(),
                    #[trigger] segments@[k].start_va + j,
                ) == Some(#[trigger] segments@[k].data@[j]) by {
                let a = ms.areas@[k + 1];
                assert(a == before.areas@[k + 1]);
                let va = segments@[k].start_va + j;
                assert(a.start_spec() <= va / 4096 < a.end_spec());
                lemma_byte_in(ms.areas@, k + 1, va);
                assert(a.start_spec() * 4096 <= va < a.end_spec() * 4096);
            }
            // segments
            assert forall|k: int| 0 <= k < segments@.len() implies framed_with(
                ms,
                #[trigger] segments@[k].start_va,
                segments@[k].end_va,
                segments@[k].perm | PTE_U,
            ) by {
                let a = ms.areas@[k + 1];
                assert(a == before.areas@[k + 1]);
                assert forall|v: u64| segments@[k].start_va / 4096 <= v < pages_up(segments@[k].end_va as int) implies (#[trigger] ms.translate_spec(v) matches Some(pte)
                    && pte.flags_spec() == (segments@[k].perm | PTE_U) | PTE_V) by {
                    lemma_lookup_in(ms.areas@, k + 1, v);
                    assert(a.wf());
                    assert(a.frame_ppns().contains(a.frame_ppns()[v - a.start]));
                    lemma_pte_fields(a.target(v), (segments@[k].perm | PTE_U) | PTE_V);
                }
            }
        }
        Some((ms, sp, entry_point))
    }
}

} // verus!
