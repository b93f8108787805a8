use vstd::prelude::*;

verus! {

/// Bytes in the kernel heap arena.
pub const KERNEL_HEAP_SIZE: usize = 0x30_0000;

/// A live allocation: `size` bytes of the arena from offset `start`.
#[derive(Clone, Copy, Debug, PartialEq, Eq, Structural)]
pub struct HeapBlock {
    pub start: usize,
    pub size: usize,
}

/// A fixed byte arena handing out blocks first-fit. Live blocks are kept sorted by
/// offset and never share a byte.
pub struct HeapAllocator {
    arena: Vec<u8>,
    blocks: Vec<HeapBlock>,
}

impl HeapAllocator {
    pub closed spec fn capacity(self) -> nat {
        self.arena@.len()
    }

    /// Live blocks in order of offset.
    pub closed spec fn live(self) -> Seq<HeapBlock> {
        self.blocks@
    }

    /// The bytes of the arena.
    pub closed spec fn contents(self) -> Seq<u8> {
        self.arena@
    }

    pub closed spec fn wf(self) -> bool {
        &&& forall|i: int|
            0 <= i < self.blocks@.len() ==> (#[trigger] self.blocks@[i]).size > 0
                && self.blocks@[i].start + self.blocks@[i].size <= self.arena@.len()
        &&& forall|i: int, j: int|
            0 <= i < j < self.blocks@.len() ==> #[trigger] self.blocks@[i].start + self.blocks@[i].size
                <= #[trigger] self.blocks@[j].start
    }

    /// Whether `size` bytes from offset `p` lie in the arena and touch no live block.
    pub open spec fn fits(self, p: int, size: int) -> bool {
        &&& 0 <= p
        &&& p + size <= self.capacity()
        &&& forall|i: int|
            0 <= i < self.live().len() ==> p + size <= (#[trigger] self.live()[i]).start || self.live()[i].start
                + self.live()[i].size <= p
    }

    /// An arena of `capacity` zero bytes with nothing allocated.
    pub fn new(capacity: usize) -> (r: HeapAllocator)
        ensures
            r.wf(),
            r.capacity() == capacity,
            r.live().len() == 0,
            forall|k: int| 0 <= k < capacity ==> #[trigger] r.contents()[k] == 0,
    {
        let mut arena: Vec<u8> = Vec::new();
        let mut k: usize = 0;
        while k < capacity
            invariant
                k <= capacity,
                arena@.len() == k,
                forall|x: int| 0 <= x < k ==> #[trigger] arena@[x] == 0,
            decreases capacity - k,
        {
            arena.push(0);
            k = k + 1;
        }
        HeapAllocator { arena, blocks: Vec::new() }
    }

    /// The lowest offset where `size` bytes fit, as a new live block; `None` when no
    /// offset fits.
    #[verifier::spinoff_prover]
    #[verifier::rlimit(50)]
    pub fn alloc_block(&mut self, size: usize, align: usize) -> (r: Option<HeapBlock>)
        requires
            old(self).wf(),
            size > 0,
            align > 0,
        ensures
            final(self).wf(),
            final(self).capacity() == old(self).capacity(),
            final(self).contents() == old(self).contents(),
            r is None ==> *final(self) == *old(self) && forall|p: int|
                p % (align as int) == 0 ==> !(#[trigger] old(self).fits(p, size as int)),
            r matches Some(b) ==> {
                &&& b.size == size
                &&& b.start % align == 0
                &&& old(self).fits(b.start as int, size as int)
                &&& forall|p: int| 0 <= p < b.start && p % (align as int) == 0 ==> !(#[trigger] old(self).fits(p, size as int))
                &&& exists|k: int| 0 <= k <= old(self).live().len() && final(self).live() == old(self).live().insert(k, b)
            },
    {
        let mut pos: usize = 0;
        let mut i: usize = 0;
        let len = self.arena.len();
        while i < self.blocks.len()
            invariant
                self.wf(),
                size > 0,
                align > 0,
                *self == *old(self),
                len == self.arena@.len(),
                i <= self.blocks@.len(),
                pos <= len,
                i > 0 ==> pos == self.blocks@[i - 1].start + self.blocks@[i - 1].size,
                i == 0 ==> pos == 0,
                forall|j: int| 0 <= j < i ==> #[trigger] self.blocks@[j].start + self.blocks@[j].size <= pos,
                forall|p: int| p < pos && p % (align as int) == 0 ==> !(#[trigger] self.fits(p, size as int)),
            decreases self.blocks@.len() - i,
        {
            let b = self.blocks[i];
            let rem = pos % align;
            let gap = if rem == 0 { 0 } else { align - rem };
            proof {
                lemma_round_up(pos as int, align as int, gap as int, 0);
                if i > 0 {
                    assert(self.blocks@[i - 1].start + self.blocks@[i - 1].size <= self.blocks@[i as int].start);
                }
            }
            if b.start - pos >= gap && b.start - pos - gap >= size {
                let cand = pos + gap;
                let nb = HeapBlock { start: cand, size };
                proof {
                    assert forall|p: int| 0 <= p < cand && p % (align as int) == 0 implies !(#[trigger] self.fits(p, size as int)) by {
                        lemma_round_up(pos as int, align as int, gap as int, p);
                    }
                    assert forall|j: int| 0 <= j < self.live().len() implies cand + size <= (#[trigger] self.live()[j]).start
                        || self.live()[j].start + self.live()[j].size <= cand by {
                        if j > i {
                            assert(b.start + b.size <= self.blocks@[j].start);
                        }
                    }
                }
                let ghost before = *self;
                self.blocks.insert(i, nb);
                proof {
                    let nl = self.blocks@;
                    assert(nl == before.blocks@.insert(i as int, nb));
                    assert forall|x: int, y: int| 0 <= x < y < nl.len() implies #[trigger] nl[x].start + nl[x].size <= #[trigger] nl[y].start by {
                        if y < i {
                            assert(nl[x] == before.blocks@[x] && nl[y] == before.blocks@[y]);
                        } else if y == i {
                            assert(nl[x] == before.blocks@[x]);
                        } else if x == i {
                            assert(nl[y] == before.blocks@[y - 1]);
                            if y - 1 > i {
                                assert(before.blocks@[i as int].start + before.blocks@[i as int].size <= before.blocks@[y - 1].start);
                            }
                        } else if x < i {
                            assert(nl[x] == before.blocks@[x] && nl[y] == before.blocks@[y - 1]);
                        } else {
                            assert(nl[x] == before.blocks@[x - 1] && nl[y] == before.blocks@[y - 1]);
                        }
                    }
                    assert(b == before.blocks@[i as int]);
                    assert(b.start + b.size <= self.arena@.len());
                    assert forall|x: int| 0 <= x < nl.len() implies (#[trigger] nl[x]).size > 0 && nl[x].start + nl[x].size
                        <= self.arena@.len() by {
                        if x < i {
                            assert(nl[x] == before.blocks@[x]);
                            assert(before.blocks@[x].size > 0);
                        } else if x > i {
                            assert(nl[x] == before.blocks@[x - 1]);
                            assert(before.blocks@[x - 1].size > 0);
                            assert(before.blocks@[x - 1].start + before.blocks@[x - 1].size <= before.arena@.len());
                        } else {
                            assert(nl[x] == nb);
                            assert(nb.start + nb.size <= b.start);
                        }
                    }
                    assert(self.live() == old(self).live().insert(i as int, nb));
                    assert(old(self).fits(cand as int, size as int));
                    assert(exists|k: int| 0 <= k <= old(self).live().len() && self.live() == old(self).live().insert(k, nb));
                }
                return Some(nb);
            }
            proof {
                assert forall|p: int| p < b.start + b.size && p % (align as int) == 0 implies !(#[trigger] self.fits(p, size as int)) by {
                    if p >= pos && self.fits(p, size as int) {
                        lemma_round_up(pos as int, align as int, gap as int, p);
                        assert(self.live()[i as int] == b);
                    }
                }
                assert forall|j: int| 0 <= j <= i implies #[trigger] self.blocks@[j].start + self.blocks@[j].size <= b.start + b.size by {
                    if j < i {
                        assert(self.blocks@[j].start + self.blocks@[j].size <= self.blocks@[i as int].start);
                    }
                }
            }
            pos = b.start + b.size;
            i = i + 1;
        }
        let rem = pos % align;
        let gap = if rem == 0 { 0 } else { align - rem };
        proof {
            lemma_round_up(pos as int, align as int, gap as int, 0);
            assert forall|p: int| p % (align as int) == 0 && p >= pos && (len - pos < gap || len - pos - gap < size) implies !(#[trigger] self.fits(p, size as int)) by {
                lemma_round_up(pos as int, align as int, gap as int, p);
            }
        }
        if len - pos >= gap && len - pos - gap >= size {
            let cand = pos + gap;
            let nb = HeapBlock { start: cand, size };
            let ghost before = *self;
            self.blocks.push(nb);
            proof {
                let nl = self.blocks@;
                assert(nl == before.blocks@.insert(before.blocks@.len() as int, nb));
                assert forall|x: int, y: int| 0 <= x < y < nl.len() implies #[trigger] nl[x].start + nl[x].size <= #[trigger] nl[y].start by {
                    assert(nl[x] == before.blocks@[x]);
                    if y < before.blocks@.len() {
                        assert(nl[y] == before.blocks@[y]);
                    }
                }
                assert forall|x: int| 0 <= x < nl.len() implies (#[trigger] nl[x]).size > 0 && nl[x].start + nl[x].size
                    <= self.arena@.len() by {
                    if x < before.blocks@.len() {
                        assert(nl[x] == before.blocks@[x]);
                    }
                }
                assert(self.live() == old(self).live().insert(old(self).live().len() as int, nb));
                assert(old(self).fits(cand as int, size as int));
                assert forall|p: int| 0 <= p < cand && p % (align as int) == 0 implies !(#[trigger] old(self).fits(p, size as int)) by {
                    lemma_round_up(pos as int, align as int, gap as int, p);
                }
                assert(exists|k: int| 0 <= k <= old(self).live().len() && self.live() == old(self).live().insert(k, nb));
            }
            return Some(nb);
        }
        None
    }

    /// Returns a live block to the arena.
    pub fn dealloc_block(&mut self, b: HeapBlock)
        requires
            old(self).wf(),
            old(self).live().contains(b),
        ensures
            final(self).wf(),
            final(self).capacity() == old(self).capacity(),
            final(self).contents() == old(self).contents(),
            exists|k: int|
                0 <= k < old(self).live().len() && old(self).live()[k] == b && final(self).live() == old(
                    self,
                ).live().remove(k),
    {
        let ghost k0 = choose|k: int| 0 <= k < self.blocks@.len() && self.blocks@[k] == b;
        let mut i: usize = 0;
        while i < self.blocks.len()
            invariant
                self.wf(),
                *self == *old(self),
                0 <= k0 < self.blocks@.len(),
                self.blocks@[k0] == b,
                i <= k0,
            decreases self.blocks@.len() - i,
        {
            if self.blocks[i] == b {
                let ghost before = *self;
                self.blocks.remove(i);
                proof {
                    let nl = self.blocks@;
                    assert forall|x: int, y: int| 0 <= x < y < nl.len() implies #[trigger] nl[x].start + nl[x].size <= #[trigger] nl[y].start by {
                        let x0 = if x < i { x } else { x + 1 };
                        let y0 = if y < i { y } else { y + 1 };
                        assert(nl[x] == before.blocks@[x0] && nl[y] == before.blocks@[y0]);
                    }
                    assert forall|x: int| 0 <= x < nl.len() implies (#[trigger] nl[x]).size > 0 && nl[x].start + nl[x].size
                        <= self.arena@.len() by {
                        let x0 = if x < i { x } else { x + 1 };
                        assert(nl[x] == before.blocks@[x0]);
                    }
                    assert(before.blocks@[i as int] == b);
                    assert(self.live() == old(self).live().remove(i as int));
                }
                return;
            }
            proof {
                if i == k0 {
                    assert(false);
                }
            }
            i = i + 1;
        }
    }

    /// Stores `v` at offset `off` of live block `b`.
    pub fn write(&mut self, b: HeapBlock, off: usize, v: u8)
        requires
            old(self).wf(),
            old(self).live().contains(b),
            off < b.size,
        ensures
            final(self).wf(),
            final(self).live() == old(self).live(),
            final(self).capacity() == old(self).capacity(),
            final(self).contents() == old(self).contents().update(b.start + off, v),
    {
        proof {
            let k = choose|k: int| 0 <= k < self.blocks@.len() && self.blocks@[k] == b;
            assert(self.blocks@[k].start + self.blocks@[k].size <= self.arena@.len());
        }
        let len = self.arena.len();
        self.arena.set(b.start + off, v);
    }

    /// The byte at offset `off` of live block `b`.
    pub fn read(&self, b: HeapBlock, off: usize) -> (r: u8)
        requires
            self.wf(),
            self.live().contains(b),
            off < b.size,
        ensures
            r == self.contents()[b.start + off],
    {
        proof {
            let k = choose|k: int| 0 <= k < self.blocks@.len() && self.blocks@[k] == b;
            assert(self.blocks@[k].start + self.blocks@[k].size <= self.arena@.len());
        }
        let len = self.arena.len();
        self.arena[b.start + off]
    }
}

/// Rounding `pos` up to a multiple of `align` adds `gap`, and no multiple of `align`
/// at or above `pos` lies below the rounded value.
proof fn lemma_round_up(pos: int, align: int, gap: int, p: int)
    requires
        0 <= pos,
        align > 0,
        gap == (if pos % align == 0 { 0 } else { align - pos % align }),
    ensures
        (pos + gap) % align == 0,
        0 <= p && p % align == 0 && pos <= p ==> pos + gap <= p,
{
    let q = pos / align;
    let r = pos % align;
    vstd::arithmetic::div_mod::lemma_fundamental_div_mod(pos, align);
    if r != 0 {
        assert((pos + gap) == (q + 1) * align) by (nonlinear_arith)
            requires
                pos == align * q + r,
                gap == align - r,
        ;
        vstd::arithmetic::div_mod::lemma_mod_multiples_basic(q + 1, align);
        if 0 <= p && p % align == 0 && pos <= p {
            let k = p / align;
            vstd::arithmetic::div_mod::lemma_fundamental_div_mod(p, align);
            assert(pos + gap <= p) by (nonlinear_arith)
                requires
                    pos == align * q + r,
                    0 < r < align,
                    p == align * k,
                    pos <= p,
                    gap == align - r,
            ;
        }
    } else {
        assert(pos == align * q);
        vstd::arithmetic::div_mod::lemma_mod_multiples_basic(q, align);
    }
}

/// Two different live blocks share no byte: a write through one never changes what
/// the other holds.
pub proof fn lemma_blocks_isolated(h: HeapAllocator, a: HeapBlock, b: HeapBlock, off: int, k: int, v: u8)
    requires
        h.wf(),
        h.live().contains(a),
        h.live().contains(b),
        a != b,
        0 <= off < a.size,
        0 <= k < b.size,
    ensures
        a.start + off != b.start + k,
        h.contents().update(a.start + off, v)[b.start + k] == h.contents()[b.start + k],
{
    let i = choose|i: int| 0 <= i < h.live().len() && h.live()[i] == a;
    let j = choose|j: int| 0 <= j < h.live().len() && h.live()[j] == b;
    assert(h.blocks@[j].start + h.blocks@[j].size <= h.arena@.len());
    if i < j {
        assert(h.blocks@[i].start + h.blocks@[i].size <= h.blocks@[j].start);
    } else if j < i {
        assert(h.blocks@[j].start + h.blocks@[j].size <= h.blocks@[i].start);
    }
}

} // verus!
