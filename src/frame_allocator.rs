use vstd::prelude::*;
use crate::address::{PhysPageNum, PPN_LIMIT};

verus! {

/// Abstract state of the frame pool: a cursor into untouched frames below `end`,
/// and a stack of recycled frames.
pub struct FrameAllocState {
    pub start: u64,
    pub current: u64,
    pub end: u64,
    pub recycled: Seq<u64>,
}

impl FrameAllocState {
    pub open spec fn wf(self) -> bool {
        &&& self.start <= self.current <= self.end
        &&& self.end <= PPN_LIMIT
        &&& self.recycled.no_duplicates()
        &&& forall|i: int| 0 <= i < self.recycled.len() ==> self.start <= #[trigger] self.recycled[i] < self.current
    }

    /// Frames that the pool may still hand out.
    pub open spec fn free_set(self) -> Set<u64> {
        Set::new(|p: u64| (self.current <= p < self.end) || self.recycled.contains(p))
    }

    pub open spec fn free_count(self) -> nat {
        self.recycled.len() + (self.end - self.current) as nat
    }

    /// Frames that were handed out and not given back.
    pub open spec fn is_allocated(self, p: u64) -> bool {
        self.start <= p < self.current && !self.recycled.contains(p)
    }

    /// The state after one allocation, and the frame handed out.
    pub open spec fn alloc_next(self) -> (FrameAllocState, Option<u64>) {
        if self.recycled.len() > 0 {
            (
                FrameAllocState { recycled: self.recycled.drop_last(), ..self },
                Some(self.recycled.last()),
            )
        } else if self.current < self.end {
            (FrameAllocState { current: (self.current + 1) as u64, ..self }, Some(self.current))
        } else {
            (self, None)
        }
    }

    /// The state after `p` is given back.
    pub open spec fn dealloc_next(self, p: u64) -> FrameAllocState {
        FrameAllocState { recycled: self.recycled.push(p), ..self }
    }

    /// The state after `n` allocations, and the frames they handed out, in order.
    pub open spec fn alloc_many(self, n: nat) -> (FrameAllocState, Seq<u64>)
        decreases n,
    {
        if n == 0 {
            (self, Seq::empty())
        } else {
            let (s1, first) = self.alloc_next();
            let (s2, rest) = s1.alloc_many((n - 1) as nat);
            match first {
                Some(p) => (s2, seq![p] + rest),
                None => (s2, rest),
            }
        }
    }
}

impl FrameAllocState {
    /// `next` is this pool after the frames of `taken`, and only those, were handed out.
    pub open spec fn took(self, next: FrameAllocState, taken: Seq<u64>) -> bool {
        &&& next.wf()
        &&& next.start == self.start
        &&& next.end == self.end
        &&& taken.no_duplicates()
        &&& next.free_count() + taken.len() == self.free_count()
        &&& forall|q: u64| #[trigger] next.is_allocated(q) == (self.is_allocated(q) || taken.contains(q))
        &&& forall|q: u64| #[trigger] taken.contains(q) ==> !self.is_allocated(q)
    }

    /// `next` is this pool after the frames of `given`, and only those, came back.
    pub open spec fn gave(self, next: FrameAllocState, given: Seq<u64>) -> bool {
        &&& next.wf()
        &&& next.start == self.start
        &&& next.current == self.current
        &&& next.end == self.end
        &&& next.recycled.len() == self.recycled.len() + given.len()
        &&& next.recycled.subrange(0, self.recycled.len() as int) == self.recycled
        &&& forall|q: u64| #[trigger] given.contains(q) ==> next.recycled.contains(q)
        &&& next.free_count() == self.free_count() + given.len()
        &&& forall|q: u64| #[trigger] next.is_allocated(q) == (self.is_allocated(q) && !given.contains(q))
    }
}

/// A pool took nothing from itself.
pub proof fn lemma_took_none(s: FrameAllocState)
    requires
        s.wf(),
    ensures
        s.took(s, Seq::empty()),
        s.gave(s, Seq::empty()),
{
    assert(s.recycled.subrange(0, s.recycled.len() as int) =~= s.recycled);
}

/// Two runs of allocation make one.
pub proof fn lemma_took_trans(
    a: FrameAllocState,
    b: FrameAllocState,
    x: Seq<u64>,
    c: FrameAllocState,
    y: Seq<u64>,
)
    requires
        a.took(b, x),
        b.took(c, y),
    ensures
        a.took(c, x + y),
{
    assert forall|q: u64| (x + y).contains(q) <==> (x.contains(q) || y.contains(q)) by {
        if (x + y).contains(q) {
            let i = choose|i: int| 0 <= i < (x + y).len() && (x + y)[i] == q;
            if i < x.len() {
                assert(x[i] == q);
            } else {
                assert(y[i - x.len()] == q);
            }
        }
        if x.contains(q) {
            let i = choose|i: int| 0 <= i < x.len() && x[i] == q;
            assert((x + y)[i] == q);
        }
        if y.contains(q) {
            let i = choose|i: int| 0 <= i < y.len() && y[i] == q;
            assert((x + y)[i + x.len()] == q);
        }
    }
    assert forall|i: int, j: int| 0 <= i < j < (x + y).len() implies (x + y)[i] != (x + y)[j] by {
        if i < x.len() && j >= x.len() {
            assert(x.contains(x[i]));
            assert(y.contains(y[j - x.len()]));
            assert(b.is_allocated(x[i]));
            assert(!b.is_allocated(y[j - x.len()]));
        } else if i >= x.len() {
            assert(y[i - x.len()] != y[j - x.len()]);
        } else {
            assert(x[i] != x[j]);
        }
    }
    assert forall|q: u64| #[trigger] (x + y).contains(q) implies !a.is_allocated(q) by {
        if y.contains(q) && a.is_allocated(q) {
            assert(b.is_allocated(q));
        }
    }
    assert forall|q: u64| #[trigger] c.is_allocated(q) == (a.is_allocated(q) || (x + y).contains(q)) by {
        assert(c.is_allocated(q) == (b.is_allocated(q) || y.contains(q)));
        assert(b.is_allocated(q) == (a.is_allocated(q) || x.contains(q)));
    }
}

/// Two runs of release make one.
pub proof fn lemma_gave_trans(
    a: FrameAllocState,
    b: FrameAllocState,
    x: Seq<u64>,
    c: FrameAllocState,
    y: Seq<u64>,
)
    requires
        a.gave(b, x),
        b.gave(c, y),
    ensures
        a.gave(c, x + y),
        a.gave(c, y + x),
{
    assert(c.recycled.subrange(0, a.recycled.len() as int) =~= c.recycled.subrange(0, b.recycled.len() as int).subrange(0, a.recycled.len() as int));
    assert forall|q: u64| #[trigger] b.recycled.contains(q) implies c.recycled.contains(q) by {
        let i = choose|i: int| 0 <= i < b.recycled.len() && b.recycled[i] == q;
        assert(c.recycled.subrange(0, b.recycled.len() as int)[i] == c.recycled[i]);
    }
    assert forall|q: u64| (y + x).contains(q) <==> (x.contains(q) || y.contains(q)) by {
        if (y + x).contains(q) {
            let i = choose|i: int| 0 <= i < (y + x).len() && (y + x)[i] == q;
            if i < y.len() {
                assert(y[i] == q);
            } else {
                assert(x[i - y.len()] == q);
            }
        }
        if y.contains(q) {
            let i = choose|i: int| 0 <= i < y.len() && y[i] == q;
            assert((y + x)[i] == q);
        }
        if x.contains(q) {
            let i = choose|i: int| 0 <= i < x.len() && x[i] == q;
            assert((y + x)[i + y.len()] == q);
        }
    }
    assert forall|q: u64| (x + y).contains(q) <==> (x.contains(q) || y.contains(q)) by {
        if (x + y).contains(q) {
            let i = choose|i: int| 0 <= i < (x + y).len() && (x + y)[i] == q;
            if i < x.len() {
                assert(x[i] == q);
            } else {
                assert(y[i - x.len()] == q);
            }
        }
        if x.contains(q) {
            let i = choose|i: int| 0 <= i < x.len() && x[i] == q;
            assert((x + y)[i] == q);
        }
        if y.contains(q) {
            let i = choose|i: int| 0 <= i < y.len() && y[i] == q;
            assert((x + y)[i + x.len()] == q);
        }
    }
    assert forall|q: u64| #[trigger] (x + y).contains(q) implies c.recycled.contains(q) by {
        if x.contains(q) {
            assert(b.recycled.contains(q));
        }
    }
    assert forall|q: u64| #[trigger] (y + x).contains(q) implies c.recycled.contains(q) by {
        if x.contains(q) {
            assert(b.recycled.contains(q));
        }
    }
}

/// One step of allocation takes exactly the frame it returns out of the free set.
pub proof fn lemma_alloc_step(s: FrameAllocState)
    requires
        s.wf(),
    ensures
        s.alloc_next().0.wf(),
        s.free_count() > 0 <==> s.alloc_next().1 is Some,
        s.free_count() == 0 ==> s.alloc_next().0 == s,
        s.free_count() > 0 ==> {
            let (s1, r) = s.alloc_next();
            &&& s.free_set().contains(r->0)
            &&& s1.free_set() == s.free_set().remove(r->0)
            &&& s1.free_count() + 1 == s.free_count()
            &&& s1.is_allocated(r->0)
            &&& forall|q: u64| q != r->0 ==> (s1.is_allocated(q) == s.is_allocated(q))
        },
{
    let (s1, r) = s.alloc_next();
    if s.recycled.len() > 0 {
        let p = s.recycled.last();
        assert(s.recycled.contains(p)) by {
            assert(s.recycled[s.recycled.len() - 1] == p);
        }
        assert forall|q: u64| s.recycled.contains(q) <==> (s1.recycled.contains(q) || q == p) by {
            if s.recycled.contains(q) {
                let i = choose|i: int| 0 <= i < s.recycled.len() && s.recycled[i] == q;
                if i < s.recycled.len() - 1 {
                    assert(s1.recycled[i] == q);
                }
            }
            if s1.recycled.contains(q) {
                let i = choose|i: int| 0 <= i < s1.recycled.len() && s1.recycled[i] == q;
                assert(s.recycled[i] == q);
            }
        }
        assert(!s1.recycled.contains(p)) by {
            if s1.recycled.contains(p) {
                let i = choose|i: int| 0 <= i < s1.recycled.len() && s1.recycled[i] == p;
                assert(s.recycled[i] == s.recycled[s.recycled.len() - 1]);
            }
        }
        assert(s1.free_set() =~= s.free_set().remove(p));
    } else if s.current < s.end {
        assert(s1.free_set() =~= s.free_set().remove(s.current));
    }
}

/// Allocating `n` frames from a pool with at least `n` free hands out `n` pairwise
/// distinct frames, all of them free before and none of them free after.
pub proof fn lemma_alloc_many_distinct(s: FrameAllocState, n: nat)
    requires
        s.wf(),
        n <= s.free_count(),
    ensures
        s.alloc_many(n).0.wf(),
        s.alloc_many(n).1.len() == n,
        s.alloc_many(n).1.no_duplicates(),
        s.alloc_many(n).0.free_count() + n == s.free_count(),
        forall|i: int| 0 <= i < n ==> #[trigger] s.free_set().contains(s.alloc_many(n).1[i]),
        forall|i: int|
            0 <= i < n ==> !#[trigger] s.alloc_many(n).0.free_set().contains(s.alloc_many(n).1[i]),
        forall|i: int| 0 <= i < n ==> #[trigger] s.alloc_many(n).0.is_allocated(s.alloc_many(n).1[i]),
        s.alloc_many(n).0.free_set() =~= s.free_set().difference(s.alloc_many(n).1.to_set()),
    decreases n,
{
    if n > 0 {
        lemma_alloc_step(s);
        let (s1, first) = s.alloc_next();
        let p = first->0;
        lemma_alloc_many_distinct(s1, (n - 1) as nat);
        let (s2, rest) = s1.alloc_many((n - 1) as nat);
        let all = seq![p] + rest;
        assert(s.alloc_many(n).1 == all);
        assert forall|i: int| 0 <= i < n implies s.free_set().contains(#[trigger] all[i]) && !s2.free_set().contains(all[i]) && s2.is_allocated(all[i]) by {
            if i > 0 {
                assert(all[i] == rest[i - 1]);
            } else {
                assert(!s1.free_set().contains(p));
                assert(s2.free_set().subset_of(s1.free_set()));
                assert(!rest.contains(p)) by {
                    if rest.contains(p) {
                        let j = choose|j: int| 0 <= j < rest.len() && rest[j] == p;
                        assert(s1.free_set().contains(rest[j]));
                    }
                }
                assert(rest.to_set().contains(p) == rest.contains(p));
                assert(!s2.free_set().contains(p));
                assert(s2.is_allocated(p)) by {
                    // allocation marks stay through later allocations of other frames
                    lemma_alloc_keeps_allocated(s1, (n - 1) as nat, p);
                }
            }
        }
        assert(all.no_duplicates()) by {
            assert forall|i: int, j: int| 0 <= i < j < all.len() implies all[i] != all[j] by {
                if i == 0 {
                    assert(all[j] == rest[j - 1]);
                    assert(s1.free_set().contains(rest[j - 1]));
                }
            }
        }
        assert forall|q: u64| all.to_set().contains(q) <==> (q == p || rest.to_set().contains(q)) by {
            if all.to_set().contains(q) {
                assert(all.contains(q));
                let j = choose|j: int| 0 <= j < all.len() && all[j] == q;
                if j > 0 {
                    assert(rest[j - 1] == q);
                    assert(rest.contains(q));
                }
            }
            if q == p {
                assert(all[0] == p);
                assert(all.contains(q));
            }
            if rest.to_set().contains(q) {
                assert(rest.contains(q));
                let j = choose|j: int| 0 <= j < rest.len() && rest[j] == q;
                assert(all[j + 1] == q);
                assert(all.contains(q));
            }
        }
        assert(s2.free_set() =~= s.free_set().difference(all.to_set()));
    } else {
        assert(s.alloc_many(n).1.to_set() =~= Set::empty());
        assert(s.free_set().difference(Set::empty()) =~= s.free_set());
    }
}

/// A frame allocated before stays allocated through further allocations.
pub proof fn lemma_alloc_keeps_allocated(s: FrameAllocState, n: nat, p: u64)
    requires
        s.wf(),
        s.is_allocated(p),
    ensures
        s.alloc_many(n).0.is_allocated(p),
        s.alloc_many(n).0.wf(),
    decreases n,
{
    if n > 0 {
        lemma_alloc_step(s);
        lemma_alloc_keeps_allocated(s.alloc_next().0, (n - 1) as nat, p);
    }
}

/// Once every free frame has been handed out, one more allocation fails and leaves
/// the pool, and so every frame already handed out, as it was.
pub proof fn lemma_exhaustion(s: FrameAllocState)
    requires
        s.wf(),
    ensures
        ({
            let (s1, issued) = s.alloc_many(s.free_count());
            &&& issued.len() == s.free_count()
            &&& issued.no_duplicates()
            &&& s1.alloc_next() == (s1, None::<u64>)
            &&& forall|i: int| 0 <= i < issued.len() ==> #[trigger] s1.is_allocated(issued[i])
        }),
{
    lemma_alloc_many_distinct(s, s.free_count());
    lemma_alloc_step(s.alloc_many(s.free_count()).0);
}

/// Giving back an allocated frame and then allocating returns that same frame and
/// restores the pool.
pub proof fn lemma_free_then_alloc(s: FrameAllocState, p: u64)
    requires
        s.wf(),
        s.is_allocated(p),
    ensures
        s.dealloc_next(p).wf(),
        s.dealloc_next(p).alloc_next() == (s, Some(p)),
{
    let s1 = s.dealloc_next(p);
    assert(s1.recycled.drop_last() =~= s.recycled);
    assert forall|i: int, j: int| 0 <= i < j < s1.recycled.len() implies s1.recycled[i] != s1.recycled[j] by {
        if j == s1.recycled.len() - 1 {
            assert(s.recycled.contains(s1.recycled[i]));
        }
    }
}

/// A handle granting exclusive use of one physical frame.
pub struct FrameTracker {
    ppn: PhysPageNum,
}

impl View for FrameTracker {
    type V = u64;

    closed spec fn view(&self) -> u64 {
        self.ppn.0
    }
}

impl FrameTracker {
    /// The page number of the frame.
    pub fn ppn(&self) -> (r: PhysPageNum)
        ensures
            r.0 == self@,
    {
        self.ppn
    }
}

/// A pool of physical frames: a cursor over frames never used yet, and a stack of
/// frames given back.
pub struct FrameAllocator {
    start: u64,
    current: u64,
    end: u64,
    recycled: Vec<u64>,
}

impl View for FrameAllocator {
    type V = FrameAllocState;

    closed spec fn view(&self) -> FrameAllocState {
        FrameAllocState { start: self.start, current: self.current, end: self.end, recycled: self.recycled@ }
    }
}

impl FrameAllocator {
    /// A pool of the frames `start` (inclusive) to `end` (exclusive).
    pub fn new(start: PhysPageNum, end: PhysPageNum) -> (r: FrameAllocator)
        requires
            start.0 <= end.0,
            end.0 <= PPN_LIMIT,
        ensures
            r@.wf(),
            r@.start == start.0,
            r@.current == start.0,
            r@.end == end.0,
            r@.recycled.len() == 0,
            r@.free_count() == end.0 - start.0,
    {
        FrameAllocator { start: start.0, current: start.0, end: end.0, recycled: Vec::new() }
    }

    /// Number of frames the pool can still hand out.
    pub fn free_count(&self) -> (r: u64)
        requires
            self@.wf(),
        ensures
            r == self@.free_count(),
    {
        proof {
            lemma_recycled_bound(self@);
        }
        self.recycled.len() as u64 + (self.end - self.current)
    }

    /// Hands out the most recently returned frame, else the next untouched one;
    /// `None` once the pool is empty.
    pub fn alloc_frame(&mut self) -> (r: Option<FrameTracker>)
        requires
            old(self)@.wf(),
        ensures
            final(self)@ == old(self)@.alloc_next().0,
            r matches Some(f) ==> old(self)@.alloc_next().1 == Some(f@),
            r is None ==> old(self)@.alloc_next().1 is None,
            final(self)@.wf(),
            r matches Some(f) ==> old(self)@.took(final(self)@, seq![f@]),
            r matches Some(f) ==> old(self)@.start <= f@ < old(self)@.end,
            r is None ==> final(self)@ == old(self)@ && old(self)@.free_count() == 0,
    {
        proof {
            lemma_alloc_step(self@);
            let p = self@.alloc_next().1;
            if p is Some {
                assert forall|q: u64| seq![p->0].contains(q) <==> q == p->0 by {
                    if q == p->0 {
                        assert(seq![p->0][0] == q);
                    }
                }
            }
        }
        if let Some(p) = self.recycled.pop() {
            Some(FrameTracker { ppn: PhysPageNum(p) })
        } else if self.current < self.end {
            let p = self.current;
            self.current = self.current + 1;
            Some(FrameTracker { ppn: PhysPageNum(p) })
        } else {
            None
        }
    }

    /// Takes a frame back; it will be the next one handed out.
    pub fn dealloc_frame(&mut self, frame: FrameTracker)
        requires
            old(self)@.wf(),
            old(self)@.is_allocated(frame@),
        ensures
            final(self)@ == old(self)@.dealloc_next(frame@),
            final(self)@.wf(),
            !final(self)@.is_allocated(frame@),
            forall|q: u64| q != frame@ ==> final(self)@.is_allocated(q) == old(self)@.is_allocated(q),
            final(self)@.free_count() == old(self)@.free_count() + 1,
            old(self)@.gave(final(self)@, seq![frame@]),
    {
        proof {
            lemma_free_then_alloc(self@, frame@);
            assert(self@.dealloc_next(frame@).recycled.last() == frame@);
            assert forall|q: u64| q != frame@ implies self@.dealloc_next(frame@).recycled.contains(q) == self@.recycled.contains(q) by {
                let r1 = self@.dealloc_next(frame@).recycled;
                if r1.contains(q) {
                    let i = choose|i: int| 0 <= i < r1.len() && r1[i] == q;
                    assert(self@.recycled[i] == q);
                }
                if self@.recycled.contains(q) {
                    let i = choose|i: int| 0 <= i < self@.recycled.len() && self@.recycled[i] == q;
                    assert(r1[i] == q);
                }
            }
            assert forall|q: u64| seq![frame@].contains(q) <==> q == frame@ by {
                if q == frame@ {
                    assert(seq![frame@][0] == q);
                }
            }
            assert(self@.dealloc_next(frame@).recycled.contains(frame@)) by {
                let r1 = self@.dealloc_next(frame@).recycled;
                assert(r1[r1.len() - 1] == frame@);
            }
        }
        self.recycled.push(frame.ppn.0);
    }
}

/// The recycled stack holds distinct frames below the cursor, so it is no longer
/// than the cursor.
proof fn lemma_recycled_bound(s: FrameAllocState)
    requires
        s.wf(),
    ensures
        s.recycled.len() <= s.current,
{
    let ints = s.recycled.map_values(|p: u64| p as int);
    assert(ints.no_duplicates()) by {
        assert forall|i: int, j: int| 0 <= i < j < ints.len() implies ints[i] != ints[j] by {
            assert(s.recycled[i] != s.recycled[j]);
        }
    }
    ints.unique_seq_to_set();
    let range = vstd::set_lib::set_int_range(0, s.current as int);
    vstd::set_lib::lemma_int_range(0, s.current as int);
    assert(ints.to_set().subset_of(range)) by {
        assert forall|x: int| ints.to_set().contains(x) implies range.contains(x) by {
            assert(ints.contains(x));
            let i = choose|i: int| 0 <= i < ints.len() && ints[i] == x;
            assert(s.recycled[i] < s.current);
        }
    }
    vstd::set_lib::lemma_len_subset(ints.to_set(), range);
}

/// A frame handed out by a pool lies below the pool's end.
pub proof fn lemma_alloc_in_range(s: FrameAllocState)
    requires
        s.wf(),
    ensures
        s.alloc_next().1 matches Some(p) ==> p < s.end,
{
    if s.recycled.len() > 0 {
        assert(s.recycled[s.recycled.len() - 1] < s.current);
    }
}

} // verus!
