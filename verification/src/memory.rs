//! The frames page tables are built out of, and nothing else.
//!
//! The reserve is taken out of the pool before the root memory authority is
//! endowed, so a page table can never be built out of memory the authority
//! tree has already promised to somebody. It is a free list of ordinary
//! frames: a page table has no use for its neighbours.
use vstd::prelude::*;
use crate::dma::Span;
use crate::paging::{aligned_frame, sized, sized_spec, TableSource};
use crate::region::{authority_slot_free, endowed, AuthorityId, Regions};

verus! {

/// The page-table reserve: a free list of frames, last in first out.
pub struct Tables {
    free: Vec<u64>,
}

impl Tables {
    /// The frames the reserve holds.
    pub closed spec fn frames(&self) -> Set<u64> {
        self.free@.to_set()
    }

    /// No frame is held twice, and every held frame is a nonzero page.
    pub closed spec fn wf(&self) -> bool {
        &&& self.free@.no_duplicates()
        &&& forall|i: int| 0 <= i < self.free.len() ==> aligned_frame(#[trigger] self.free@[i])
        &&& forall|i: int| 0 <= i < self.free.len() ==> #[trigger] self.free@[i] != 0
    }

    proof fn lemma_frames(&self)
        requires
            self.wf(),
        ensures
            self.frames().finite(),
            self.frames().len() == self.free.len(),
            forall|f: u64| #[trigger] self.frames().contains(f) ==> aligned_frame(f) && f != 0,
    {
        vstd::seq_lib::seq_to_set_is_finite(self.free@);
        self.free@.unique_seq_to_set();
        assert forall|f: u64| #[trigger] self.frames().contains(f) implies aligned_frame(f) && f
            != 0 by {
            let i = choose|i: int| 0 <= i < self.free.len() && self.free@[i] == f;
            assert(aligned_frame(self.free@[i]));
        }
    }

    /// A reserve holding nothing, before the map has been read.
    pub fn empty() -> (t: Tables)
        ensures
            t.wf(),
            t.frames() == Set::<u64>::empty(),
    {
        let t = Tables { free: Vec::new() };
        assert(t.frames() =~= Set::<u64>::empty());
        t
    }

    /// One frame, or nothing when the reserve is spent.
    pub fn allocate_frame(&mut self) -> (frame: Option<u64>)
        requires
            old(self).wf(),
        ensures
            final(self).wf(),
            match frame {
                Some(f) => old(self).frames().contains(f) && final(self).frames() == old(
                    self,
                ).frames().remove(f),
                None => old(self).frames().is_empty() && final(self).frames() == old(self).frames(),
            },
    {
        match self.free.pop() {
            Some(f) => {
                proof {
                    let s = old(self).free@;
                    assert(s =~= self.free@.push(f));
                    assert(s[s.len() - 1] == f);
                    assert(self.frames() =~= old(self).frames().remove(f)) by {
                        assert forall|x: u64| #[trigger] self.frames().contains(x) implies old(
                            self,
                        ).frames().remove(f).contains(x) by {
                            let i = choose|i: int| 0 <= i < self.free.len() && self.free@[i] == x;
                            assert(s[i] == x);
                            assert(i != s.len() - 1);
                        }
                        assert forall|x: u64| #[trigger] old(self).frames().remove(f).contains(
                            x,
                        ) implies self.frames().contains(x) by {
                            let i = choose|i: int| 0 <= i < s.len() && s[i] == x;
                            assert(i != s.len() - 1);
                            assert(self.free@[i] == x);
                        }
                    }
                }
                Some(f)
            },
            None => {
                proof {
                    assert(old(self).frames() =~= Set::<u64>::empty());
                }
                None
            },
        }
    }

    /// Takes one frame back. The frame must be a page that this reserve does
    /// not already hold.
    pub fn release_frame(&mut self, frame: u64)
        requires
            old(self).wf(),
            aligned_frame(frame),
            frame != 0,
            !old(self).frames().contains(frame),
        ensures
            final(self).wf(),
            final(self).frames() == old(self).frames().insert(frame),
    {
        self.free.push(frame);
        proof {
            let s = old(self).free@;
            assert(self.free@ == s.push(frame));
            assert forall|i: int, j: int|
                0 <= i < self.free.len() && 0 <= j < self.free.len() && i != j implies self.free@[i]
                != self.free@[j] by {
                if i == s.len() {
                    assert(s.contains(s[j]));
                } else if j == s.len() {
                    assert(s.contains(s[i]));
                }
            }
            assert(self.frames() =~= old(self).frames().insert(frame)) by {
                assert forall|x: u64| #[trigger] self.frames().contains(x) implies old(
                    self,
                ).frames().insert(frame).contains(x) by {
                    let i = choose|i: int| 0 <= i < self.free.len() && self.free@[i] == x;
                    if i < s.len() {
                        assert(s[i] == x);
                    }
                }
                assert forall|x: u64| #[trigger] old(self).frames().insert(frame).contains(
                    x,
                ) implies self.frames().contains(x) by {
                    if x == frame {
                        assert(self.free@[s.len() as int] == x);
                    } else {
                        let i = choose|i: int| 0 <= i < s.len() && s[i] == x;
                        assert(self.free@[i] == x);
                    }
                }
            }
        }
    }

    /// How many frames of the reserve are still there.
    pub fn remaining(&self) -> (n: u64)
        requires
            self.wf(),
        ensures
            n == self.frames().len(),
    {
        proof {
            self.lemma_frames();
        }
        self.free.len() as u64
    }
}

impl TableSource for Tables {
    open spec fn pool(&self) -> Set<u64> {
        self.frames()
    }

    open spec fn valid(&self) -> bool {
        self.wf()
    }

    proof fn lemma_valid(&self) {
        self.lemma_frames();
    }

    fn take(&mut self) -> (frame: Option<u64>) {
        self.allocate_frame()
    }

    fn give_back(&mut self, frame: u64) {
        self.release_frame(frame)
    }
}

/// Takes `bound` frames out of the pool into the page-table reserve, before
/// anything else spends. All or nothing: when the pool runs out part-way,
/// every frame the reserve holds goes back and the answer is `None`, for a
/// partial reserve would fail later, on a process creation, with nothing to
/// point at. Otherwise the answer is how many frames the reserve now holds.
pub fn reserve_tables<P: TableSource>(pool: &mut P, reserve: &mut Tables, bound: u64) -> (r: Option<u64>)
    requires
        old(pool).valid(),
        old(reserve).wf(),
        old(pool).pool().disjoint(old(reserve).frames()),
    ensures
        final(pool).valid(),
        final(reserve).wf(),
        final(pool).pool().disjoint(final(reserve).frames()),
        final(pool).pool() + final(reserve).frames() == old(pool).pool() + old(reserve).frames(),
        r is Some <==> bound <= old(pool).pool().len(),
        r matches Some(n) ==> {
            &&& n == old(reserve).frames().len() + bound
            &&& final(reserve).frames().len() == n
            &&& old(reserve).frames().subset_of(final(reserve).frames())
        },
        r is None ==> final(reserve).frames().is_empty() && final(pool).pool() == old(pool).pool()
            + old(reserve).frames(),
{
    proof {
        old(pool).lemma_valid();
        old(reserve).lemma_frames();
    }
    let ghost whole = old(pool).pool() + old(reserve).frames();
    let ghost pool_len = old(pool).pool().len();
    let ghost reserve_len = old(reserve).frames().len();
    let mut i: u64 = 0;
    while i < bound
        invariant
            pool.valid(),
            reserve.wf(),
            pool.pool().finite(),
            pool.pool().disjoint(reserve.frames()),
            pool.pool() + reserve.frames() == whole,
            old(reserve).frames().subset_of(reserve.frames()),
            i <= bound,
            pool.pool().len() == pool_len - i,
            reserve.frames().len() == reserve_len + i,
            whole == old(pool).pool() + old(reserve).frames(),
            pool_len == old(pool).pool().len(),
            reserve_len == old(reserve).frames().len(),
        decreases bound - i,
    {
        proof {
            pool.lemma_valid();
        }
        let ghost before = pool.pool();
        match pool.take() {
            Some(frame) => {
                proof {
                    assert(before.contains(frame));
                    assert(!reserve.frames().contains(frame));
                    assert(pool.pool() + reserve.frames().insert(frame) =~= whole);
                }
                reserve.release_frame(frame);
                i = i + 1;
            },
            None => {
                proof {
                    assert(pool.pool().len() == 0);
                    assert(pool_len < bound);
                }
                while reserve.remaining() > 0
                    invariant
                        pool.valid(),
                        reserve.wf(),
                        pool.pool().disjoint(reserve.frames()),
                        pool.pool() + reserve.frames() == whole,
                    decreases reserve.frames().len(),
                {
                    proof {
                        reserve.lemma_frames();
                    }
                    let ghost before = reserve.frames();
                    match reserve.allocate_frame() {
                        Some(taken) => {
                            proof {
                                reserve.lemma_frames();
                                assert(before.contains(taken));
                                assert(!pool.pool().contains(taken));
                            }
                            pool.give_back(taken);
                            proof {
                                assert(pool.pool() + reserve.frames() =~= whole);
                            }
                        },
                        None => {
                            proof {
                                assert(before.len() == 0);
                            }
                        },
                    }
                }
                proof {
                    reserve.lemma_frames();
                    assert(reserve.frames() =~= Set::<u64>::empty());
                    assert(pool.pool() =~= whole);
                }
                return None;
            },
        }
    }
    Some(reserve.remaining())
}

/// Every span the pool must not admit, in order and without the empty ones:
/// the nucleus image with its `.bss`, the capsule, the handoff record, the
/// memory map, the framebuffer and the running stack. A span that is empty or
/// would wrap names nothing and is left out.
pub open spec fn occupied_spec(
    image: Span,
    capsule: (u64, u64),
    record: (u64, u64),
    map: (u64, u64),
    framebuffer: (u64, u32, u32),
    stack: Option<Span>,
) -> Seq<Span> {
    let candidates = seq![
        Some(image),
        sized_spec(capsule.0, capsule.1),
        sized_spec(record.0, record.1),
        sized_spec(map.0, map.1),
        sized_spec(framebuffer.0, (framebuffer.1 as int * framebuffer.2 as int) as u64),
        stack,
    ];
    kept_spans(candidates, 0)
}

/// The spans among `candidates[from..]` that are present and not empty.
pub open spec fn kept_spans(candidates: Seq<Option<Span>>, from: int) -> Seq<Span>
    decreases candidates.len() - from,
{
    if from < 0 || from >= candidates.len() {
        Seq::empty()
    } else {
        let rest = kept_spans(candidates, from + 1);
        match candidates[from] {
            Some(s) => if s.start < s.end { seq![s].add(rest) } else { rest },
            None => rest,
        }
    }
}

/// Every span the pool must not admit.
pub fn occupied(
    image: Span,
    capsule: (u64, u64),
    record: (u64, u64),
    map: (u64, u64),
    framebuffer: (u64, u32, u32),
    stack: Option<Span>,
) -> (spans: Vec<Span>)
    ensures
        spans@ == occupied_spec(image, capsule, record, map, framebuffer, stack),
{
    proof {
        assert((framebuffer.1 as int) * (framebuffer.2 as int) <= u64::MAX) by (nonlinear_arith)
            requires
                framebuffer.1 <= u32::MAX,
                framebuffer.2 <= u32::MAX,
        ;
    }
    let fb_length = (framebuffer.1 as u64) * (framebuffer.2 as u64);
    let candidates: Vec<Option<Span>> = vec![
        Some(image),
        sized(capsule.0, capsule.1),
        sized(record.0, record.1),
        sized(map.0, map.1),
        sized(framebuffer.0, fb_length),
        stack,
    ];
    let ghost want = seq![
        Some(image),
        sized_spec(capsule.0, capsule.1),
        sized_spec(record.0, record.1),
        sized_spec(map.0, map.1),
        sized_spec(framebuffer.0, (framebuffer.1 as int * framebuffer.2 as int) as u64),
        stack,
    ];
    assert(candidates@ =~= want);
    let mut spans: Vec<Span> = Vec::new();
    let mut i: usize = candidates.len();
    while i > 0
        invariant
            i <= candidates.len(),
            candidates@ == want,
            spans@ == kept_spans(want, i as int),
        decreases i,
    {
        i = i - 1;
        if let Some(s) = candidates[i] {
            if s.start < s.end {
                spans.insert(0, s);
            }
        }
    }
    spans
}

/// A memory-map entry of a kind the pool may take.
pub const MEM_USABLE: u32 = 1;

/// The spans a memory map describes, entry by entry, for the entries `keep`
/// admits: an entry that is empty or would wrap names nothing.
pub open spec fn mapped_spans(descs: Seq<(u32, u64, u64)>, usable_only: bool) -> Seq<Span>
    decreases descs.len(),
{
    if descs.len() == 0 {
        Seq::empty()
    } else {
        let rest = mapped_spans(descs.drop_last(), usable_only);
        let d = descs.last();
        if usable_only && d.0 != MEM_USABLE {
            rest
        } else {
            match sized_spec(d.1, d.2) {
                Some(s) => rest.push(s),
                None => rest,
            }
        }
    }
}

fn spans_of(descs: &[(u32, u64, u64)], usable_only: bool) -> (spans: Vec<Span>)
    ensures
        spans@ == mapped_spans(descs@, usable_only),
{
    let mut spans: Vec<Span> = Vec::new();
    let mut i: usize = 0;
    while i < descs.len()
        invariant
            i <= descs.len(),
            spans@ == mapped_spans(descs@.subrange(0, i as int), usable_only),
        decreases descs.len() - i,
    {
        let d = descs[i];
        proof {
            assert(descs@.subrange(0, i + 1).drop_last() =~= descs@.subrange(0, i as int));
        }
        if !usable_only || d.0 == MEM_USABLE {
            if let Some(s) = sized(d.1, d.2) {
                spans.push(s);
            }
        }
        i = i + 1;
    }
    assert(descs@.subrange(0, descs.len() as int) =~= descs@);
    spans
}

/// Free spans, as the pool wants them: the usable entries of the map, entry
/// by entry, each `(type, start, length)`.
pub fn free_spans(descs: &[(u32, u64, u64)]) -> (spans: Vec<Span>)
    ensures
        spans@ == mapped_spans(descs@, true),
{
    spans_of(descs, true)
}

/// Every span in the map, for locating the stack the nucleus is running on.
pub fn all_spans(descs: &[(u32, u64, u64)]) -> (spans: Vec<Span>)
    ensures
        spans@ == mapped_spans(descs@, false),
{
    spans_of(descs, false)
}

/// Who may be funded: the root authority once the boot has endowed it, and
/// nobody once the pool and the tree have been seen to disagree. A refund
/// that refuses on an internal path means the nucleus lost track of what it
/// funded, and funding out of a number known to be wrong is how an
/// accounting defect becomes two owners of one frame; so the latch stops
/// funding for good, and what already runs is left alone.
pub struct Funding {
    root: Option<AuthorityId>,
    diverged: bool,
}

impl Funding {
    /// The root the boot endowed, if it has.
    pub closed spec fn endowed_root(&self) -> Option<AuthorityId> {
        self.root
    }

    /// Whether the pool and the tree have been seen to disagree.
    pub closed spec fn has_diverged(&self) -> bool {
        self.diverged
    }

    /// Before the boot has endowed anything.
    pub fn new() -> (f: Funding)
        ensures
            f.endowed_root() is None,
            !f.has_diverged(),
    {
        Funding { root: None, diverged: false }
    }

    /// The root authority, for whoever needs to fund something out of it:
    /// nothing before the boot has endowed it, and nothing for good once the
    /// accounting has been seen to diverge.
    pub fn root(&self) -> (r: Option<AuthorityId>)
        ensures
            r == (if self.has_diverged() {
                None
            } else {
                self.endowed_root()
            }),
    {
        if self.diverged {
            None
        } else {
            self.root
        }
    }

    /// Whether the pool and the tree have been seen to disagree.
    pub fn accounting_diverged(&self) -> (b: bool)
        ensures
            b == self.has_diverged(),
    {
        self.diverged
    }

    /// Records that an internal accounting step failed, and stops funding.
    pub fn note_divergence(&mut self)
        ensures
            final(self).has_diverged(),
            final(self).endowed_root() == old(self).endowed_root(),
    {
        self.diverged = true;
    }

    /// Endows the root authority over what the pool has left, everything it
    /// still holds and no second subtraction: the page-table reserve has
    /// already left the pool. Answers the bytes endowed; nothing is endowed
    /// over an empty pool or when the tree has no room for a root.
    pub fn endow_root(&mut self, tree: &mut Regions, available_frames: u64) -> (r: Option<usize>)
        requires
            old(tree).wf(),
            available_frames * 4096 <= usize::MAX,
        ensures
            final(tree).wf(),
            final(tree).objects() == old(tree).objects(),
            final(tree).ledger() == old(tree).ledger(),
            final(tree).is_stopped() == old(tree).is_stopped(),
            final(self).has_diverged() == old(self).has_diverged(),
            ({
                let bytes = (available_frames * 4096) as usize;
                &&& r is None <==> (bytes == 0 || !authority_slot_free(old(tree).nodes()))
                &&& r is None ==> final(tree).nodes() == old(tree).nodes() && final(self).endowed_root() == old(self).endowed_root()
                &&& r matches Some(b) ==> b == bytes && final(self).endowed_root() is Some && endowed(
                    old(tree).nodes(),
                    final(tree).nodes(),
                    bytes,
                    Ok(final(self).endowed_root().unwrap()),
                )
            }),
    {
        let bytes = (available_frames as usize) * 4096;
        match tree.endow_root(bytes) {
            Ok(root) => {
                self.root = Some(root);
                Some(bytes)
            },
            Err(_) => None,
        }
    }
}

} // verus!
