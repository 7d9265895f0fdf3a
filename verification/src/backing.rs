//! Which physical frames each region is made of.
//!
//! A region's backing has to outlive every mapping of it, so the nucleus
//! keeps its own record, in the shape the machine already has a walker for:
//! a page-table tree, indexed by the same lane the region is mapped at in
//! every address space. It is not an address space: nothing loads it and
//! nothing maps it, and its leaves carry no permission that means anything.
use vstd::prelude::*;
use crate::memory::Tables;
use crate::paging::{
    empty_page_refusal, l4_of, page_leaf, target, translation, aligned_frame, AddressSpace, PagingRefused, TableSource,
    VIRTUAL_LIMIT,
};
use crate::process::{mapped_frames, page_at, pages_in, release_mapped};

verus! {

/// Leaf flags: present is all that is read.
pub const PRESENT_METADATA: u64 = 0x8000_0000_0000_0002;
/// A page of a region.
pub const FRAME_SIZE: u64 = 4096;

/// Why the index could not do what was asked.
#[derive(Clone, Copy, Debug, PartialEq, Eq, Structural)]
pub enum Malformed {
    /// A leaf is already there: the lifecycle above lost track of a frame.
    Occupied,
    /// The reserve is empty.
    NoTable,
    /// The lane does not describe the region it is supposed to.
    WrongShape,
}

/// The nucleus's record of every region's frames.
pub struct RegionBackingSpace {
    tree: AddressSpace,
}

impl RegionBackingSpace {
    /// The tree the record is kept in.
    pub closed spec fn index(&self) -> AddressSpace {
        self.tree
    }

    pub open spec fn wf(&self) -> bool {
        self.index().wf()
    }

    /// The frame the record names for one page of a lane.
    pub open spec fn recorded(&self, lane: u64, page: u64) -> Option<u64> {
        translation(self.index().mem(), self.index().root_table(), (lane + page * FRAME_SIZE) as u64)
    }

    /// Takes the one permanent frame this index is rooted at.
    pub fn create(tables: &mut Tables) -> (r: Option<RegionBackingSpace>)
        requires
            old(tables).wf(),
        ensures
            final(tables).wf(),
            r is Some <==> !old(tables).frames().is_empty(),
            r matches Some(b) ==> b.wf() && final(tables).frames() == old(tables).frames().remove(b.index().root_table())
                && old(tables).frames().contains(b.index().root_table())
                && b.index().tables() == set![b.index().root_table()]
                && forall|v: u64| b.index().leaf(v) is None,
            r is None ==> final(tables).frames() == old(tables).frames(),
    {
        match AddressSpace::new(tables) {
            Ok(tree) => Some(RegionBackingSpace { tree }),
            Err(_) => None,
        }
    }

    /// Records that `page` of this lane is made of `frame`. An occupied leaf
    /// is refused rather than replaced: overwriting it would strand memory
    /// the pool believes is out.
    pub fn construct(&mut self, tables: &mut Tables, lane: u64, page: u64, frame: u64) -> (r: Result<(), Malformed>)
        requires
            old(self).wf(),
            old(tables).wf(),
            old(tables).frames().disjoint(old(self).index().tables()),
            lane + page * FRAME_SIZE <= u64::MAX,
        ensures
            final(self).wf(),
            final(tables).wf(),
            final(tables).frames().disjoint(final(self).index().tables()),
            final(self).index().tables() == old(self).index().tables() + (old(tables).frames() - final(tables).frames()),
            ({
                let virt = (lane + page * FRAME_SIZE) as u64;
                match empty_page_refusal(old(self).index().mem(), old(self).index().root_table(), virt, old(tables).frames().len()) {
                    None => r is Ok && final(self).index().leaf(virt) == Some(page_leaf(frame, PRESENT_METADATA)),
                    Some(PagingRefused::NoFrame) => r == Err::<(), Malformed>(Malformed::NoTable) && final(self).index().leaf(virt) == old(self).index().leaf(virt),
                    Some(_) => r == Err::<(), Malformed>(Malformed::Occupied) && final(self).index().leaf(virt) == old(self).index().leaf(virt),
                }
            }),
            forall|w: u64| w >> 12u64 != ((lane + page * FRAME_SIZE) as u64) >> 12u64 ==> #[trigger] final(self).index().leaf(w) == old(self).index().leaf(w),
    {
        match self.tree.map_empty_page(tables, lane + page * FRAME_SIZE, frame, PRESENT_METADATA) {
            Ok(()) => Ok(()),
            Err(PagingRefused::NoFrame) => Err(Malformed::NoTable),
            Err(_) => Err(Malformed::Occupied),
        }
    }

    /// Which frame backs one page of a region, if the index knows.
    pub fn frame_at(&self, lane: u64, page: u64) -> (r: Option<u64>)
        requires
            self.wf(),
            lane + page * FRAME_SIZE <= u64::MAX,
        ensures
            r == self.recorded(lane, page),
    {
        self.tree.translate(lane + page * FRAME_SIZE)
    }

    /// Whether this lane describes exactly `pages` pages and nothing else.
    pub fn describes(&self, lane: u64, pages: u64) -> (b: bool)
        requires
            self.wf(),
            lane + pages * FRAME_SIZE <= u64::MAX,
        ensures
            b == ((forall|p: u64| p < pages ==> #[trigger] self.recorded(lane, p) is Some) && self.recorded(lane, pages) is None),
    {
        let mut page: u64 = 0;
        while page < pages
            invariant
                self.wf(),
                page <= pages,
                lane + pages * FRAME_SIZE <= u64::MAX,
                forall|p: u64| p < page ==> #[trigger] self.recorded(lane, p) is Some,
            decreases pages - page,
        {
            proof {
                assert(lane + page * FRAME_SIZE <= lane + pages * FRAME_SIZE) by (nonlinear_arith)
                    requires page <= pages;
            }
            if self.frame_at(lane, page).is_none() {
                return false;
            }
            page = page + 1;
        }
        self.frame_at(lane, pages).is_none()
    }

    /// Gives a lane's frames back to the pool and its tables back to the
    /// reserve, after asking whether the lane describes exactly `pages`
    /// pages: a drain that found out halfway that the record was malformed
    /// would already have returned frames it could no longer account for, so
    /// a malformed lane is refused and nothing moves. Each leaf is cleared
    /// before its frame is released. The frames must be pages the pool does
    /// not hold, no table of the record, each recorded once.
    pub fn drain<S: TableSource>(&mut self, tables: &mut Tables, frames: &mut S, lane: u64, pages: u64) -> (r: Result<(), Malformed>)
        requires
            old(self).wf(),
            old(tables).wf(),
            old(frames).valid(),
            old(tables).frames().disjoint(old(self).index().tables()),
            old(frames).pool().disjoint(old(self).index().tables()),
            lane + pages * FRAME_SIZE + 4096 <= u64::MAX,
            forall|k: int|
                0 <= k < pages && #[trigger] old(self).index().leaf(page_at(lane, k)) is Some ==> {
                    let f = target(old(self).index().leaf(page_at(lane, k)).unwrap());
                    &&& aligned_frame(f)
                    &&& f != 0
                    &&& !old(frames).pool().contains(f)
                    &&& !old(self).index().tables().contains(f)
                },
            forall|j: int, k: int|
                0 <= j < k < pages && #[trigger] old(self).index().leaf(page_at(lane, j)) is Some
                    && #[trigger] old(self).index().leaf(page_at(lane, k)) is Some ==> target(
                    old(self).index().leaf(page_at(lane, j)).unwrap(),
                ) != target(old(self).index().leaf(page_at(lane, k)).unwrap()),
        ensures
            final(self).wf(),
            final(tables).wf(),
            final(frames).valid(),
            final(tables).frames().disjoint(final(self).index().tables()),
            ({
                let described = (forall|p: u64| p < pages ==> #[trigger] old(self).recorded(lane, p) is Some) && old(
                    self,
                ).recorded(lane, pages) is None;
                &&& !described ==> r == Err::<(), Malformed>(Malformed::WrongShape) && *final(self) == *old(self)
                    && final(tables).frames() == old(tables).frames() && final(frames).pool() == old(frames).pool()
                &&& described ==> r is Ok && final(frames).pool() == old(frames).pool() + mapped_frames(
                    old(self).index(),
                    lane,
                    pages as int,
                ) && final(self).index().tables().subset_of(old(self).index().tables()) && final(tables).frames()
                    == old(tables).frames() + (old(self).index().tables() - final(self).index().tables()) && (lane
                    < VIRTUAL_LIMIT ==> forall|w: u64|
                    w < VIRTUAL_LIMIT && l4_of(w) == l4_of(lane) ==> #[trigger] final(self).index().leaf(w) is None)
            }),
    {
        if !self.describes(lane, pages) {
            return Err(Malformed::WrongShape);
        }
        proof {
            assert((pages * 4096 + 4095) / 4096 == pages) by (nonlinear_arith)
                requires pages >= 0;
        }
        release_mapped(&mut self.tree, frames, lane, pages * FRAME_SIZE);
        let _ = self.tree.release_branch(tables, lane);
        Ok(())
    }

    /// Undoes a construction that failed part-way. Construction fills a lane
    /// from page zero upwards, so what was built is exactly the first
    /// `built` pages: the count is the record. Unlike `drain` this takes a
    /// lane whose branch was never created, for a failure before the first
    /// leaf built nothing. The frames must be as `drain` asks.
    pub fn discard<S: TableSource>(&mut self, tables: &mut Tables, frames: &mut S, lane: u64, built: u64)
        requires
            old(self).wf(),
            old(tables).wf(),
            old(frames).valid(),
            old(tables).frames().disjoint(old(self).index().tables()),
            old(frames).pool().disjoint(old(self).index().tables()),
            lane + built * FRAME_SIZE + 4096 <= u64::MAX,
            forall|k: int|
                0 <= k < built && #[trigger] old(self).index().leaf(page_at(lane, k)) is Some ==> {
                    let f = target(old(self).index().leaf(page_at(lane, k)).unwrap());
                    &&& aligned_frame(f)
                    &&& f != 0
                    &&& !old(frames).pool().contains(f)
                    &&& !old(self).index().tables().contains(f)
                },
            forall|j: int, k: int|
                0 <= j < k < built && #[trigger] old(self).index().leaf(page_at(lane, j)) is Some
                    && #[trigger] old(self).index().leaf(page_at(lane, k)) is Some ==> target(
                    old(self).index().leaf(page_at(lane, j)).unwrap(),
                ) != target(old(self).index().leaf(page_at(lane, k)).unwrap()),
        ensures
            final(self).wf(),
            final(tables).wf(),
            final(frames).valid(),
            final(tables).frames().disjoint(final(self).index().tables()),
            final(frames).pool() == old(frames).pool() + mapped_frames(old(self).index(), lane, built as int),
            final(self).index().tables().subset_of(old(self).index().tables()),
            final(tables).frames() == old(tables).frames() + (old(self).index().tables() - final(self).index().tables()),
            lane < VIRTUAL_LIMIT ==> forall|w: u64|
                w < VIRTUAL_LIMIT && l4_of(w) == l4_of(lane) ==> #[trigger] final(self).index().leaf(w) is None,
    {
        proof {
            assert((built * 4096 + 4095) / 4096 == built) by (nonlinear_arith)
                requires built >= 0;
        }
        release_mapped(&mut self.tree, frames, lane, built * FRAME_SIZE);
        let _ = self.tree.release_branch(tables, lane);
    }
}

} // verus!
