//! DMA regions: memory a device may reach, and the proof that it no longer
//! can.
//!
//! A DMA region is a region in the one physical account, funded and
//! charged, and a bus-mastering descendant of a PCI function assignment.
//! Clearing Bus Master Enable blocks new requests and proves nothing about
//! requests already issued, so the frames of an ended region are
//! quarantined rather than returned, and released only once the assignment
//! is shown to be quiet. The charge moves with them: one receipt for one
//! debit at every instant.
use vstd::prelude::*;
use crate::pci::{Assignment, Assignments, Needs};
use crate::region::{AuthorityId, GrantCharge, Regions};

verus! {

/// How many DMA regions may exist at once, across all processes.
pub const MAX_REGIONS: usize = 8;
/// How many quarantined runs may wait for their assignment to go quiet.
pub const MAX_QUARANTINED: usize = 8;
/// How many DMA regions one process may hold: one lane each.
pub const MAX_DMA_REGIONS: usize = 4;
/// The largest region this contract allocates.
pub const MAX_REGION_BYTES: u64 = 0x20_0000;
/// The granule a region is charged and mapped in.
pub const FRAME_SIZE: u64 = 4096;

/// A half-open range of physical addresses.
#[derive(Clone, Copy, Debug, PartialEq, Eq, Structural)]
pub struct Span {
    pub start: u64,
    pub end: u64,
}

/// Why a DMA region could not be made.
#[derive(Clone, Copy, Debug, PartialEq, Eq, Structural)]
pub enum Refused {
    /// A length that is zero, unaligned, or past what this contract allocates.
    BadArgument,
    /// The assignment has gone, or the function is not DMA-capable.
    OutOfScope,
    /// No slot, no contiguous memory, no quarantine room, or the authority's
    /// budget is spent.
    Limit,
    /// The address space would not take it.
    Paging,
}

/// The lowest lane not in `taken`, if any.
pub open spec fn lowest_free(taken: Seq<bool>, from: int) -> Option<int>
    decreases taken.len() - from,
{
    if from < 0 || from >= taken.len() {
        None
    } else if !taken[from] {
        Some(from)
    } else {
        lowest_free(taken, from + 1)
    }
}

/// The lowest lane this process is not already using: not the count of live
/// regions, which is wrong the moment a lifecycle is not last-in-first-out.
pub fn first_free_lane(taken: &[bool]) -> (lane: Option<u32>)
    requires
        taken@.len() <= u32::MAX,
    ensures
        match lane {
            Some(l) => lowest_free(taken@, 0) == Some(l as int),
            None => lowest_free(taken@, 0) is None,
        },
{
    let mut i: usize = 0;
    while i < taken.len()
        invariant
            i <= taken.len(),
            taken@.len() <= u32::MAX,
            lowest_free(taken@, 0) == lowest_free(taken@, i as int),
        decreases taken.len() - i,
    {
        if !taken[i] {
            return Some(i as u32);
        }
        i = i + 1;
    }
    None
}

/// The lowest free lane is free, and every lane below it is taken.
pub proof fn lemma_lowest_free(taken: Seq<bool>, from: int)
    requires
        0 <= from,
    ensures
        lowest_free(taken, from) matches Some(l) ==> from <= l < taken.len() && !taken[l]
            && forall|j: int| from <= j < l ==> #[trigger] taken[j],
        lowest_free(taken, from) is None ==> forall|j: int| from <= j < taken.len() ==> #[trigger] taken[j],
    decreases taken.len() - from,
{
    if from < taken.len() && taken[from] {
        lemma_lowest_free(taken, from + 1);
    }
}

/// One live DMA region's facts.
#[derive(Clone, Copy)]
pub struct DmaRegion {
    /// The assignment it descends from, and that assignment's generation.
    pub assignment: u32,
    pub assignment_generation: u32,
    /// The process whose address space holds it, and the lane it is in.
    pub holder: u32,
    pub lane: u32,
    /// The physically contiguous backing.
    pub run: Span,
    /// Advances when the slot is reused; never zero.
    pub generation: u32,
    pub names: u32,
    pub live: bool,
}

/// One backing run waiting for its assignment to be provably quiet.
#[derive(Clone, Copy)]
pub struct Quarantined {
    pub assignment: u32,
    pub assignment_generation: u32,
    pub run: Span,
    pub holder: u32,
    pub live: bool,
}

pub open spec fn empty_region() -> DmaRegion {
    DmaRegion { assignment: 0, assignment_generation: 0, holder: 0, lane: 0, run: Span { start: 0, end: 0 }, generation: 1, names: 0, live: false }
}

pub open spec fn empty_quarantine() -> Quarantined {
    Quarantined { assignment: 0, assignment_generation: 0, run: Span { start: 0, end: 0 }, holder: 0, live: false }
}

/// How many of `s` satisfy `p`.
pub open spec fn count_live_regions(s: Seq<DmaRegion>, holder: Option<u32>) -> nat
    decreases s.len(),
{
    if s.len() == 0 {
        0
    } else {
        count_live_regions(s.drop_last(), holder) + (if s.last().live && (holder is None || holder == Some(s.last().holder)) { 1nat } else { 0 })
    }
}

pub open spec fn count_quarantined(s: Seq<Quarantined>) -> nat
    decreases s.len(),
{
    if s.len() == 0 {
        0
    } else {
        count_quarantined(s.drop_last()) + (if s.last().live { 1nat } else { 0 })
    }
}

/// The DMA region table and the quarantine, with the receipts each holds.
pub struct DmaRegions {
    regions: Vec<DmaRegion>,
    charges: Vec<Option<GrantCharge>>,
    quarantine: Vec<Quarantined>,
    held: Vec<Option<GrantCharge>>,
}

impl DmaRegions {
    pub closed spec fn slots(&self) -> Seq<DmaRegion> {
        self.regions@
    }

    pub closed spec fn waiting(&self) -> Seq<Quarantined> {
        self.quarantine@
    }

    /// Fixed tables, generations never zero, and a receipt exactly where a
    /// live region or a quarantined run is.
    pub closed spec fn wf(&self) -> bool {
        &&& self.regions.len() == MAX_REGIONS
        &&& self.charges.len() == MAX_REGIONS
        &&& self.quarantine.len() == MAX_QUARANTINED
        &&& self.held.len() == MAX_QUARANTINED
        &&& forall|i: int| 0 <= i < MAX_REGIONS ==> #[trigger] self.regions@[i].generation != 0
        &&& forall|i: int| 0 <= i < MAX_REGIONS ==> (#[trigger] self.charges@[i] is Some) == self.regions@[i].live
        &&& forall|i: int| 0 <= i < MAX_QUARANTINED ==> (#[trigger] self.held@[i] is Some) == self.quarantine@[i].live
        &&& forall|i: int| 0 <= i < MAX_REGIONS ==> #[trigger] self.regions@[i].run.start <= self.regions@[i].run.end
        &&& forall|i: int| 0 <= i < MAX_QUARANTINED ==> #[trigger] self.quarantine@[i].run.start <= self.quarantine@[i].run.end
    }
}


fn take_receipt(v: &mut Vec<Option<GrantCharge>>, i: usize) -> (c: Option<GrantCharge>)
    requires
        i < old(v)@.len(),
    ensures
        c == old(v)@[i as int],
        final(v)@ == old(v)@.update(i as int, None),
{
    let c = v.remove(i);
    v.insert(i, None);
    proof {
        assert(v@ =~= old(v)@.update(i as int, None));
    }
    c
}

/// `bytes` rounded up to whole frames.
pub open spec fn whole_frames(bytes: u64) -> u64 {
    (((bytes + FRAME_SIZE - 1) / FRAME_SIZE as int) * FRAME_SIZE) as u64
}

/// Why a region is refused, or the slot and the rounded length it admits.
pub open spec fn admission(t: &DmaRegions, live: bool, dma_capable: bool, holder: u32, bytes: u64) -> Result<(usize, u64), Refused> {
    if bytes == 0 || bytes > MAX_REGION_BYTES {
        Err(Refused::BadArgument)
    } else if !live || !dma_capable {
        Err(Refused::OutOfScope)
    } else if count_live_regions(t.slots(), Some(holder)) >= MAX_DMA_REGIONS {
        Err(Refused::Limit)
    } else if forall|i: int| 0 <= i < MAX_REGIONS ==> #[trigger] t.slots()[i].live {
        Err(Refused::Limit)
    } else if count_quarantined(t.waiting()) + count_live_regions(t.slots(), None) >= MAX_QUARANTINED {
        Err(Refused::Limit)
    } else {
        let i = choose|i: int| 0 <= i < MAX_REGIONS && !t.slots()[i].live && forall|j: int| 0 <= j < i ==> #[trigger] t.slots()[j].live;
        Ok((i as usize, whole_frames(bytes)))
    }
}

fn count_regions(v: &Vec<DmaRegion>, holder: Option<u32>) -> (n: usize)
    requires
        v@.len() == MAX_REGIONS,
    ensures
        n == count_live_regions(v@, holder),
        n <= MAX_REGIONS,
{
    let mut n: usize = 0;
    let mut i: usize = 0;
    while i < v.len()
        invariant
            i <= v.len(),
            v@.len() == MAX_REGIONS,
            n == count_live_regions(v@.take(i as int), holder),
            n <= i,
        decreases v.len() - i,
    {
        proof {
            assert(v@.take(i + 1).drop_last() =~= v@.take(i as int));
        }
        let r = v[i];
        let counted = match holder {
            Some(h) => r.live && r.holder == h,
            None => r.live,
        };
        if counted {
            n = n + 1;
        }
        i = i + 1;
    }
    proof {
        assert(v@.take(v@.len() as int) =~= v@);
    }
    n
}

fn count_waiting(v: &Vec<Quarantined>) -> (n: usize)
    requires
        v@.len() == MAX_QUARANTINED,
    ensures
        n == count_quarantined(v@),
        n <= MAX_QUARANTINED,
{
    let mut n: usize = 0;
    let mut i: usize = 0;
    while i < v.len()
        invariant
            i <= v.len(),
            v@.len() == MAX_QUARANTINED,
            n == count_quarantined(v@.take(i as int)),
            n <= i,
        decreases v.len() - i,
    {
        proof {
            assert(v@.take(i + 1).drop_last() =~= v@.take(i as int));
        }
        if v[i].live {
            n = n + 1;
        }
        i = i + 1;
    }
    proof {
        assert(v@.take(v@.len() as int) =~= v@);
    }
    n
}

impl DmaRegions {
    /// No regions and nothing quarantined.
    pub fn new() -> (t: DmaRegions)
        ensures
            t.wf(),
            t.slots() == Seq::new(MAX_REGIONS as nat, |i: int| empty_region()),
            t.waiting() == Seq::new(MAX_QUARANTINED as nat, |i: int| empty_quarantine()),
    {
        let mut regions: Vec<DmaRegion> = Vec::new();
        let mut charges: Vec<Option<GrantCharge>> = Vec::new();
        let mut i: usize = 0;
        while i < MAX_REGIONS
            invariant
                i <= MAX_REGIONS,
                regions@ == Seq::new(i as nat, |j: int| empty_region()),
                charges@.len() == i,
                forall|j: int| 0 <= j < i ==> #[trigger] charges@[j] is None,
            decreases MAX_REGIONS - i,
        {
            regions.push(DmaRegion { assignment: 0, assignment_generation: 0, holder: 0, lane: 0, run: Span { start: 0, end: 0 }, generation: 1, names: 0, live: false });
            charges.push(None);
            i = i + 1;
            proof {
                assert(regions@ =~= Seq::new(i as nat, |j: int| empty_region()));
            }
        }
        let mut quarantine: Vec<Quarantined> = Vec::new();
        let mut held: Vec<Option<GrantCharge>> = Vec::new();
        let mut i: usize = 0;
        while i < MAX_QUARANTINED
            invariant
                i <= MAX_QUARANTINED,
                quarantine@ == Seq::new(i as nat, |j: int| empty_quarantine()),
                held@.len() == i,
                forall|j: int| 0 <= j < i ==> #[trigger] held@[j] is None,
            decreases MAX_QUARANTINED - i,
        {
            quarantine.push(Quarantined { assignment: 0, assignment_generation: 0, run: Span { start: 0, end: 0 }, holder: 0, live: false });
            held.push(None);
            i = i + 1;
            proof {
                assert(quarantine@ =~= Seq::new(i as nat, |j: int| empty_quarantine()));
            }
        }
        DmaRegions { regions, charges, quarantine, held }
    }

    /// Everything that can refuse a region before anything is spent on it:
    /// the length, the assignment (live, and able to have its reclaim proved),
    /// the holder's own bound, a free slot, and a quarantine slot reserved by
    /// being counted now.
    pub fn admission_for(&self, pci: &Assignments, assignment: u32, assignment_generation: u32, dma_capable: bool, holder: u32, bytes: u64) -> (r: Result<(usize, u64), Refused>)
        requires
            self.wf(),
            pci.wf(),
        ensures
            r == admission(self, pci.named(assignment, assignment_generation) is Some, dma_capable, holder, bytes),
            r matches Ok((_, rounded)) ==> rounded >= bytes && rounded % FRAME_SIZE == 0 && rounded - bytes < FRAME_SIZE,
    {
        proof {
            lemma_admission_rounds_to_frames(self, pci.named(assignment, assignment_generation) is Some, dma_capable, holder, bytes);
        }
        if bytes == 0 || bytes > MAX_REGION_BYTES {
            return Err(Refused::BadArgument);
        }
        let rounded = (bytes + FRAME_SIZE - 1) / FRAME_SIZE * FRAME_SIZE;
        if !pci.is_live(assignment, assignment_generation) || !dma_capable {
            return Err(Refused::OutOfScope);
        }
        if count_regions(&self.regions, Some(holder)) >= MAX_DMA_REGIONS {
            return Err(Refused::Limit);
        }
        let mut index: usize = 0;
        while index < self.regions.len() && self.regions[index].live
            invariant
                self.wf(),
                index <= MAX_REGIONS,
                forall|j: int| 0 <= j < index ==> #[trigger] self.regions@[j].live,
            decreases MAX_REGIONS - index,
        {
            index = index + 1;
        }
        if index == self.regions.len() {
            return Err(Refused::Limit);
        }
        if count_waiting(&self.quarantine) + count_regions(&self.regions, None) >= MAX_QUARANTINED {
            return Err(Refused::Limit);
        }
        proof {
            let i = choose|i: int| 0 <= i < MAX_REGIONS && !self.slots()[i].live && forall|j: int| 0 <= j < i ==> #[trigger] self.slots()[j].live;
            if i < index {
                assert(self.slots()[i].live);
            } else if i > index {
                assert(self.slots()[index as int].live);
            }
        }
        Ok((index, rounded))
    }

    /// Which of a holder's lanes are in use.
    pub fn lanes(&self, holder: u32) -> (taken: Vec<bool>)
        requires
            self.wf(),
        ensures
            taken@.len() == MAX_DMA_REGIONS,
            forall|l: int| 0 <= l < MAX_DMA_REGIONS ==> #[trigger] taken@[l] == exists|i: int| 0 <= i < MAX_REGIONS
                && #[trigger] self.slots()[i].live && self.slots()[i].holder == holder && self.slots()[i].lane == l,
    {
        let mut taken: Vec<bool> = Vec::new();
        let mut l: usize = 0;
        while l < MAX_DMA_REGIONS
            invariant
                self.wf(),
                l <= MAX_DMA_REGIONS,
                taken@.len() == l,
                forall|k: int| 0 <= k < l ==> #[trigger] taken@[k] == exists|i: int| 0 <= i < MAX_REGIONS
                    && #[trigger] self.slots()[i].live && self.slots()[i].holder == holder && self.slots()[i].lane == k,
            decreases MAX_DMA_REGIONS - l,
        {
            let mut used = false;
            let mut i: usize = 0;
            while i < self.regions.len()
                invariant
                    self.wf(),
                    i <= MAX_REGIONS,
                    l < MAX_DMA_REGIONS,
                    used == exists|j: int| 0 <= j < i && #[trigger] self.slots()[j].live && self.slots()[j].holder == holder && self.slots()[j].lane == l,
                decreases MAX_REGIONS - i,
            {
                let r = self.regions[i];
                let ghost before = used;
                if r.live && r.holder == holder && r.lane as usize == l {
                    used = true;
                    proof {
                        assert(self.slots()[i as int].live && self.slots()[i as int].holder == holder && self.slots()[i as int].lane == l);
                    }
                } else {
                    proof {
                        assert((exists|j: int| 0 <= j < i + 1 && #[trigger] self.slots()[j].live && self.slots()[j].holder == holder && self.slots()[j].lane == l)
                            ==> (exists|j: int| 0 <= j < i && #[trigger] self.slots()[j].live && self.slots()[j].holder == holder && self.slots()[j].lane == l));
                    }
                }
                i = i + 1;
            }
            taken.push(used);
            l = l + 1;
        }
        taken
    }

    /// Records a region whose backing has been carved, cleared, mapped and
    /// made a bus-mastering descendant, with the receipt for its charge.
    pub fn install(&mut self, index: usize, assignment: u32, assignment_generation: u32, holder: u32, lane: u32, run: Span, charge: GrantCharge) -> (r: (u32, u32))
        requires
            old(self).wf(),
            index < MAX_REGIONS,
            !old(self).slots()[index as int].live,
            run.start <= run.end,
        ensures
            final(self).wf(),
            final(self).waiting() == old(self).waiting(),
            r == (index as u32, old(self).slots()[index as int].generation),
            final(self).slots() == old(self).slots().update(index as int, DmaRegion {
                assignment,
                assignment_generation,
                holder,
                lane,
                run,
                names: 0,
                live: true,
                ..old(self).slots()[index as int]
            }),
    {
        let mut region = self.regions[index];
        region.assignment = assignment;
        region.assignment_generation = assignment_generation;
        region.holder = holder;
        region.lane = lane;
        region.run = run;
        region.names = 0;
        region.live = true;
        self.regions.set(index, region);
        self.charges.set(index, Some(charge));
        (index as u32, region.generation)
    }

    /// The live region `(index, generation)` names.
    pub open spec fn named(&self, index: u32, generation: u32) -> Option<DmaRegion> {
        if index < MAX_REGIONS && self.slots()[index as int].live && self.slots()[index as int].generation == generation {
            Some(self.slots()[index as int])
        } else {
            None
        }
    }

    pub fn view(&self, index: u32, generation: u32) -> (r: Option<DmaRegion>)
        requires
            self.wf(),
        ensures
            r == self.named(index, generation),
    {
        let i = index as usize;
        if i >= MAX_REGIONS {
            return None;
        }
        let r = self.regions[i];
        if !r.live || r.generation != generation {
            return None;
        }
        Some(r)
    }

    /// Whether the region a capability names is still usable authority.
    pub fn is_live(&self, index: u32, generation: u32) -> (b: bool)
        requires
            self.wf(),
        ensures
            b == self.named(index, generation) is Some,
    {
        self.view(index, generation).is_some()
    }

    /// The device-visible address of a bounded offset inside one region: the
    /// caller presents a capability and an offset, never an address, and an
    /// offset past the region's extent fails closed.
    pub fn device_address(&self, index: u32, generation: u32, offset: u64) -> (r: Option<u64>)
        requires
            self.wf(),
        ensures
            r == (match self.named(index, generation) {
                Some(d) => if d.run.start > d.run.end || offset >= d.run.end - d.run.start || d.run.start + offset > u64::MAX {
                    None
                } else {
                    Some((d.run.start + offset) as u64)
                },
                None => None,
            }),
    {
        let entry = match self.view(index, generation) {
            Some(e) => e,
            None => return None,
        };
        if entry.run.start > entry.run.end {
            return None;
        }
        let length = entry.run.end - entry.run.start;
        if offset >= length {
            return None;
        }
        entry.run.start.checked_add(offset)
    }

    /// The function a region reaches, for the audit record.
    pub fn describe(&self, pci: &Assignments, index: u32, generation: u32) -> (r: Option<(u16, u8, u8, u8)>)
        requires
            self.wf(),
            pci.wf(),
        ensures
            r == (match self.named(index, generation) {
                Some(d) => match pci.named(d.assignment, d.assignment_generation) {
                    Some(a) => Some((a.segment, a.bus, a.device, a.function)),
                    None => None,
                },
                None => None,
            }),
    {
        match self.view(index, generation) {
            Some(d) => pci.describe(d.assignment, d.assignment_generation),
            None => None,
        }
    }
}


/// A region once it has ended: unpublished, its generation advanced past
/// zero.
pub open spec fn retired(r: DmaRegion) -> DmaRegion {
    DmaRegion { live: false, names: 0, generation: if r.generation == u32::MAX { 1 } else { (r.generation + 1) as u32 }, ..r }
}

/// The first quarantine slot not in use.
pub open spec fn first_free_quarantine(q: Seq<Quarantined>, from: int) -> Option<int>
    decreases q.len() - from,
{
    if from < 0 || from >= q.len() {
        None
    } else if !q[from].live {
        Some(from)
    } else {
        first_free_quarantine(q, from + 1)
    }
}

/// The quarantine once an ended region's backing has gone into it: the first
/// free slot holds the run, or nothing changes when there is none.
pub open spec fn quarantined_into(q: Seq<Quarantined>, r: DmaRegion) -> Seq<Quarantined> {
    match first_free_quarantine(q, 0) {
        Some(i) => q.update(i, Quarantined { assignment: r.assignment, assignment_generation: r.assignment_generation, run: r.run, holder: r.holder, live: true }),
        None => q,
    }
}

/// What an ended region leaves for its caller: the descendant to drop
/// (with the Command register's agreement to follow), and whether its
/// backing found a quarantine slot. A backing that found none stays out of
/// the pool with its charge outstanding: lost, and on the record as lost.
#[derive(Clone, Copy, Debug, PartialEq, Eq, Structural)]
pub struct Retirement {
    pub assignment: u32,
    pub assignment_generation: u32,
    pub kept: bool,
}

/// How many quarantined runs wait on one assignment.
pub open spec fn waiting_on_count(q: Seq<Quarantined>, assignment: u32, generation: u32) -> nat
    decreases q.len(),
{
    if q.len() == 0 {
        0
    } else {
        waiting_on_count(q.drop_last(), assignment, generation) + (if q.last().live && q.last().assignment == assignment
            && q.last().assignment_generation == generation { 1nat } else { 0 })
    }
}

/// How many frames the quarantine holds.
pub open spec fn quarantined_frame_count(q: Seq<Quarantined>) -> int
    decreases q.len(),
{
    if q.len() == 0 {
        0
    } else {
        quarantined_frame_count(q.drop_last()) + (if q.last().live { (q.last().run.end - q.last().run.start) / FRAME_SIZE as int } else { 0 })
    }
}

proof fn lemma_frame_count_bounded(q: Seq<Quarantined>)
    requires
        forall|i: int| 0 <= i < q.len() ==> #[trigger] q[i].run.start <= q[i].run.end,
    ensures
        0 <= quarantined_frame_count(q) <= q.len() * 0x10_0000_0000_0000,
    decreases q.len(),
{
    if q.len() > 0 {
        lemma_frame_count_bounded(q.drop_last());
        assert(q.last() == q[q.len() - 1]);
    }
}

impl DmaRegions {
    /// Ends one region: the mapping and the descendant are the caller's to
    /// take down; the backing waits in quarantine with its receipt, moved
    /// and not copied.
    fn destroy(&mut self, index: usize) -> (r: Retirement)
        requires
            old(self).wf(),
            index < MAX_REGIONS,
            old(self).slots()[index as int].live,
        ensures
            final(self).wf(),
            final(self).slots() == old(self).slots().update(index as int, retired(old(self).slots()[index as int])),
            final(self).waiting() == quarantined_into(old(self).waiting(), old(self).slots()[index as int]),
            r == (Retirement {
                assignment: old(self).slots()[index as int].assignment,
                assignment_generation: old(self).slots()[index as int].assignment_generation,
                kept: first_free_quarantine(old(self).waiting(), 0) is Some,
            }),
    {
        let region = self.regions[index];
        let mut ended = region;
        ended.live = false;
        ended.names = 0;
        ended.generation = ended.generation.wrapping_add(1);
        if ended.generation == 0 {
            ended.generation = 1;
        }
        self.regions.set(index, ended);
        let charge = take_receipt(&mut self.charges, index);
        let mut q: usize = 0;
        while q < self.quarantine.len() && self.quarantine[q].live
            invariant
                q <= MAX_QUARANTINED,
                self.quarantine@ == old(self).quarantine@,
                self.quarantine@.len() == MAX_QUARANTINED,
                first_free_quarantine(self.quarantine@, 0) == first_free_quarantine(self.quarantine@, q as int),
            decreases MAX_QUARANTINED - q,
        {
            q = q + 1;
        }
        if q == self.quarantine.len() {
            return Retirement { assignment: region.assignment, assignment_generation: region.assignment_generation, kept: false };
        }
        self.quarantine.set(q, Quarantined {
            assignment: region.assignment,
            assignment_generation: region.assignment_generation,
            run: region.run,
            holder: region.holder,
            live: true,
        });
        self.held.set(q, charge);
        Retirement { assignment: region.assignment, assignment_generation: region.assignment_generation, kept: true }
    }

    /// Takes a name on a region.
    pub fn retain(&mut self, index: u32, generation: u32) -> (r: Result<(), ()>)
        requires
            old(self).wf(),
        ensures
            final(self).wf(),
            final(self).waiting() == old(self).waiting(),
            r is Ok <==> (old(self).named(index, generation) matches Some(d) && d.names < u32::MAX),
            r is Ok ==> final(self).slots() == old(self).slots().update(index as int,
                DmaRegion { names: (old(self).slots()[index as int].names + 1) as u32, ..old(self).slots()[index as int] }),
            r is Err ==> final(self).slots() == old(self).slots(),
    {
        let mut d = match self.view(index, generation) {
            Some(d) => d,
            None => return Err(()),
        };
        d.names = match d.names.checked_add(1) {
            Some(n) => n,
            None => return Err(()),
        };
        self.regions.set(index as usize, d);
        Ok(())
    }

    /// Drops a name, and retires the region when it was the last one.
    pub fn release(&mut self, index: u32, generation: u32) -> (r: Result<Option<Retirement>, ()>)
        requires
            old(self).wf(),
        ensures
            final(self).wf(),
            r is Ok <==> (old(self).named(index, generation) matches Some(d) && d.names > 0),
            r is Err ==> final(self).slots() == old(self).slots() && final(self).waiting() == old(self).waiting(),
            r matches Ok(None) ==> final(self).waiting() == old(self).waiting() && final(self).slots() == old(self).slots().update(index as int,
                DmaRegion { names: (old(self).slots()[index as int].names - 1) as u32, ..old(self).slots()[index as int] }),
            r matches Ok(Some(t)) ==> old(self).slots()[index as int].names == 1
                && final(self).slots() == old(self).slots().update(index as int, retired(old(self).slots()[index as int]))
                && final(self).waiting() == quarantined_into(old(self).waiting(), old(self).slots()[index as int])
                && t.assignment == old(self).slots()[index as int].assignment
                && t.assignment_generation == old(self).slots()[index as int].assignment_generation,
    {
        let mut d = match self.view(index, generation) {
            Some(d) => d,
            None => return Err(()),
        };
        d.names = match d.names.checked_sub(1) {
            Some(n) => n,
            None => return Err(()),
        };
        if d.names != 0 {
            self.regions.set(index as usize, d);
            return Ok(None);
        }
        Ok(Some(self.destroy(index as usize)))
    }

    /// Retires a region that was never named, so a failed grant leaves
    /// nothing.
    pub fn abandon(&mut self, index: u32, generation: u32) -> (r: Option<Retirement>)
        requires
            old(self).wf(),
        ensures
            final(self).wf(),
            (old(self).named(index, generation) matches Some(d) && d.names == 0) ==> r is Some
                && final(self).slots() == old(self).slots().update(index as int, retired(old(self).slots()[index as int]))
                && final(self).waiting() == quarantined_into(old(self).waiting(), old(self).slots()[index as int]),
            !(old(self).named(index, generation) matches Some(d) && d.names == 0) ==> r is None
                && final(self).slots() == old(self).slots() && final(self).waiting() == old(self).waiting(),
    {
        match self.view(index, generation) {
            Some(d) => {
                if d.names != 0 {
                    return None;
                }
            },
            None => return None,
        }
        Some(self.destroy(index as usize))
    }

    /// Retires every region a process held, when it dies: death is not a
    /// proof of quiescence, so the backings go to quarantine like any other.
    pub fn clear_process(&mut self, holder: u32) -> (ended: Vec<Retirement>)
        requires
            old(self).wf(),
        ensures
            final(self).wf(),
            forall|i: int| 0 <= i < MAX_REGIONS ==> #[trigger] final(self).slots()[i] == (if old(self).slots()[i].live
                && old(self).slots()[i].holder == holder { retired(old(self).slots()[i]) } else { old(self).slots()[i] }),
            forall|q: int| 0 <= q < MAX_QUARANTINED && #[trigger] old(self).waiting()[q].live ==> final(self).waiting()[q] == old(self).waiting()[q],
    {
        let mut ended: Vec<Retirement> = Vec::new();
        let mut at: usize = 0;
        while at < MAX_REGIONS
            invariant
                self.wf(),
                at <= MAX_REGIONS,
                forall|i: int| 0 <= i < at ==> #[trigger] self.slots()[i] == (if old(self).slots()[i].live
                    && old(self).slots()[i].holder == holder { retired(old(self).slots()[i]) } else { old(self).slots()[i] }),
                forall|i: int| at <= i < MAX_REGIONS ==> #[trigger] self.slots()[i] == old(self).slots()[i],
                forall|q: int| 0 <= q < MAX_QUARANTINED && #[trigger] old(self).waiting()[q].live ==> self.waiting()[q] == old(self).waiting()[q],
            decreases MAX_REGIONS - at,
        {
            let r = self.regions[at];
            if r.live && r.holder == holder {
                let ghost before = self.waiting();
                let t = self.destroy(at);
                ended.push(t);
                proof {
                    let q = self.waiting();
                    assert forall|k: int| 0 <= k < MAX_QUARANTINED && #[trigger] old(self).waiting()[k].live implies q[k] == old(self).waiting()[k] by {
                        assert(before[k] == old(self).waiting()[k]);
                        match first_free_quarantine(before, 0) {
                            Some(f) => {
                                lemma_first_free_quarantine(before, 0);
                                assert(f != k);
                            },
                            None => {},
                        }
                    }
                }
            }
            at = at + 1;
        }
        ended
    }

    /// Returns every quarantined run of one assignment, once it is provably
    /// quiet, refunding each run's charge after the run is handed back for
    /// the pool. Nothing here can proceed without the proof: with `drained`
    /// false, nothing changes. Says whether a refund was refused, which would
    /// mean the account no longer matches the pool.
    pub fn sweep(&mut self, authority: &mut Regions, assignment: u32, generation: u32, drained: bool) -> (r: (Vec<Span>, bool))
        requires
            old(self).wf(),
            old(authority).wf(),
        ensures
            final(self).wf(),
            final(authority).wf(),
            final(self).slots() == old(self).slots(),
            !drained ==> r.0@.len() == 0 && !r.1 && final(self).waiting() == old(self).waiting(),
            drained ==> forall|q: int| 0 <= q < MAX_QUARANTINED ==> #[trigger] final(self).waiting()[q] == (if old(self).waiting()[q].live
                && old(self).waiting()[q].assignment == assignment && old(self).waiting()[q].assignment_generation == generation {
                empty_quarantine()
            } else {
                old(self).waiting()[q]
            }),
            drained ==> r.0@ == sweep_runs(old(self).waiting(), assignment, generation),
    {
        let mut runs: Vec<Span> = Vec::new();
        let mut diverged = false;
        if !drained {
            return (runs, diverged);
        }
        let mut at: usize = 0;
        while at < MAX_QUARANTINED
            invariant
                self.wf(),
                old(self).wf(),
                authority.wf(),
                self.slots() == old(self).slots(),
                at <= MAX_QUARANTINED,
                forall|q: int| 0 <= q < at ==> #[trigger] self.waiting()[q] == (if old(self).waiting()[q].live
                    && old(self).waiting()[q].assignment == assignment && old(self).waiting()[q].assignment_generation == generation {
                    empty_quarantine()
                } else {
                    old(self).waiting()[q]
                }),
                forall|q: int| at <= q < MAX_QUARANTINED ==> #[trigger] self.waiting()[q] == old(self).waiting()[q],
                runs@ == sweep_runs(old(self).waiting().take(at as int), assignment, generation),
            decreases MAX_QUARANTINED - at,
        {
            proof {
                assert(old(self).waiting().take(at + 1).drop_last() =~= old(self).waiting().take(at as int));
            }
            let entry = self.quarantine[at];
            let ghost prev = self.waiting();
            if entry.live && entry.assignment == assignment && entry.assignment_generation == generation {
                let charge = take_receipt(&mut self.held, at);
                self.quarantine.set(at, Quarantined { assignment: 0, assignment_generation: 0, run: Span { start: 0, end: 0 }, holder: 0, live: false });
                proof {
                    assert(self.waiting() == prev.update(at as int, empty_quarantine()));
                    assert forall|q: int| 0 <= q < at + 1 implies #[trigger] self.waiting()[q] == (if old(self).waiting()[q].live
                        && old(self).waiting()[q].assignment == assignment && old(self).waiting()[q].assignment_generation == generation {
                        empty_quarantine()
                    } else {
                        old(self).waiting()[q]
                    }) by {
                        if q < at {
                            assert(prev[q] == self.waiting()[q]);
                        }
                    }
                    assert forall|q: int| at + 1 <= q < MAX_QUARANTINED implies #[trigger] self.waiting()[q] == old(self).waiting()[q] by {
                        assert(prev[q] == self.waiting()[q]);
                    }
                }
                runs.push(entry.run);
                match charge {
                    Some(c) => {
                        if authority.refund_grant(c).is_err() {
                            diverged = true;
                        }
                    },
                    None => {
                        diverged = true;
                    },
                }
            }
            at = at + 1;
        }
        proof {
            assert(old(self).waiting().take(MAX_QUARANTINED as int) =~= old(self).waiting());
        }
        (runs, diverged)
    }

    /// How many quarantined runs wait on an assignment: what keeps the
    /// assignment itself alive until its drain is proved.
    pub fn quarantined_under(&self, assignment: u32, generation: u32) -> (n: u32)
        requires
            self.wf(),
        ensures
            n == waiting_on_count(self.waiting(), assignment, generation),
    {
        let mut n: u32 = 0;
        let mut i: usize = 0;
        while i < MAX_QUARANTINED
            invariant
                self.wf(),
                i <= MAX_QUARANTINED,
                n == waiting_on_count(self.waiting().take(i as int), assignment, generation),
                n <= i,
            decreases MAX_QUARANTINED - i,
        {
            proof {
                assert(self.waiting().take(i + 1).drop_last() =~= self.waiting().take(i as int));
            }
            let e = self.quarantine[i];
            if e.live && e.assignment == assignment && e.assignment_generation == generation {
                n = n + 1;
            }
            i = i + 1;
        }
        proof {
            assert(self.waiting().take(MAX_QUARANTINED as int) =~= self.waiting());
        }
        n
    }

    /// How many frames the quarantine is holding: memory that is neither in
    /// the pool nor reachable by anybody.
    pub fn quarantined_frames(&self) -> (n: u64)
        requires
            self.wf(),
        ensures
            n == quarantined_frame_count(self.waiting()),
    {
        let mut n: u64 = 0;
        let mut i: usize = 0;
        while i < MAX_QUARANTINED
            invariant
                self.wf(),
                i <= MAX_QUARANTINED,
                n == quarantined_frame_count(self.waiting().take(i as int)),
            decreases MAX_QUARANTINED - i,
        {
            proof {
                assert(self.waiting().take(i + 1).drop_last() =~= self.waiting().take(i as int));
                lemma_frame_count_bounded(self.waiting().take(i + 1));
            }
            let e = self.quarantine[i];
            if e.live {
                n = n + (e.run.end - e.run.start) / FRAME_SIZE;
            }
            i = i + 1;
        }
        proof {
            assert(self.waiting().take(MAX_QUARANTINED as int) =~= self.waiting());
        }
        n
    }
}

/// The runs a sweep of one assignment hands back, in slot order.
pub open spec fn sweep_runs(q: Seq<Quarantined>, assignment: u32, generation: u32) -> Seq<Span>
    decreases q.len(),
{
    if q.len() == 0 {
        Seq::empty()
    } else {
        let rest = sweep_runs(q.drop_last(), assignment, generation);
        if q.last().live && q.last().assignment == assignment && q.last().assignment_generation == generation {
            rest.push(q.last().run)
        } else {
            rest
        }
    }
}

proof fn lemma_first_free_quarantine(q: Seq<Quarantined>, from: int)
    requires
        0 <= from,
    ensures
        first_free_quarantine(q, from) matches Some(f) ==> from <= f < q.len() && !q[f].live,
    decreases q.len() - from,
{
    if from < q.len() && q[from].live {
        lemma_first_free_quarantine(q, from + 1);
    }
}


/// The funding step of a new region, once it has been admitted: the charge
/// comes first, so a region that cannot be funded costs nothing else; and
/// when no contiguous run could be carved for it (`carved` is false) the
/// charge is given back at once, leaving every authority as it was.
pub fn fund_region(tree: &mut Regions, authority: AuthorityId, bytes: u64, carved: bool) -> (r: Result<GrantCharge, Refused>)
    requires
        old(tree).wf(),
        bytes <= MAX_REGION_BYTES,
    ensures
        final(tree).wf(),
        final(tree).objects() == old(tree).objects(),
        final(tree).is_stopped() == old(tree).is_stopped(),
        r is Err ==> final(tree).nodes() == old(tree).nodes(),
        r is Err ==> forall|j: int| 0 <= j < crate::region::MAX_CHARGES ==> #[trigger] final(tree).ledger()[j].live == old(tree).ledger()[j].live,
        r is Ok <==> carved && crate::region::grant_fundable(
            old(tree).nodes(),
            old(tree).ledger(),
            old(tree).is_stopped(),
            authority,
            bytes as usize,
            FRAME_SIZE as usize,
        ),
        r is Err ==> r == Err::<GrantCharge, Refused>(Refused::Limit),
        r is Ok ==> crate::region::charged_grant(
            old(tree).nodes(),
            final(tree).nodes(),
            old(tree).ledger(),
            final(tree).ledger(),
            old(tree).is_stopped(),
            authority,
            bytes as usize,
            FRAME_SIZE as usize,
            Ok::<GrantCharge, crate::region::Refusal>(r->Ok_0),
        ),
{
    let ghost before = *tree;
    let charge = match tree.charge_grant(authority, bytes as usize, FRAME_SIZE as usize) {
        Ok(charge) => charge,
        Err(_) => return Err(Refused::Limit),
    };
    if !carved {
        let ghost charged = *tree;
        let ghost receipt = charge;
        let refund = tree.refund_grant(charge);
        proof {
            crate::region::lemma_refund_undoes_charge(
                &before,
                &charged,
                &*tree,
                authority,
                bytes as usize,
                FRAME_SIZE as usize,
                receipt,
                refund,
            );
        }
        return Err(Refused::Limit);
    }
    Ok(charge)
}


/// What a DMA region needs of its function: bus mastering, and no decoding.
pub open spec fn dma_needs() -> Needs {
    Needs { memory_decoding: false, bus_mastering: true }
}

/// An assignment with one more bus-mastering descendant.
pub open spec fn with_dma_descendant(a: Assignment) -> Assignment {
    Assignment { descendants: (a.descendants + 1) as u32, bus_mastering: (a.bus_mastering + 1) as u32, ..a }
}

/// Whether one more bus-mastering descendant can be counted on the
/// assignment `(index, generation)` names.
pub open spec fn descendant_room(pci: &Assignments, index: u32, generation: u32) -> bool {
    pci.named(index, generation) matches Some(a) && a.descendants < u32::MAX && a.bus_mastering < u32::MAX
}

/// Which of `holder`'s lanes its live regions occupy.
pub open spec fn lanes_taken(t: &DmaRegions, holder: u32) -> Seq<bool> {
    Seq::new(
        MAX_DMA_REGIONS as nat,
        |l: int| exists|i: int| 0 <= i < MAX_REGIONS && #[trigger] t.slots()[i].live && t.slots()[i].holder == holder && t.slots()[i].lane == l,
    )
}

/// A region made: its slot and generation, its lane in the holder's address
/// space, where it is mapped there, how many bytes it spans, and what the
/// function's Command register must become, if anything.
#[derive(Clone, Copy, Debug, PartialEq, Eq, Structural)]
pub struct Allocated {
    pub index: u32,
    pub generation: u32,
    pub lane: u32,
    pub base: u64,
    pub bytes: u64,
    pub command: Option<u64>,
}

/// Why a region for `bytes` under the assignment `(assignment, generation)`
/// is refused, in the order the steps are taken, or what it is made as: the
/// admission first; then the charge, refused with the carve when no run
/// could be carved; then a free lane; then the mapping, which the caller made
/// at that lane (`mapped` is where, or `None`); then the descendant that
/// turns bus mastering on.
pub open spec fn allocation(
    t: &DmaRegions,
    tree: &Regions,
    pci: &Assignments,
    assignment: u32,
    generation: u32,
    dma_capable: bool,
    authority: AuthorityId,
    holder: u32,
    bytes: u64,
    carved: Option<Span>,
    mapped: Option<u64>,
    command: u64,
) -> Result<Allocated, Refused> {
    match admission(t, pci.named(assignment, generation) is Some, dma_capable, holder, bytes) {
        Err(e) => Err(e),
        Ok((index, rounded)) => if !(carved is Some && crate::region::grant_fundable(
            tree.nodes(),
            tree.ledger(),
            tree.is_stopped(),
            authority,
            rounded as usize,
            FRAME_SIZE as usize,
        )) {
            Err(Refused::Limit)
        } else if lowest_free(lanes_taken(t, holder), 0) is None {
            Err(Refused::Limit)
        } else if mapped is None {
            Err(Refused::Paging)
        } else if !descendant_room(pci, assignment, generation) {
            Err(Refused::Limit)
        } else {
            let b = with_dma_descendant(pci.slots()[assignment as int]);
            Ok(Allocated {
                index: index as u32,
                generation: t.slots()[index as int].generation,
                lane: lowest_free(lanes_taken(t, holder), 0)->0 as u32,
                base: mapped->0,
                bytes: rounded,
                command: if crate::pci::wanted_command(b, command) != command {
                    Some(crate::pci::wanted_command(b, command))
                } else {
                    None
                },
            })
        },
    }
}

/// Gives back a charge that was taken a moment ago, leaving every authority
/// as it was before the charge and the ledger holding the same live charges.
fn undo_funding(tree: &mut Regions, charge: GrantCharge, Ghost(before): Ghost<Regions>, Ghost(authority): Ghost<AuthorityId>, Ghost(bytes): Ghost<usize>)
    requires
        before.wf(),
        old(tree).wf(),
        crate::region::resolves_authority(before.nodes(), authority),
        crate::region::charged_grant(
            before.nodes(),
            old(tree).nodes(),
            before.ledger(),
            old(tree).ledger(),
            before.is_stopped(),
            authority,
            bytes,
            FRAME_SIZE as usize,
            Ok::<GrantCharge, crate::region::Refusal>(charge),
        ),
        old(tree).objects() == before.objects(),
        old(tree).is_stopped() == before.is_stopped(),
    ensures
        final(tree).wf(),
        final(tree).nodes() == before.nodes(),
        final(tree).objects() == before.objects(),
        final(tree).is_stopped() == before.is_stopped(),
        forall|j: int| 0 <= j < crate::region::MAX_CHARGES ==> #[trigger] final(tree).ledger()[j].live == before.ledger()[j].live,
{
    let ghost charged = *tree;
    let ghost receipt = charge;
    let refund = tree.refund_grant(charge);
    proof {
        crate::region::lemma_refund_undoes_charge(&before, &charged, &*tree, authority, bytes, FRAME_SIZE as usize, receipt, refund);
    }
}

impl DmaRegions {
    /// Makes a DMA region, all or nothing: every step that can refuse comes
    /// before anything is spent or after everything spent is given back, so
    /// a refused region leaves the region table, the quarantine, every
    /// authority, the live charges and the PCI table as they were. The
    /// frames are carved, cleared and mapped by the caller: `carved` is the
    /// run it carved, or `None`, and `mapped` where it mapped the run at the
    /// lane this returns, or `None`; on a refusal it gives both back.
    pub fn allocate(
        &mut self,
        tree: &mut Regions,
        pci: &mut Assignments,
        assignment: u32,
        generation: u32,
        dma_capable: bool,
        authority: AuthorityId,
        holder: u32,
        bytes: u64,
        carved: Option<Span>,
        mapped: Option<u64>,
        command: u64,
    ) -> (r: Result<Allocated, Refused>)
        requires
            old(self).wf(),
            old(tree).wf(),
            old(pci).wf(),
            carved matches Some(run) ==> run.start <= run.end,
        ensures
            final(self).wf(),
            final(tree).wf(),
            final(pci).wf(),
            final(pci).root_bus() == old(pci).root_bus(),
            final(self).waiting() == old(self).waiting(),
            final(tree).objects() == old(tree).objects(),
            final(tree).is_stopped() == old(tree).is_stopped(),
            r == allocation(&*old(self), &*old(tree), &*old(pci), assignment, generation, dma_capable, authority, holder, bytes, carved, mapped, command),
            r is Err ==> {
                &&& final(self).slots() == old(self).slots()
                &&& final(tree).nodes() == old(tree).nodes()
                &&& forall|j: int| 0 <= j < crate::region::MAX_CHARGES ==> #[trigger] final(tree).ledger()[j].live == old(tree).ledger()[j].live
                &&& final(pci).slots() == old(pci).slots()
            },
            r matches Ok(a) ==> a.bytes >= bytes && a.bytes % FRAME_SIZE == 0 && a.bytes - bytes < FRAME_SIZE,
            r matches Ok(a) ==> {
                &&& final(self).slots() == old(self).slots().update(a.index as int, DmaRegion {
                    assignment,
                    assignment_generation: generation,
                    holder,
                    lane: a.lane,
                    run: carved->0,
                    names: 0,
                    live: true,
                    ..old(self).slots()[a.index as int]
                })
                &&& final(pci).slots() == old(pci).slots().update(assignment as int, with_dma_descendant(old(pci).slots()[assignment as int]))
                &&& exists|receipt: GrantCharge| crate::region::charged_grant(
                    old(tree).nodes(),
                    final(tree).nodes(),
                    old(tree).ledger(),
                    final(tree).ledger(),
                    old(tree).is_stopped(),
                    authority,
                    a.bytes as usize,
                    FRAME_SIZE as usize,
                    Ok::<GrantCharge, crate::region::Refusal>(receipt),
                )
            },
    {
        let (index, rounded) = match self.admission_for(pci, assignment, generation, dma_capable, holder, bytes) {
            Ok(admitted) => admitted,
            Err(e) => return Err(e),
        };
        proof {
            assert(rounded <= MAX_REGION_BYTES) by (nonlinear_arith)
                requires
                    rounded == ((bytes + FRAME_SIZE - 1) / FRAME_SIZE as int) * FRAME_SIZE,
                    1 <= bytes <= MAX_REGION_BYTES,
            ;
        }
        let ghost before = *tree;
        let charge = match fund_region(tree, authority, rounded, carved.is_some()) {
            Ok(charge) => charge,
            Err(e) => return Err(e),
        };
        let ghost receipt = charge;
        let run = match carved {
            Some(run) => run,
            None => return Err(Refused::Limit),
        };
        let taken = self.lanes(holder);
        proof {
            assert(taken@ =~= lanes_taken(&*self, holder));
        }
        let lane = match first_free_lane(&taken) {
            Some(lane) => lane,
            None => {
                undo_funding(tree, charge, Ghost(before), Ghost(authority), Ghost(rounded as usize));
                return Err(Refused::Limit);
            },
        };
        let base = match mapped {
            Some(base) => base,
            None => {
                undo_funding(tree, charge, Ghost(before), Ghost(authority), Ghost(rounded as usize));
                return Err(Refused::Paging);
            },
        };
        let written = match pci.take_descendant(assignment, generation, Needs { memory_decoding: false, bus_mastering: true }, command) {
            Ok(w) => w,
            Err(()) => {
                undo_funding(tree, charge, Ghost(before), Ghost(authority), Ghost(rounded as usize));
                return Err(Refused::Limit);
            },
        };
        let (i, g) = self.install(index, assignment, generation, holder, lane, run, charge);
        proof {
            assert(crate::region::charged_grant(
                before.nodes(),
                tree.nodes(),
                before.ledger(),
                tree.ledger(),
                before.is_stopped(),
                authority,
                rounded as usize,
                FRAME_SIZE as usize,
                Ok::<GrantCharge, crate::region::Refusal>(receipt),
            ));
        }
        Ok(Allocated { index: i, generation: g, lane, base, bytes: rounded, command: written })
    }
}


/// A region's admitted length is the request rounded up to whole frames and
/// no further: at least what was asked, a whole number of frames, less than
/// one frame more than was asked, and never past the cap. A request that is
/// already whole frames is admitted as it is.
pub proof fn lemma_whole_frames(bytes: u64)
    requires
        0 < bytes <= MAX_REGION_BYTES,
    ensures
        whole_frames(bytes) >= bytes,
        whole_frames(bytes) % FRAME_SIZE == 0,
        whole_frames(bytes) - bytes < FRAME_SIZE,
        whole_frames(bytes) <= MAX_REGION_BYTES,
        bytes % FRAME_SIZE == 0 ==> whole_frames(bytes) == bytes,
{
    let x = bytes + FRAME_SIZE - 1;
    let q = x / FRAME_SIZE as int;
    vstd::arithmetic::div_mod::lemma_fundamental_div_mod(x, FRAME_SIZE as int);
    vstd::arithmetic::div_mod::lemma_mod_pos_bound(x, FRAME_SIZE as int);
    vstd::arithmetic::div_mod::lemma_mod_multiples_basic(q, FRAME_SIZE as int);
    assert(q * FRAME_SIZE == x - x % (FRAME_SIZE as int)) by (nonlinear_arith)
        requires
            x == FRAME_SIZE * q + x % (FRAME_SIZE as int),
    ;
    assert(q <= 512) by (nonlinear_arith)
        requires
            q * 4096 <= x,
            x <= 0x20_0000 + 4095,
    ;
    assert(q * 4096 <= 0x20_0000) by (nonlinear_arith)
        requires
            q <= 512,
    ;
    if bytes % FRAME_SIZE == 0 {
        vstd::arithmetic::div_mod::lemma_fundamental_div_mod(bytes as int, FRAME_SIZE as int);
        vstd::arithmetic::div_mod::lemma_mod_multiples_basic((bytes as int) / (FRAME_SIZE as int), FRAME_SIZE as int);
        assert(x % (FRAME_SIZE as int) == FRAME_SIZE - 1) by {
            let k = (bytes as int) / (FRAME_SIZE as int);
            assert(bytes == FRAME_SIZE * k);
            assert(x == k * FRAME_SIZE + (FRAME_SIZE - 1));
            vstd::arithmetic::div_mod::lemma_fundamental_div_mod_converse(x, FRAME_SIZE as int, k, FRAME_SIZE - 1);
        }
    }
}

/// What admission admits: a region of the request rounded up to whole
/// frames, in a slot that is free.
pub proof fn lemma_admission_rounds_to_frames(t: &DmaRegions, live: bool, dma_capable: bool, holder: u32, bytes: u64)
    ensures
        admission(t, live, dma_capable, holder, bytes) matches Ok((index, rounded)) ==> {
            &&& rounded >= bytes
            &&& rounded % FRAME_SIZE == 0
            &&& rounded - bytes < FRAME_SIZE
            &&& rounded <= MAX_REGION_BYTES
            &&& index < MAX_REGIONS
            &&& !t.slots()[index as int].live
        },
{
    if admission(t, live, dma_capable, holder, bytes) is Ok {
        lemma_whole_frames(bytes);
    }
}

} // verus!
