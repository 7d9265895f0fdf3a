//! Authority, as a table the nucleus owns and a process cannot address.
//!
//! A handle is a process-local index into a nucleus table, with the slot's
//! generation beside it. It carries no rights in its own bits: what it
//! carries is where to look, and everything that decides what the holder
//! may do is at the other end of that lookup. Releasing a capability
//! advances its slot's generation, so a stale handle is detectably stale;
//! generations start at one, so a handle of all zeros names nothing.
use vstd::prelude::*;
use crate::pci::{Assignment, Assignments, settled};
use crate::pci::ROOT_BUS;
use crate::plan::{PlanId, PlanState, Plans, destroyed, plan_live};
use crate::process::MAX_PROCESSES;
use crate::region::{
    Authority, AuthorityId, Region, RegionId, Regions, less_one, region_with, released_name,
    resolves_authority, resolves_region, settle_region_nodes, settle_region_objects,
};

verus! {

/// How many capabilities one process may hold.
pub const MAX_CAPABILITIES: usize = 16;
/// The longest binding name a launch record carries.
pub const MAX_BINDING: usize = 64;
/// The receive right on an endpoint.
pub const RIGHT_RECEIVE: u32 = 2;

/// The object kinds a process is told about.
pub const OBJECT_NONE: u32 = 0;
pub const OBJECT_ENDPOINT: u32 = 1;
pub const OBJECT_PROCESS: u32 = 2;
pub const OBJECT_REPLY: u32 = 3;
pub const OBJECT_MEMORY_AUTHORITY: u32 = 4;
pub const OBJECT_REGION: u32 = 5;
pub const OBJECT_LAUNCH_PLAN_BUILDER: u32 = 6;
pub const OBJECT_LAUNCH_PLAN: u32 = 7;
pub const OBJECT_PCI_BUS: u32 = 8;
pub const OBJECT_PCI_FUNCTION: u32 = 9;

/// What kind of object a capability names.
#[derive(Clone, Copy, Debug, PartialEq, Eq, Structural)]
pub enum Object {
    /// Nothing: the state of a slot nobody has been given.
    Vacant,
    /// An IPC endpoint, by its index in the endpoint table.
    Endpoint(u32),
    /// A process, by its slot and that slot's generation.
    Process { slot: u32, generation: u32 },
    /// The single-use right to answer one call.
    Reply { caller: u32, generation: u32 },
    /// A finite memory authority, by its accounting node.
    MemoryAuthority { index: u32, generation: u32 },
    /// A region in one of its two affine states.
    Region { index: u32, generation: u32 },
    /// The same region table, after `share` consumed the affine form.
    SharedRegion { index: u32, generation: u32 },
    /// A launch plan still being written.
    LaunchPlanBuilder { index: u32, generation: u32 },
    /// A PCI bus scope.
    PciBus(u32),
    /// One assignment of one PCI function.
    PciFunction { index: u32, generation: u32 },
    /// A launch plan once sealed.
    LaunchPlan { index: u32, generation: u32 },
}

/// The kind number an object is described to a process by; both region
/// forms are one public kind.
pub open spec fn kind_of(o: Object) -> u32 {
    match o {
        Object::Vacant => OBJECT_NONE,
        Object::Endpoint(_) => OBJECT_ENDPOINT,
        Object::Process { .. } => OBJECT_PROCESS,
        Object::Reply { .. } => OBJECT_REPLY,
        Object::MemoryAuthority { .. } => OBJECT_MEMORY_AUTHORITY,
        Object::Region { .. } => OBJECT_REGION,
        Object::SharedRegion { .. } => OBJECT_REGION,
        Object::LaunchPlanBuilder { .. } => OBJECT_LAUNCH_PLAN_BUILDER,
        Object::LaunchPlan { .. } => OBJECT_LAUNCH_PLAN,
        Object::PciBus(_) => OBJECT_PCI_BUS,
        Object::PciFunction { .. } => OBJECT_PCI_FUNCTION,
    }
}

/// Whether a second capability may never name the same object: a mutable
/// region has exactly one holder, and a plan holds the references its
/// entries took.
pub open spec fn affine(o: Object) -> bool {
    match o {
        Object::Region { .. } => true,
        Object::LaunchPlanBuilder { .. } => true,
        Object::LaunchPlan { .. } => true,
        _ => false,
    }
}

impl Object {
    /// The kind number this object is described to a process by.
    pub fn kind(&self) -> (k: u32)
        ensures
            k == kind_of(*self),
    {
        match self {
            Object::Vacant => OBJECT_NONE,
            Object::Endpoint(_) => OBJECT_ENDPOINT,
            Object::Process { .. } => OBJECT_PROCESS,
            Object::Reply { .. } => OBJECT_REPLY,
            Object::MemoryAuthority { .. } => OBJECT_MEMORY_AUTHORITY,
            Object::Region { .. } => OBJECT_REGION,
            Object::SharedRegion { .. } => OBJECT_REGION,
            Object::LaunchPlanBuilder { .. } => OBJECT_LAUNCH_PLAN_BUILDER,
            Object::LaunchPlan { .. } => OBJECT_LAUNCH_PLAN,
            Object::PciBus(_) => OBJECT_PCI_BUS,
            Object::PciFunction { .. } => OBJECT_PCI_FUNCTION,
        }
    }

    /// Whether a second capability may never name the same object.
    pub fn is_affine(&self) -> (b: bool)
        ensures
            b == affine(*self),
            b <==> (*self is Region || *self is LaunchPlanBuilder || *self is LaunchPlan),
    {
        match self {
            Object::Region { .. } => true,
            Object::LaunchPlanBuilder { .. } => true,
            Object::LaunchPlan { .. } => true,
            _ => false,
        }
    }

    /// The plan this names, in either state.
    pub fn plan(&self) -> (p: Option<PlanId>)
        ensures
            p == (match *self {
                Object::LaunchPlanBuilder { index, generation } => Some(PlanId { index, generation }),
                Object::LaunchPlan { index, generation } => Some(PlanId { index, generation }),
                _ => None,
            }),
    {
        match *self {
            Object::LaunchPlanBuilder { index, generation } => Some(PlanId { index, generation }),
            Object::LaunchPlan { index, generation } => Some(PlanId { index, generation }),
            _ => None,
        }
    }

    /// Whether this names a region at all, in either state.
    pub fn is_region(&self) -> (b: bool)
        ensures
            b == (*self is Region || *self is SharedRegion),
    {
        match self {
            Object::Region { .. } => true,
            Object::SharedRegion { .. } => true,
            _ => false,
        }
    }

    /// The region this names, whichever state it is in.
    pub fn region(&self) -> (r: Option<RegionId>)
        ensures
            r == (match *self {
                Object::Region { index, generation } => Some(RegionId { index, generation }),
                Object::SharedRegion { index, generation } => Some(RegionId { index, generation }),
                _ => None,
            }),
    {
        match *self {
            Object::Region { index, generation } => Some(RegionId { index, generation }),
            Object::SharedRegion { index, generation } => Some(RegionId { index, generation }),
            _ => None,
        }
    }
}

/// A handle: the index in the low half, the generation in the high half.
pub open spec fn handle_of(index: int, generation: u32) -> u64 {
    ((generation as u64) << 32u64 | (index as u64)) as u64
}

/// A handle: the index in the low half, the generation in the high half.
/// Both halves are necessary and neither is a right.
pub fn handle(index: usize, generation: u32) -> (h: u64)
    requires
        index < 0x1_0000_0000,
    ensures
        h == handle_of(index as int, generation),
{
    ((generation as u64) << 32u64) | index as u64
}

/// A handle's index and generation.
pub open spec fn parts_of(h: u64) -> (int, u32) {
    ((h & 0xffff_ffffu64) as int, (h >> 32u64) as u32)
}

pub fn parts(handle: u64) -> (p: (usize, u32))
    ensures
        p.0 as int == parts_of(handle).0,
        p.1 == parts_of(handle).1,
{
    let low: u64 = handle & 0xffff_ffffu64;
    assert(handle & 0xffff_ffffu64 <= 0xffff_ffffu64) by (bit_vector);
    (low as usize, (handle >> 32u64) as u32)
}

/// A handle gives back exactly the index and generation it was made from.
pub proof fn lemma_handle_parts(index: u64, generation: u32)
    requires
        index < 0x1_0000_0000,
    ensures
        parts_of(handle_of(index as int, generation)) == (index as int, generation),
{
    assert(index < 0x1_0000_0000u64 ==> ((((generation as u64) << 32u64) | index) & 0xffff_ffffu64) == index
        && ((((generation as u64) << 32u64) | index) >> 32u64) as u32 == generation) by (bit_vector);
}

/// Why a handle did not name what the caller needed: the caller named
/// nothing at all, or it holds the wrong authority.
#[derive(Clone, Copy, Debug, PartialEq, Eq, Structural)]
pub enum Refused {
    /// The index is outside the process's table.
    BadHandle,
    /// The entry is stale, empty, of another type, or lacks the right.
    NoCapability,
}

/// Why a capability was not given.
#[derive(Clone, Copy, Debug, PartialEq, Eq, Structural)]
pub enum NotGranted {
    /// The process's table has no free slot, or a name could not be taken.
    NoRoom,
    /// Another process already holds receive rights on that endpoint.
    ReceiverExists,
}

/// The name a grant answers: bytes the nucleus carries whole or refuses.
pub struct Binding {
    bytes: Vec<u8>,
}

impl View for Binding {
    type V = Seq<u8>;

    closed spec fn view(&self) -> Seq<u8> {
        self.bytes@
    }
}

impl Binding {
    /// A grant that answers no request.
    pub fn none() -> (b: Binding)
        ensures
            b@ == Seq::<u8>::empty(),
    {
        Binding { bytes: Vec::new() }
    }

    /// A name, or nothing when it is too long for the record to carry:
    /// refused rather than truncated, because a truncated name is still a
    /// name, of a request the module did not make.
    pub fn new(name: &[u8]) -> (b: Option<Binding>)
        ensures
            b is Some <==> name@.len() <= MAX_BINDING,
            b matches Some(b) ==> b@ == name@,
    {
        if name.len() > MAX_BINDING {
            return None;
        }
        let mut bytes: Vec<u8> = Vec::new();
        let mut i: usize = 0;
        while i < name.len()
            invariant
                i <= name.len(),
                bytes@ == name@.take(i as int),
            decreases name.len() - i,
        {
            bytes.push(name[i]);
            i = i + 1;
            proof {
                assert(bytes@ =~= name@.take(i as int));
            }
        }
        proof {
            assert(name@.take(name@.len() as int) =~= name@);
        }
        Some(Binding { bytes })
    }

    /// The name's bytes.
    pub fn as_bytes(&self) -> (b: &[u8])
        ensures
            b@ == self@,
    {
        self.bytes.as_slice()
    }

    /// The same name, for a record that outlives the request.
    pub fn copy(&self) -> (b: Binding)
        ensures
            b@ == self@,
    {
        let mut bytes: Vec<u8> = Vec::new();
        let mut i: usize = 0;
        while i < self.bytes.len()
            invariant
                i <= self.bytes.len(),
                bytes@ == self.bytes@.take(i as int),
            decreases self.bytes.len() - i,
        {
            bytes.push(self.bytes[i]);
            i = i + 1;
            proof {
                assert(bytes@ =~= self.bytes@.take(i as int));
            }
        }
        proof {
            assert(self.bytes@.take(self.bytes@.len() as int) =~= self.bytes@);
        }
        Binding { bytes }
    }
}


// ---------------------------------------------------------------------------
// Names: what a capability entry, a plan entry or a message in flight holds
// on the object it names.

/// The authority and region tables are as they were.
pub open spec fn regions_same(r0: Regions, r1: Regions) -> bool {
    &&& r1.nodes() == r0.nodes()
    &&& r1.objects() == r0.objects()
    &&& r1.ledger() == r0.ledger()
    &&& r1.is_stopped() == r0.is_stopped()
}

/// The PCI table is as it was.
pub open spec fn pci_same(p0: Assignments, p1: Assignments) -> bool {
    &&& p1.slots() == p0.slots()
    &&& p1.root_bus() == p0.root_bus()
}

/// What taking one more name on `object` does: an authority and an
/// assignment count it, refusing rather than wrapping; a region's one
/// capability was counted when it was allocated and a second cannot be;
/// every other kind counts nothing.
pub open spec fn name_taken(
    r0: Regions,
    r1: Regions,
    p0: Assignments,
    p1: Assignments,
    object: Object,
    res: Result<(), NotGranted>,
) -> bool {
    match object {
        Object::MemoryAuthority { index, generation } => {
            let id = AuthorityId { index, generation };
            let n = r0.nodes()[index as int];
            &&& pci_same(p0, p1)
            &&& r1.objects() == r0.objects()
            &&& r1.ledger() == r0.ledger()
            &&& r1.is_stopped() == r0.is_stopped()
            &&& if resolves_authority(r0.nodes(), id) && n.names < usize::MAX {
                res == Ok::<(), NotGranted>(()) && r1.nodes() == r0.nodes().update(
                    index as int,
                    Authority { names: (n.names + 1) as usize, ..n },
                )
            } else {
                res == Err::<(), NotGranted>(NotGranted::NoRoom) && r1.nodes() == r0.nodes()
            }
        },
        Object::PciFunction { index, generation } => {
            let a = p0.slots()[index as int];
            &&& regions_same(r0, r1)
            &&& p1.root_bus() == p0.root_bus()
            &&& if p0.named(index, generation) is Some && a.names < u32::MAX {
                res == Ok::<(), NotGranted>(()) && p1.slots() == p0.slots().update(
                    index as int,
                    Assignment { names: (a.names + 1) as u32, ..a },
                )
            } else {
                res == Err::<(), NotGranted>(NotGranted::NoRoom) && p1.slots() == p0.slots()
            }
        },
        Object::Region { .. } => res == Err::<(), NotGranted>(NotGranted::NoRoom) && regions_same(r0, r1)
            && pci_same(p0, p1),
        Object::SharedRegion { .. } => res == Err::<(), NotGranted>(NotGranted::NoRoom) && regions_same(r0, r1)
            && pci_same(p0, p1),
        _ => res == Ok::<(), NotGranted>(()) && regions_same(r0, r1) && pci_same(p0, p1),
    }
}

/// What dropping one release of a region capability does to the tables.
pub open spec fn region_released(r0: Regions, r1: Regions, id: RegionId) -> bool {
    let i = id.index as int;
    let g = r0.objects()[i];
    let o2 = r0.objects().update(
        i,
        region_with(g, g.mutable, less_one(g.capabilities), g.writable_mappings, g.readable_mappings, g.holder),
    );
    &&& r1.ledger() == r0.ledger()
    &&& r1.is_stopped() == r0.is_stopped()
    &&& if !resolves_region(r0.objects(), id) {
        r1.objects() == r0.objects() && r1.nodes() == r0.nodes()
    } else {
        r1.objects() == settle_region_objects(o2, i) && r1.nodes() == settle_region_nodes(r0.nodes(), o2, i)
    }
}

/// What dropping one name of `object` does: the counted kinds lose one, and
/// the loss of the last one ends what it named; a name the tables do not
/// recognise changes nothing.
pub open spec fn name_dropped(r0: Regions, r1: Regions, p0: Assignments, p1: Assignments, object: Object) -> bool {
    match object {
        Object::MemoryAuthority { index, generation } => {
            let id = AuthorityId { index, generation };
            &&& pci_same(p0, p1)
            &&& r1.objects() == r0.objects()
            &&& r1.ledger() == r0.ledger()
            &&& r1.is_stopped() == r0.is_stopped()
            &&& released_name(
                r0.nodes(),
                r1.nodes(),
                id,
                if resolves_authority(r0.nodes(), id) {
                    Ok::<(), crate::region::Refusal>(())
                } else {
                    Err(crate::region::Refusal::NotFound)
                },
            )
        },
        Object::Region { index, generation } => region_released(r0, r1, RegionId { index, generation }) && pci_same(p0, p1),
        Object::SharedRegion { index, generation } => region_released(r0, r1, RegionId { index, generation })
            && pci_same(p0, p1),
        Object::PciFunction { index, generation } => {
            let a = p0.slots()[index as int];
            &&& regions_same(r0, r1)
            &&& p1.root_bus() == p0.root_bus()
            &&& if p0.named(index, generation) is Some && a.names > 0 {
                p1.slots() == p0.slots().update(index as int, settled(Assignment { names: (a.names - 1) as u32, ..a }))
            } else {
                p1.slots() == p0.slots()
            }
        },
        _ => regions_same(r0, r1) && pci_same(p0, p1),
    }
}

/// Whether an object names a plan, in either state.
pub open spec fn names_plan(o: Object) -> bool {
    o is LaunchPlanBuilder || o is LaunchPlan
}

/// Takes a name on what `object` names.
pub fn retain_capability(regions: &mut Regions, pci: &mut Assignments, object: Object) -> (r: Result<(), NotGranted>)
    requires
        old(regions).wf(),
        old(pci).wf(),
    ensures
        final(regions).wf(),
        final(pci).wf(),
        name_taken(*old(regions), *final(regions), *old(pci), *final(pci), object, r),
{
    match object {
        Object::MemoryAuthority { index, generation } => {
            let id = AuthorityId { index, generation };
            match regions.names(id) {
                Ok(n) => {
                    if n == usize::MAX {
                        return Err(NotGranted::NoRoom);
                    }
                },
                Err(_) => return Err(NotGranted::NoRoom),
            }
            match regions.retain(id) {
                Ok(()) => Ok(()),
                Err(_) => Err(NotGranted::NoRoom),
            }
        },
        Object::PciFunction { index, generation } => {
            match pci.retain(index, generation) {
                Ok(()) => Ok(()),
                Err(_) => Err(NotGranted::NoRoom),
            }
        },
        Object::Region { .. } => Err(NotGranted::NoRoom),
        Object::SharedRegion { .. } => Err(NotGranted::NoRoom),
        _ => Ok(()),
    }
}

/// The reference a plan entry holds on the object it names: the same door
/// as a capability entry's, for a plan entry and a capability entry are both
/// names for one object, and releasing either means the same to it.
pub fn retain_for_plan(regions: &mut Regions, pci: &mut Assignments, object: Object) -> (r: Result<(), NotGranted>)
    requires
        old(regions).wf(),
        old(pci).wf(),
    ensures
        final(regions).wf(),
        final(pci).wf(),
        name_taken(*old(regions), *final(regions), *old(pci), *final(pci), object, r),
{
    retain_capability(regions, pci, object)
}

/// And the release of it, once, when the plan is destroyed. A plan entry
/// never names a plan, so this only ever drops a counted name.
pub fn release_for_plan(regions: &mut Regions, pci: &mut Assignments, object: Object)
    requires
        old(regions).wf(),
        old(pci).wf(),
    ensures
        final(regions).wf(),
        final(pci).wf(),
        name_dropped(*old(regions), *final(regions), *old(pci), *final(pci), object),
{
    release_counted(regions, pci, object)
}

/// Drops a name on what `object` names. A plan is not among them: its one
/// name is its life, and [`release_capability`] ends it.
pub fn release_counted(regions: &mut Regions, pci: &mut Assignments, object: Object)
    requires
        old(regions).wf(),
        old(pci).wf(),
    ensures
        final(regions).wf(),
        final(pci).wf(),
        name_dropped(*old(regions), *final(regions), *old(pci), *final(pci), object),
{
    match object {
        Object::MemoryAuthority { index, generation } => {
            let _ = regions.release_name(AuthorityId { index, generation });
        },
        Object::Region { index, generation } => {
            let _ = regions.release(RegionId { index, generation });
        },
        Object::SharedRegion { index, generation } => {
            let _ = regions.release(RegionId { index, generation });
        },
        Object::PciFunction { index, generation } => {
            let _ = pci.release(index, generation);
        },
        _ => {},
    }
}


/// What the nucleus knows of one process slot, for the liveness question a
/// process or reply capability is asked.
#[derive(Clone, Copy, Debug, PartialEq, Eq, Structural)]
pub struct ProcessFacts {
    /// The generation of the process in the slot, while one lives there.
    pub generation: Option<u32>,
    /// The token of the call the slot's process is waiting on an answer to.
    pub reply_token: Option<u32>,
}

/// Whether the object a capability names is still usable authority.
pub open spec fn object_live(o: Object, regions: Regions, pci: Assignments, plans: Seq<PlanState>, facts: Seq<ProcessFacts>) -> bool {
    match o {
        Object::Vacant => false,
        Object::Endpoint(_) => true,
        Object::Process { slot, generation } => slot < facts.len() && facts[slot as int].generation == Some(generation),
        Object::Reply { caller, generation } => caller < facts.len() && facts[caller as int].reply_token == Some(generation),
        Object::MemoryAuthority { index, generation } => resolves_authority(regions.nodes(), AuthorityId { index, generation }),
        Object::Region { index, generation } => resolves_region(regions.objects(), RegionId { index, generation }),
        Object::SharedRegion { index, generation } => resolves_region(regions.objects(), RegionId { index, generation }),
        Object::LaunchPlanBuilder { index, generation } => plan_live(plans, PlanId { index, generation }),
        Object::LaunchPlan { index, generation } => plan_live(plans, PlanId { index, generation }),
        Object::PciBus(index) => index == ROOT_BUS && pci.root_bus() is Some,
        Object::PciFunction { index, generation } => pci.named(index, generation) is Some,
    }
}

/// Whether the object a capability names is still usable authority: an
/// object can outlive the last capability that named it without being
/// something a caller may still act through.
pub fn object_is_live(o: Object, regions: &Regions, pci: &Assignments, plans: &Plans, facts: &[ProcessFacts]) -> (b: bool)
    requires
        regions.wf(),
        pci.wf(),
        plans.wf(),
    ensures
        b == object_live(o, *regions, *pci, plans.states(), facts@),
{
    match o {
        Object::Vacant => false,
        Object::Endpoint(_) => true,
        Object::Process { slot, generation } => {
            let i = slot as usize;
            i < facts.len() && facts[i].generation == Some(generation)
        },
        Object::Reply { caller, generation } => {
            let i = caller as usize;
            i < facts.len() && facts[i].reply_token == Some(generation)
        },
        Object::MemoryAuthority { index, generation } => regions.remaining(AuthorityId { index, generation }).is_ok(),
        Object::Region { index, generation } => regions.mode(RegionId { index, generation }).is_ok(),
        Object::SharedRegion { index, generation } => regions.mode(RegionId { index, generation }).is_ok(),
        Object::LaunchPlanBuilder { index, generation } => plans.is_live(PlanId { index, generation }),
        Object::LaunchPlan { index, generation } => plans.is_live(PlanId { index, generation }),
        Object::PciBus(index) => pci.bus_is_live(index),
        Object::PciFunction { index, generation } => pci.is_live(index, generation),
    }
}

/// What releasing the one capability naming `object` does to the object
/// tables: a plan is destroyed with every name its entries held, and any
/// other kind loses one name.
pub open spec fn object_released(
    r0: Regions,
    r1: Regions,
    p0: Assignments,
    p1: Assignments,
    s0: Seq<PlanState>,
    s1: Seq<PlanState>,
    object: Object,
) -> bool {
    match object {
        Object::LaunchPlanBuilder { index, generation } => destroyed(s0, s1, r0, r1, p0, p1, PlanId { index, generation }),
        Object::LaunchPlan { index, generation } => destroyed(s0, s1, r0, r1, p0, p1, PlanId { index, generation }),
        _ => name_dropped(r0, r1, p0, p1, object) && s1 == s0,
    }
}

/// Drops the reference a destroyed capability entry held. The loss of the
/// one name a plan has is the end of the plan.
pub fn release_capability(regions: &mut Regions, pci: &mut Assignments, plans: &mut Plans, object: Object)
    requires
        old(regions).wf(),
        old(pci).wf(),
        old(plans).wf(),
    ensures
        final(regions).wf(),
        final(pci).wf(),
        final(plans).wf(),
        object_released(*old(regions), *final(regions), *old(pci), *final(pci), old(plans).states(), final(plans).states(), object),
{
    match object {
        Object::LaunchPlanBuilder { index, generation } => plans.destroy(regions, pci, PlanId { index, generation }),
        Object::LaunchPlan { index, generation } => plans.destroy(regions, pci, PlanId { index, generation }),
        _ => release_counted(regions, pci, object),
    }
}

/// One entry: object, rights, scope and generation.
#[derive(Clone, Copy, Debug, PartialEq, Eq, Structural)]
pub struct Entry {
    pub object: Object,
    pub rights: u32,
    pub scope: u64,
    pub generation: u32,
}

/// A slot nobody has been given, at generation one: a handle of all zeros
/// must name nothing anywhere.
pub open spec fn empty_entry() -> Entry {
    Entry { object: Object::Vacant, rights: 0, scope: 0, generation: 1 }
}

/// Where process `p`'s entry `i` lives in the flat table.
pub open spec fn slot(p: int, i: int) -> int {
    p * 16 + i
}

/// How many entries the whole table has.
pub const TABLE_SLOTS: usize = 64;

/// The entry a handle names for a process, or why it names none: an index
/// outside the table is a bad handle; a stale generation or an empty slot
/// is no capability.
pub open spec fn lookup(t: Seq<Entry>, process: int, handle: u64) -> Result<Entry, Refused> {
    let (i, g) = parts_of(handle);
    if process >= MAX_PROCESSES || i >= MAX_CAPABILITIES {
        Err(Refused::BadHandle)
    } else if t[slot(process, i)].generation != g || t[slot(process, i)].object is Vacant {
        Err(Refused::NoCapability)
    } else {
        Ok(t[slot(process, i)])
    }
}

/// Whether process `process`'s table holds nothing at all.
pub open spec fn holds_nothing(t: Seq<Entry>, process: int) -> bool {
    forall|i: int| 0 <= i < MAX_CAPABILITIES ==> #[trigger] t[slot(process, i)].object is Vacant
}

/// Whether process `p` holds receive rights on endpoint `e`.
pub open spec fn receives(t: Seq<Entry>, p: int, e: u32) -> bool {
    exists|i: int| 0 <= i < MAX_CAPABILITIES && #[trigger] t[slot(p, i)].object == Object::Endpoint(e)
        && t[slot(p, i)].rights & RIGHT_RECEIVE != 0
}

/// The lowest process from `p` on that holds receive rights on `e`.
pub open spec fn receiver_from(t: Seq<Entry>, e: u32, p: int) -> Option<int>
    decreases MAX_PROCESSES - p,
{
    if p < 0 || p >= MAX_PROCESSES {
        None
    } else if receives(t, p, e) {
        Some(p)
    } else {
        receiver_from(t, e, p + 1)
    }
}

/// The lowest empty entry of process `p`'s table from `i` on.
pub open spec fn first_vacant(t: Seq<Entry>, p: int, i: int) -> Option<int>
    decreases MAX_CAPABILITIES - i,
{
    if i < 0 || i >= MAX_CAPABILITIES {
        None
    } else if t[slot(p, i)].object is Vacant {
        Some(i)
    } else {
        first_vacant(t, p, i + 1)
    }
}

/// How many of process `p`'s first `n` entries satisfy `f`.
pub open spec fn count_in_row(t: Seq<Entry>, p: int, n: int, f: spec_fn(Entry) -> bool) -> int
    decreases n,
{
    if n <= 0 {
        0
    } else {
        count_in_row(t, p, n - 1, f) + if f(t[slot(p, n - 1)]) { 1int } else { 0int }
    }
}

/// Whether granting `object` to `process` is refused by the one-receiver
/// rule: another process already receives on that endpoint.
pub open spec fn receiver_conflict(t: Seq<Entry>, process: int, object: Object, rights: u32) -> bool {
    rights & RIGHT_RECEIVE != 0 && (object matches Object::Endpoint(e) && (receiver_from(t, e, 0) matches Some(h)
        && h != process))
}

/// What `grant(process, object, rights, scope)` does: the refusals in the
/// order they are asked, then the name, then the entry in the lowest empty
/// slot, whose handle is returned.
pub open spec fn granted(
    t0: Seq<Entry>,
    t1: Seq<Entry>,
    r0: Regions,
    r1: Regions,
    p0: Assignments,
    p1: Assignments,
    process: int,
    object: Object,
    rights: u32,
    scope: u64,
    res: Result<u64, NotGranted>,
) -> bool {
    if process >= MAX_PROCESSES {
        res == Err::<u64, NotGranted>(NotGranted::NoRoom) && t1 == t0 && r1 == r0 && p1 == p0
    } else if receiver_conflict(t0, process, object, rights) {
        res == Err::<u64, NotGranted>(NotGranted::ReceiverExists) && t1 == t0 && r1 == r0 && p1 == p0
    } else if first_vacant(t0, process, 0) is None {
        res == Err::<u64, NotGranted>(NotGranted::NoRoom) && t1 == t0 && r1 == r0 && p1 == p0
    } else {
        let i = first_vacant(t0, process, 0).unwrap();
        let g = t0[slot(process, i)].generation;
        exists|taken: Result<(), NotGranted>| {
            &&& name_taken(r0, r1, p0, p1, object, taken)
            &&& taken is Err ==> res == Err::<u64, NotGranted>(NotGranted::NoRoom) && t1 == t0
            &&& taken is Ok ==> res == Ok::<u64, NotGranted>(handle_of(i, g)) && t1 == t0.update(
                slot(process, i),
                Entry { object, rights, scope, generation: g },
            )
        }
    }
}

/// No endpoint has receive rights held by two different processes.
pub open spec fn one_receiver(t: Seq<Entry>) -> bool {
    forall|p: int, q: int, e: u32|
        0 <= p < MAX_PROCESSES && 0 <= q < MAX_PROCESSES && #[trigger] receives(t, p, e) && #[trigger] receives(t, q, e)
            ==> p == q
}

/// Every process's capability table.
pub struct Capabilities {
    entries: Vec<Entry>,
}

impl Capabilities {
    /// Every entry, process by process.
    pub closed spec fn table(&self) -> Seq<Entry> {
        self.entries@
    }

    /// One row of sixteen entries per process slot.
    pub open spec fn wf(&self) -> bool {
        self.table().len() == TABLE_SLOTS
    }

    /// Every table empty, every generation one.
    pub fn new() -> (c: Capabilities)
        ensures
            c.wf(),
            c.table() == Seq::new(TABLE_SLOTS as nat, |k: int| empty_entry()),
    {
        let mut entries: Vec<Entry> = Vec::new();
        let mut k: usize = 0;
        while k < TABLE_SLOTS
            invariant
                k <= TABLE_SLOTS,
                entries@ == Seq::new(k as nat, |j: int| empty_entry()),
            decreases TABLE_SLOTS - k,
        {
            entries.push(Entry { object: Object::Vacant, rights: 0, scope: 0, generation: 1 });
            k = k + 1;
            proof {
                assert(entries@ =~= Seq::new(k as nat, |j: int| empty_entry()));
            }
        }
        Capabilities { entries }
    }

    /// The entry a handle names, with its place in the flat table.
    fn entry_at(&self, process: usize, handle: u64) -> (r: Result<(usize, usize), Refused>)
        requires
            self.wf(),
        ensures
            match lookup(self.table(), process as int, handle) {
                Err(e) => r == Err::<(usize, usize), Refused>(e),
                Ok(_) => r is Ok && r.unwrap().0 as int == parts_of(handle).0 && r.unwrap().1 as int == slot(
                    process as int,
                    parts_of(handle).0,
                ),
            },
    {
        let (index, generation) = parts(handle);
        if process >= MAX_PROCESSES || index >= MAX_CAPABILITIES {
            return Err(Refused::BadHandle);
        }
        let at = process * 16 + index;
        let entry = self.entries[at];
        if entry.generation != generation {
            return Err(Refused::NoCapability);
        }
        if let Object::Vacant = entry.object {
            return Err(Refused::NoCapability);
        }
        Ok((index, at))
    }

    /// Whether process `process`'s table holds anything at all.
    fn holds_anything(&self, process: usize) -> (b: bool)
        requires
            self.wf(),
            process < MAX_PROCESSES,
        ensures
            b == !holds_nothing(self.table(), process as int),
    {
        let mut i: usize = 0;
        while i < MAX_CAPABILITIES
            invariant
                self.wf(),
                process < MAX_PROCESSES,
                i <= MAX_CAPABILITIES,
                forall|j: int| 0 <= j < i ==> #[trigger] self.table()[slot(process as int, j)].object is Vacant,
            decreases MAX_CAPABILITIES - i,
        {
            if let Object::Vacant = self.entries[process * 16 + i].object {
            } else {
                assert(!(self.table()[slot(process as int, i as int)].object is Vacant));
                return true;
            }
            i = i + 1;
        }
        false
    }

    /// Resolves a handle to what it names, in the refusal order: index
    /// bounds, then generation, then type, then rights, then whether the
    /// object is still usable authority. A process whose table holds nothing
    /// gets `BadHandle` at every index: there is no index inside a table of
    /// size zero, and a process that holds nothing names nothing.
    pub fn resolve(
        &self,
        regions: &Regions,
        pci: &Assignments,
        plans: &Plans,
        facts: &[ProcessFacts],
        process: usize,
        handle: u64,
        rights: u32,
    ) -> (r: Result<Object, Refused>)
        requires
            self.wf(),
            regions.wf(),
            pci.wf(),
            plans.wf(),
        ensures
            r == (if process < MAX_PROCESSES && holds_nothing(self.table(), process as int) {
                Err(Refused::BadHandle)
            } else {
                match lookup(self.table(), process as int, handle) {
                    Err(e) => Err(e),
                    Ok(e) => if e.rights & rights != rights || !object_live(e.object, *regions, *pci, plans.states(), facts@) {
                        Err(Refused::NoCapability)
                    } else {
                        Ok(e.object)
                    },
                }
            }),
    {
        if process < MAX_PROCESSES && !self.holds_anything(process) {
            return Err(Refused::BadHandle);
        }
        let (_, at) = self.entry_at(process, handle)?;
        let entry = self.entries[at];
        if entry.rights & rights != rights {
            return Err(Refused::NoCapability);
        }
        if !object_is_live(entry.object, regions, pci, plans, facts) {
            return Err(Refused::NoCapability);
        }
        Ok(entry.object)
    }

    /// The rights a handle carries, or none when it names nothing.
    pub fn rights_of(&self, process: usize, handle: u64) -> (r: u32)
        requires
            self.wf(),
        ensures
            r == (match lookup(self.table(), process as int, handle) {
                Err(_) => 0u32,
                Ok(e) => e.rights,
            }),
    {
        match self.entry_at(process, handle) {
            Ok((_, at)) => self.entries[at].rights,
            Err(_) => 0,
        }
    }

    /// Which process holds receive rights on an endpoint, if one does: the
    /// lowest, were there ever two.
    fn receiver_of(&self, endpoint: u32) -> (r: Option<usize>)
        requires
            self.wf(),
        ensures
            match receiver_from(self.table(), endpoint, 0) {
                Some(p) => r is Some && r.unwrap() as int == p,
                None => r is None,
            },
    {
        let mut p: usize = 0;
        while p < MAX_PROCESSES
            invariant
                self.wf(),
                p <= MAX_PROCESSES,
                receiver_from(self.table(), endpoint, 0) == receiver_from(self.table(), endpoint, p as int),
            decreases MAX_PROCESSES - p,
        {
            let mut i: usize = 0;
            while i < MAX_CAPABILITIES
                invariant
                    self.wf(),
                    p < MAX_PROCESSES,
                    i <= MAX_CAPABILITIES,
                    receiver_from(self.table(), endpoint, 0) == receiver_from(self.table(), endpoint, p as int),
                    forall|j: int| 0 <= j < i ==> !(#[trigger] self.table()[slot(p as int, j)].object == Object::Endpoint(endpoint)
                        && self.table()[slot(p as int, j)].rights & RIGHT_RECEIVE != 0),
                decreases MAX_CAPABILITIES - i,
            {
                let e = self.entries[p * 16 + i];
                if e.object == Object::Endpoint(endpoint) && e.rights & RIGHT_RECEIVE != 0 {
                    proof {
                        assert(self.table()[slot(p as int, i as int)] == e);
                        assert(receives(self.table(), p as int, endpoint));
                    }
                    return Some(p);
                }
                i = i + 1;
            }
            proof {
                assert(!receives(self.table(), p as int, endpoint));
            }
            p = p + 1;
        }
        None
    }

    /// The lowest empty entry of a process's table.
    fn vacancy(&self, process: usize) -> (r: Option<usize>)
        requires
            self.wf(),
            process < MAX_PROCESSES,
        ensures
            match first_vacant(self.table(), process as int, 0) {
                Some(i) => r is Some && r.unwrap() as int == i,
                None => r is None,
            },
            r matches Some(i) ==> i < MAX_CAPABILITIES,
    {
        let mut i: usize = 0;
        while i < MAX_CAPABILITIES
            invariant
                self.wf(),
                process < MAX_PROCESSES,
                i <= MAX_CAPABILITIES,
                first_vacant(self.table(), process as int, 0) == first_vacant(self.table(), process as int, i as int),
            decreases MAX_CAPABILITIES - i,
        {
            if let Object::Vacant = self.entries[process * 16 + i].object {
                return Some(i);
            }
            i = i + 1;
        }
        None
    }

    /// Gives a process a capability, and returns the handle it will name it
    /// by. The only door authority comes through, so the one-receiver rule
    /// is kept here; the name is taken last of what can fail, so the entry
    /// and the name appear together.
    pub fn grant(
        &mut self,
        regions: &mut Regions,
        pci: &mut Assignments,
        process: usize,
        object: Object,
        rights: u32,
        scope: u64,
    ) -> (r: Result<u64, NotGranted>)
        requires
            old(self).wf(),
            old(regions).wf(),
            old(pci).wf(),
        ensures
            final(self).wf(),
            final(regions).wf(),
            final(pci).wf(),
            granted(
                old(self).table(),
                final(self).table(),
                *old(regions),
                *final(regions),
                *old(pci),
                *final(pci),
                process as int,
                object,
                rights,
                scope,
                r,
            ),
            one_receiver(old(self).table()) ==> one_receiver(final(self).table()),
            r matches Ok(h) ==> (!(object is Vacant) ==> (lookup(final(self).table(), process as int, h) matches Ok(e)
                && e.object == object && e.rights == rights && e.scope == scope)),
    {
        let ghost t0 = self.table();
        if process >= MAX_PROCESSES {
            return Err(NotGranted::NoRoom);
        }
        if rights & RIGHT_RECEIVE != 0 {
            if let Object::Endpoint(endpoint) = object {
                if let Some(holder) = self.receiver_of(endpoint) {
                    if holder != process {
                        return Err(NotGranted::ReceiverExists);
                    }
                }
            }
        }
        let index = match self.vacancy(process) {
            Some(i) => i,
            None => return Err(NotGranted::NoRoom),
        };
        let taken = retain_capability(regions, pci, object);
        if taken.is_err() {
            return Err(NotGranted::NoRoom);
        }
        let at = process * 16 + index;
        let generation = self.entries[at].generation;
        self.entries.set(at, Entry { object, rights, scope, generation });
        proof {
            lemma_grant_keeps_one_receiver(t0, self.table(), process as int, index as int, object, rights, scope);
            lemma_handle_parts(index as u64, generation);
        }
        Ok(handle(index, generation))
    }

    /// Empties one entry at the next generation, so every copy of the
    /// handle that named it is stale.
    fn vacate(&mut self, at: usize)
        requires
            old(self).wf(),
            at < TABLE_SLOTS,
        ensures
            final(self).wf(),
            final(self).table() == old(self).table().update(
                at as int,
                Entry { object: Object::Vacant, rights: 0, scope: 0, generation: old(self).table()[at as int].generation.wrapping_add(1) },
            ),
    {
        let g = self.entries[at].generation;
        self.entries.set(at, Entry { object: Object::Vacant, rights: 0, scope: 0, generation: g.wrapping_add(1) });
    }

    /// Releases a handle and makes every copy of it stale; the name goes
    /// with the entry. A handle that names nothing is a refusal.
    pub fn release(
        &mut self,
        regions: &mut Regions,
        pci: &mut Assignments,
        plans: &mut Plans,
        process: usize,
        handle: u64,
    ) -> (r: Result<(), Refused>)
        requires
            old(self).wf(),
            old(regions).wf(),
            old(pci).wf(),
            old(plans).wf(),
        ensures
            final(self).wf(),
            final(regions).wf(),
            final(pci).wf(),
            final(plans).wf(),
            match lookup(old(self).table(), process as int, handle) {
                Err(e) => r == Err::<(), Refused>(e) && final(self).table() == old(self).table()
                    && *final(regions) == *old(regions) && *final(pci) == *old(pci) && *final(plans) == *old(plans),
                Ok(e) => {
                    &&& r == Ok::<(), Refused>(())
                    &&& final(self).table() == old(self).table().update(
                        slot(process as int, parts_of(handle).0),
                        Entry { object: Object::Vacant, rights: 0, scope: 0, generation: e.generation.wrapping_add(1) },
                    )
                    &&& object_released(
                        *old(regions),
                        *final(regions),
                        *old(pci),
                        *final(pci),
                        old(plans).states(),
                        final(plans).states(),
                        e.object,
                    )
                },
            },
            r is Ok ==> lookup(final(self).table(), process as int, handle) == Err::<Entry, Refused>(Refused::NoCapability),
            one_receiver(old(self).table()) ==> one_receiver(final(self).table()),
    {
        let (_, at) = self.entry_at(process, handle)?;
        let object = self.entries[at].object;
        let ghost t0 = self.table();
        self.vacate(at);
        proof {
            lemma_vacate_keeps_one_receiver(t0, self.table(), at as int);
        }
        release_capability(regions, pci, plans, object);
        Ok(())
    }

    /// Replaces one prevalidated entry with what it became, in the same
    /// slot, under a new generation, taking and dropping no name: the shape
    /// a consuming transition needs.
    pub fn replace_in_place(&mut self, process: usize, handle: u64, object: Object, rights: u32, scope: u64) -> (r: Result<u64, Refused>)
        requires
            old(self).wf(),
        ensures
            final(self).wf(),
            match lookup(old(self).table(), process as int, handle) {
                Err(e) => r == Err::<u64, Refused>(e) && final(self).table() == old(self).table(),
                Ok(e) => {
                    let i = parts_of(handle).0;
                    let g = e.generation.wrapping_add(1);
                    &&& r == Ok::<u64, Refused>(handle_of(i, g))
                    &&& final(self).table() == old(self).table().update(
                        slot(process as int, i),
                        Entry { object, rights, scope, generation: g },
                    )
                },
            },
            r is Ok ==> lookup(final(self).table(), process as int, handle) == Err::<Entry, Refused>(Refused::NoCapability),
    {
        let (index, at) = self.entry_at(process, handle)?;
        let g = self.entries[at].generation.wrapping_add(1);
        self.entries.set(at, Entry { object, rights, scope, generation: g });
        Ok(self::handle(index, g))
    }

    /// How many of a process's entries name one object.
    pub fn names_held(&self, process: usize, object: Object) -> (n: usize)
        requires
            self.wf(),
        ensures
            n == if process >= MAX_PROCESSES || object is Vacant {
                0
            } else {
                count_in_row(self.table(), process as int, MAX_CAPABILITIES as int, |e: Entry| (e.object == object) == true)
            },
    {
        if process >= MAX_PROCESSES {
            return 0;
        }
        if let Object::Vacant = object {
            return 0;
        }
        self.count(process, object, true)
    }

    /// How many of a process's entries name `object` (when `same`), or do
    /// not (otherwise).
    fn count(&self, process: usize, object: Object, same: bool) -> (n: usize)
        requires
            self.wf(),
            process < MAX_PROCESSES,
        ensures
            n == count_in_row(self.table(), process as int, MAX_CAPABILITIES as int, |e: Entry| (e.object == object) == same),
    {
        let mut n: usize = 0;
        let mut i: usize = 0;
        while i < MAX_CAPABILITIES
            invariant
                self.wf(),
                process < MAX_PROCESSES,
                i <= MAX_CAPABILITIES,
                n <= i,
                n == count_in_row(self.table(), process as int, i as int, |e: Entry| (e.object == object) == same),
            decreases MAX_CAPABILITIES - i,
        {
            if (self.entries[process * 16 + i].object == object) == same {
                n = n + 1;
            }
            i = i + 1;
        }
        n
    }

    /// How many free slots a process's table still has.
    pub fn room(&self, process: usize) -> (n: usize)
        requires
            self.wf(),
        ensures
            n == if process >= MAX_PROCESSES {
                0
            } else {
                count_in_row(self.table(), process as int, MAX_CAPABILITIES as int, |e: Entry| (e.object == Object::Vacant) == true)
            },
    {
        if process >= MAX_PROCESSES {
            return 0;
        }
        self.count(process, Object::Vacant, true)
    }

    /// How many capabilities a process holds.
    pub fn held(&self, process: usize) -> (n: usize)
        requires
            self.wf(),
        ensures
            n == if process >= MAX_PROCESSES {
                0
            } else {
                count_in_row(self.table(), process as int, MAX_CAPABILITIES as int, |e: Entry| (e.object == Object::Vacant) == false)
            },
    {
        if process >= MAX_PROCESSES {
            return 0;
        }
        self.count(process, Object::Vacant, false)
    }

    /// Whether a process's table has room for one more capability.
    pub fn has_room(&self, process: usize) -> (b: bool)
        requires
            self.wf(),
        ensures
            b == (process < MAX_PROCESSES && first_vacant(self.table(), process as int, 0) is Some),
    {
        if process >= MAX_PROCESSES {
            return false;
        }
        self.vacancy(process).is_some()
    }

    /// Produces a capability whose rights are the intersection of those
    /// asked for with those held, at the same scope, naming the same object.
    /// Refused on an affine object, on an empty intersection and on any
    /// other scope.
    pub fn attenuate(
        &mut self,
        regions: &mut Regions,
        pci: &mut Assignments,
        process: usize,
        handle: u64,
        rights: u32,
        scope: u64,
    ) -> (r: Result<u64, Refused>)
        requires
            old(self).wf(),
            old(regions).wf(),
            old(pci).wf(),
        ensures
            final(self).wf(),
            final(regions).wf(),
            final(pci).wf(),
            lookup(old(self).table(), process as int, handle) matches Ok(e) && (e.object is Region || e.object is LaunchPlanBuilder
                || e.object is LaunchPlan) ==> r == Err::<u64, Refused>(Refused::NoCapability) && final(self).table() == old(
                self,
            ).table() && *final(regions) == *old(regions) && *final(pci) == *old(pci),
            match lookup(old(self).table(), process as int, handle) {
                Err(e) => r == Err::<u64, Refused>(e) && final(self).table() == old(self).table()
                    && *final(regions) == *old(regions) && *final(pci) == *old(pci),
                Ok(e) => if affine(e.object) || e.rights & rights == 0 || scope != e.scope {
                    r == Err::<u64, Refused>(Refused::NoCapability) && final(self).table() == old(self).table()
                        && *final(regions) == *old(regions) && *final(pci) == *old(pci)
                } else {
                    exists|g: Result<u64, NotGranted>| {
                        &&& granted(
                            old(self).table(),
                            final(self).table(),
                            *old(regions),
                            *final(regions),
                            *old(pci),
                            *final(pci),
                            process as int,
                            e.object,
                            e.rights & rights,
                            scope,
                            g,
                        )
                        &&& r == (match g {
                            Ok(h) => Ok::<u64, Refused>(h),
                            Err(_) => Err(Refused::NoCapability),
                        })
                    }
                },
            },
            one_receiver(old(self).table()) ==> one_receiver(final(self).table()),
    {
        let (_, at) = self.entry_at(process, handle)?;
        let entry = self.entries[at];
        if entry.object.is_affine() {
            return Err(Refused::NoCapability);
        }
        let narrowed = entry.rights & rights;
        if narrowed == 0 {
            return Err(Refused::NoCapability);
        }
        if scope != entry.scope {
            return Err(Refused::NoCapability);
        }
        let g = self.grant(regions, pci, process, entry.object, narrowed, scope);
        match g {
            Ok(h) => Ok(h),
            Err(_) => Err(Refused::NoCapability),
        }
    }

    /// Empties a process's table when it ends: one release per entry
    /// actually destroyed, in slot order, each at its next generation.
    pub fn clear(&mut self, regions: &mut Regions, pci: &mut Assignments, plans: &mut Plans, process: usize)
        requires
            old(self).wf(),
            old(regions).wf(),
            old(pci).wf(),
            old(plans).wf(),
        ensures
            final(self).wf(),
            final(regions).wf(),
            final(pci).wf(),
            final(plans).wf(),
            process >= MAX_PROCESSES ==> final(self).table() == old(self).table() && *final(regions) == *old(regions)
                && *final(pci) == *old(pci) && *final(plans) == *old(plans),
            process < MAX_PROCESSES ==> {
                &&& final(self).table() == cleared(old(self).table(), process as int)
                &&& released_all(
                    *old(regions),
                    *final(regions),
                    *old(pci),
                    *final(pci),
                    old(plans).states(),
                    final(plans).states(),
                    row_objects(old(self).table(), process as int),
                )
            },
            one_receiver(old(self).table()) ==> one_receiver(final(self).table()),
    {
        if process >= MAX_PROCESSES {
            return;
        }
        let ghost t0 = self.table();
        let ghost objs = row_objects(t0, process as int);
        let ghost mut rs: Seq<Regions> = seq![*regions];
        let ghost mut ps: Seq<Assignments> = seq![*pci];
        let ghost mut ss: Seq<Seq<PlanState>> = seq![plans.states()];
        let ghost r0 = *regions;
        let ghost p0 = *pci;
        let ghost s0 = plans.states();
        let mut i: usize = 0;
        while i < MAX_CAPABILITIES
            invariant
                self.wf(),
                regions.wf(),
                pci.wf(),
                plans.wf(),
                process < MAX_PROCESSES,
                i <= MAX_CAPABILITIES,
                objs == row_objects(t0, process as int),
                self.table() == cleared_upto(t0, process as int, i as int),
                release_chain(rs, ps, ss, objs.take(i as int)),
                rs[0] == r0,
                ps[0] == p0,
                ss[0] == s0,
                rs.last() == *regions,
                ps.last() == *pci,
                ss.last() == plans.states(),
                one_receiver(t0) ==> one_receiver(self.table()),
            decreases MAX_CAPABILITIES - i,
        {
            let at = process * 16 + i;
            let object = self.entries[at].object;
            proof {
                assert(object == objs[i as int]);
            }
            let ghost t_before = self.table();
            if let Object::Vacant = object {
            } else {
                self.vacate(at);
                proof {
                    lemma_vacate_keeps_one_receiver(t_before, self.table(), at as int);
                }
                release_capability(regions, pci, plans, object);
            }
            proof {
                let objs2 = objs.take(i as int + 1);
                assert(objs2 =~= objs.take(i as int).push(objs[i as int]));
                rs = rs.push(*regions);
                ps = ps.push(*pci);
                ss = ss.push(plans.states());
                assert forall|j: int| 0 <= j < objs2.len() implies object_released(
                    #[trigger] rs[j],
                    rs[j + 1],
                    ps[j],
                    ps[j + 1],
                    ss[j],
                    ss[j + 1],
                    objs2[j],
                ) by {
                    if j < i {
                        assert(objs2[j] == objs.take(i as int)[j]);
                    }
                }
                assert(self.table() =~= cleared_upto(t0, process as int, i as int + 1));
            }
            i = i + 1;
        }
        proof {
            assert(objs.take(MAX_CAPABILITIES as int) =~= objs);
            assert(self.table() =~= cleared(t0, process as int));
        }
    }
}

/// The objects a process's table names, slot by slot.
pub open spec fn row_objects(t: Seq<Entry>, p: int) -> Seq<Object> {
    Seq::new(MAX_CAPABILITIES as nat, |i: int| t[slot(p, i)].object)
}

/// An entry as `clear` leaves it: emptied at the next generation if it
/// held anything.
pub open spec fn cleared_entry(e: Entry) -> Entry {
    if e.object is Vacant {
        e
    } else {
        Entry { object: Object::Vacant, rights: 0, scope: 0, generation: e.generation.wrapping_add(1) }
    }
}

/// The table with process `p`'s first `n` entries cleared.
pub open spec fn cleared_upto(t: Seq<Entry>, p: int, n: int) -> Seq<Entry> {
    Seq::new(t.len(), |k: int| if p * 16 <= k < p * 16 + n { cleared_entry(t[k]) } else { t[k] })
}

/// The table with process `p`'s row cleared.
pub open spec fn cleared(t: Seq<Entry>, p: int) -> Seq<Entry> {
    cleared_upto(t, p, MAX_CAPABILITIES as int)
}

/// Each of `objs` released in turn.
pub open spec fn release_chain(rs: Seq<Regions>, ps: Seq<Assignments>, ss: Seq<Seq<PlanState>>, objs: Seq<Object>) -> bool {
    &&& rs.len() == objs.len() + 1
    &&& ps.len() == objs.len() + 1
    &&& ss.len() == objs.len() + 1
    &&& forall|k: int| 0 <= k < objs.len() ==> object_released(#[trigger] rs[k], rs[k + 1], ps[k], ps[k + 1], ss[k], ss[k + 1], objs[k])
}

/// The tables after each of `objs` is released, one after another.
pub open spec fn released_all(
    r0: Regions,
    r1: Regions,
    p0: Assignments,
    p1: Assignments,
    s0: Seq<PlanState>,
    s1: Seq<PlanState>,
    objs: Seq<Object>,
) -> bool {
    exists|rs: Seq<Regions>, ps: Seq<Assignments>, ss: Seq<Seq<PlanState>>|
        release_chain(rs, ps, ss, objs) && rs[0] == r0 && ps[0] == p0 && ss[0] == s0 && rs.last() == r1 && ps.last() == p1
            && ss.last() == s1
}

/// Emptying an entry never gives anyone receive rights, so the
/// one-receiver rule survives it.
proof fn lemma_vacate_keeps_one_receiver(t0: Seq<Entry>, t1: Seq<Entry>, at: int)
    requires
        t0.len() == TABLE_SLOTS,
        0 <= at < TABLE_SLOTS,
        t1 == t0.update(at, Entry { object: Object::Vacant, rights: 0, scope: 0, generation: t0[at].generation.wrapping_add(1) }),
    ensures
        one_receiver(t0) ==> one_receiver(t1),
        forall|p: int, e: u32| 0 <= p < MAX_PROCESSES && #[trigger] receives(t1, p, e) ==> receives(t0, p, e),
{
    assert forall|p: int, e: u32| 0 <= p < MAX_PROCESSES && #[trigger] receives(t1, p, e) implies receives(t0, p, e) by {
        let j = choose|j: int| 0 <= j < MAX_CAPABILITIES && #[trigger] t1[slot(p, j)].object == Object::Endpoint(e)
            && t1[slot(p, j)].rights & RIGHT_RECEIVE != 0;
        assert(slot(p, j) != at);
        assert(t0[slot(p, j)] == t1[slot(p, j)]);
    }
}

/// Writing an entry into process `p`'s table keeps the one-receiver rule,
/// provided the entry claims no endpoint another process receives on.
pub proof fn lemma_grant_keeps_one_receiver(
    t0: Seq<Entry>,
    t1: Seq<Entry>,
    process: int,
    i: int,
    object: Object,
    rights: u32,
    scope: u64,
)
    requires
        t0.len() == TABLE_SLOTS,
        0 <= process < MAX_PROCESSES,
        0 <= i < MAX_CAPABILITIES,
        t1 == t0.update(slot(process, i), Entry { object, rights, scope, generation: t0[slot(process, i)].generation }),
        !receiver_conflict(t0, process, object, rights),
    ensures
        one_receiver(t0) ==> one_receiver(t1),
{
    if one_receiver(t0) {
        assert forall|p: int, q: int, e: u32|
            0 <= p < MAX_PROCESSES && 0 <= q < MAX_PROCESSES && #[trigger] receives(t1, p, e) && #[trigger] receives(t1, q, e)
            implies p == q by {
            lemma_receives_after_write(t0, t1, process, i, p, e);
            lemma_receives_after_write(t0, t1, process, i, q, e);
            if p != q {
                let new_claim = object == Object::Endpoint(e) && rights & RIGHT_RECEIVE != 0;
                if new_claim {
                    lemma_receiver_from_finds(t0, e, 0);
                    if p != process {
                        assert(receives(t0, p, e));
                    }
                    if q != process {
                        assert(receives(t0, q, e));
                    }
                }
            }
        }
    }
}

/// Whether a process receives on `e` after one of its entries was
/// rewritten: only the rewritten process can change, and only by what was
/// written or what was there.
proof fn lemma_receives_after_write(t0: Seq<Entry>, t1: Seq<Entry>, process: int, i: int, p: int, e: u32)
    requires
        t0.len() == TABLE_SLOTS,
        0 <= process < MAX_PROCESSES,
        0 <= i < MAX_CAPABILITIES,
        0 <= p < MAX_PROCESSES,
        t1.len() == t0.len(),
        forall|k: int| 0 <= k < t0.len() && k != slot(process, i) ==> t1[k] == t0[k],
    ensures
        receives(t1, p, e) ==> receives(t0, p, e) || (p == process && t1[slot(process, i)].object == Object::Endpoint(e)
            && t1[slot(process, i)].rights & RIGHT_RECEIVE != 0),
{
    if receives(t1, p, e) {
        let j = choose|j: int| 0 <= j < MAX_CAPABILITIES && #[trigger] t1[slot(p, j)].object == Object::Endpoint(e)
            && t1[slot(p, j)].rights & RIGHT_RECEIVE != 0;
        if slot(p, j) != slot(process, i) {
            assert(t0[slot(p, j)] == t1[slot(p, j)]);
            assert(receives(t0, p, e));
        } else {
            assert(p == process);
        }
    }
}

/// When some process receives on `e`, the search from `p` finds the lowest
/// one at or after `p`.
proof fn lemma_receiver_from_finds(t: Seq<Entry>, e: u32, p: int)
    requires
        0 <= p <= MAX_PROCESSES,
    ensures
        forall|q: int| p <= q < MAX_PROCESSES && #[trigger] receives(t, q, e) ==> (receiver_from(t, e, p) matches Some(h)
            && p <= h <= q && receives(t, h, e)),
    decreases MAX_PROCESSES - p,
{
    if p < MAX_PROCESSES {
        lemma_receiver_from_finds(t, e, p + 1);
    }
}


// ---------------------------------------------------------------------------
// Messages in flight: a queued message is a holder of what it carries.

/// What taking the name a queued message holds on `object` does: the
/// counted kinds count it; regions and plans do not travel this way and are
/// refused; the rest count nothing.
pub open spec fn transit_taken(r0: Regions, r1: Regions, p0: Assignments, p1: Assignments, object: Object, res: Result<(), NotGranted>) -> bool {
    if names_plan(object) {
        res == Err::<(), NotGranted>(NotGranted::NoRoom) && regions_same(r0, r1) && pci_same(p0, p1)
    } else {
        name_taken(r0, r1, p0, p1, object, res)
    }
}

/// A transit name taken successfully.
pub open spec fn transit_ok(r0: Regions, r1: Regions, p0: Assignments, p1: Assignments, object: Object) -> bool {
    transit_taken(r0, r1, p0, p1, object, Ok(()))
}

/// What dropping the name a message held does: only the counted kinds held
/// one.
pub open spec fn transit_dropped(r0: Regions, r1: Regions, p0: Assignments, p1: Assignments, object: Object) -> bool {
    if object is MemoryAuthority || object is PciFunction {
        name_dropped(r0, r1, p0, p1, object)
    } else {
        regions_same(r0, r1) && pci_same(p0, p1)
    }
}

/// Which transit step a chain is made of.
pub enum Step {
    Take,
    Drop,
}

/// One transit step.
pub open spec fn step(f: Step, r0: Regions, r1: Regions, p0: Assignments, p1: Assignments, o: Object) -> bool {
    match f {
        Step::Take => transit_ok(r0, r1, p0, p1, o),
        Step::Drop => transit_dropped(r0, r1, p0, p1, o),
    }
}

/// Each of `objs` stepped by `f` in turn, through the states `rs`, `ps`.
pub open spec fn stepped(
    rs: Seq<Regions>,
    ps: Seq<Assignments>,
    objs: Seq<Object>,
    f: Step,
) -> bool {
    &&& rs.len() == objs.len() + 1
    &&& ps.len() == objs.len() + 1
    &&& forall|k: int| 0 <= k < objs.len() ==> step(f, #[trigger] rs[k], rs[k + 1], ps[k], ps[k + 1], objs[k])
}

/// The tables after each of `objs` is stepped by `f`, one after another.
pub open spec fn through(
    r0: Regions,
    r1: Regions,
    p0: Assignments,
    p1: Assignments,
    objs: Seq<Object>,
    f: Step,
) -> bool {
    exists|rs: Seq<Regions>, ps: Seq<Assignments>| stepped(rs, ps, objs, f) && rs[0] == r0 && ps[0] == p0 && rs.last() == r1
        && ps.last() == p1
}

/// The objects a message carries, in order.
pub open spec fn carried(granted: Seq<(Object, u32, u64)>) -> Seq<Object> {
    granted.map_values(|g: (Object, u32, u64)| g.0)
}

/// Extends a stepped chain by one step.
proof fn lemma_step(
    rs: Seq<Regions>,
    ps: Seq<Assignments>,
    objs: Seq<Object>,
    all: Seq<Object>,
    k: int,
    r: Regions,
    p: Assignments,
    f: Step,
)
    requires
        0 <= k < all.len(),
        objs == all.take(k),
        stepped(rs, ps, objs, f),
        step(f, rs.last(), r, ps.last(), p, all[k]),
    ensures
        stepped(rs.push(r), ps.push(p), all.take(k + 1), f),
        rs.push(r)[0] == rs[0],
        ps.push(p)[0] == ps[0],
{
    let objs2 = all.take(k + 1);
    assert(objs2 =~= objs.push(all[k]));
    let rs2 = rs.push(r);
    let ps2 = ps.push(p);
    assert forall|j: int| 0 <= j < objs2.len() implies step(f, #[trigger] rs2[j], rs2[j + 1], ps2[j], ps2[j + 1], objs2[j]) by {
        if j < k {
            assert(rs2[j] == rs[j] && rs2[j + 1] == rs[j + 1] && ps2[j] == ps[j] && ps2[j + 1] == ps[j + 1]);
            assert(objs2[j] == objs[j]);
        }
    }
}

/// Takes the name a message carries on one object.
fn retain_transit(regions: &mut Regions, pci: &mut Assignments, object: Object) -> (r: Result<(), NotGranted>)
    requires
        old(regions).wf(),
        old(pci).wf(),
    ensures
        final(regions).wf(),
        final(pci).wf(),
        transit_taken(*old(regions), *final(regions), *old(pci), *final(pci), object, r),
{
    match object {
        Object::LaunchPlanBuilder { .. } => Err(NotGranted::NoRoom),
        Object::LaunchPlan { .. } => Err(NotGranted::NoRoom),
        _ => retain_capability(regions, pci, object),
    }
}

/// Drops the name a message held on one object.
fn release_transit(regions: &mut Regions, pci: &mut Assignments, object: Object)
    requires
        old(regions).wf(),
        old(pci).wf(),
    ensures
        final(regions).wf(),
        final(pci).wf(),
        transit_dropped(*old(regions), *final(regions), *old(pci), *final(pci), object),
{
    match object {
        Object::MemoryAuthority { .. } => release_counted(regions, pci, object),
        Object::PciFunction { .. } => release_counted(regions, pci, object),
        _ => {},
    }
}


/// The index a counted name on `o` is held at: a memory authority's node
/// (`pci` false) or a PCI function's assignment (`pci` true).
pub open spec fn counted_at(o: Object, pci: bool) -> Option<u32> {
    match o {
        Object::MemoryAuthority { index, .. } => if pci { None } else { Some(index) },
        Object::PciFunction { index, .. } => if pci { Some(index) } else { None },
        _ => None,
    }
}

/// Whether `o` holds a counted name at index `i`.
pub open spec fn counts_at(o: Object, pci: bool, i: int) -> nat {
    if counted_at(o, pci) matches Some(y) && y == i { 1 } else { 0 }
}

/// How many of `objs` hold a counted name at index `i`.
pub open spec fn name_count(objs: Seq<Object>, pci: bool, i: int) -> nat
    decreases objs.len(),
{
    if objs.len() == 0 {
        0
    } else {
        counts_at(objs[0], pci, i) + name_count(objs.drop_first(), pci, i)
    }
}

/// An authority with `extra` more names.
pub open spec fn named_more(n: Authority, extra: nat) -> Authority {
    Authority { names: (n.names + extra) as usize, ..n }
}

/// An assignment with `extra` more names.
pub open spec fn assigned_more(a: Assignment, extra: nat) -> Assignment {
    Assignment { names: (a.names + extra) as u32, ..a }
}

/// The authority and region tables as they were, but for one more name per
/// memory authority among `objs`.
pub open spec fn authorities_raised(r0: Regions, r: Regions, objs: Seq<Object>) -> bool {
    &&& r.objects() == r0.objects()
    &&& r.ledger() == r0.ledger()
    &&& r.is_stopped() == r0.is_stopped()
    &&& r.nodes().len() == r0.nodes().len()
    &&& forall|i: int| 0 <= i < r0.nodes().len() ==> r0.nodes()[i].names + name_count(objs, false, i) <= usize::MAX
        && #[trigger] r.nodes()[i] == named_more(r0.nodes()[i], name_count(objs, false, i))
}

/// The PCI table as it was, but for one more name per function among `objs`.
pub open spec fn functions_raised(p0: Assignments, p: Assignments, objs: Seq<Object>) -> bool {
    &&& p.root_bus() == p0.root_bus()
    &&& p.slots().len() == p0.slots().len()
    &&& forall|i: int| 0 <= i < p0.slots().len() ==> p0.slots()[i].names + name_count(objs, true, i) <= u32::MAX
        && #[trigger] p.slots()[i] == assigned_more(p0.slots()[i], name_count(objs, true, i))
}

/// The tables as they were, but for one more name per object of `objs`.
pub open spec fn names_raised(r0: Regions, r: Regions, p0: Assignments, p: Assignments, objs: Seq<Object>) -> bool {
    authorities_raised(r0, r, objs) && functions_raised(p0, p, objs)
}

/// Whether every function among `objs` is named or has a descendant in `p0`,
/// so that a name dropped again never ends it.
pub open spec fn functions_held(p0: Assignments, objs: Seq<Object>) -> bool {
    forall|k: int| 0 <= k < objs.len() ==> (#[trigger] objs[k] matches Object::PciFunction { index, .. } ==> p0.slots()[index as int].names
        > 0 || p0.slots()[index as int].descendants > 0)
}

/// Whether a counted name on `o` is on a live object of `r0`, `p0` that the
/// object's generation names, an authority that was already named.
pub open spec fn on_live(r0: Regions, p0: Assignments, o: Object) -> bool {
    match o {
        Object::MemoryAuthority { index, generation } => index < crate::region::MAX_AUTHORITIES && r0.nodes()[index as int].live
            && r0.nodes()[index as int].names > 0 && r0.nodes()[index as int].generation == generation,
        Object::PciFunction { index, generation } => index < crate::pci::MAX_ASSIGNMENTS && p0.slots()[index as int].live
            && p0.slots()[index as int].generation == generation,
        _ => true,
    }
}

/// Every object of `objs` is `on_live`.
pub open spec fn names_on_live(r0: Regions, p0: Assignments, objs: Seq<Object>) -> bool {
    forall|k: int| 0 <= k < objs.len() ==> on_live(r0, p0, #[trigger] objs[k])
}

/// Counting over a sequence with one more object at its end.
proof fn lemma_name_count_push(s: Seq<Object>, x: Object, pci: bool, i: int)
    ensures
        name_count(s.push(x), pci, i) == name_count(s, pci, i) + counts_at(x, pci, i),
    decreases s.len(),
{
    if s.len() > 0 {
        assert(s.push(x)[0] == s[0]);
        assert(s.push(x).drop_first() =~= s.drop_first().push(x));
        lemma_name_count_push(s.drop_first(), x, pci, i);
    } else {
        assert(s.push(x)[0] == x);
        assert(s.push(x).drop_first() =~= Seq::<Object>::empty());
        assert(name_count(Seq::<Object>::empty(), pci, i) == 0);
    }
}

/// A counted index is counted because some object holds a name there.
proof fn lemma_name_count_found(s: Seq<Object>, pci: bool, i: int)
    requires
        name_count(s, pci, i) > 0,
    ensures
        exists|k: int| 0 <= k < s.len() && #[trigger] counts_at(s[k], pci, i) == 1,
    decreases s.len(),
{
    if counts_at(s[0], pci, i) == 0 {
        lemma_name_count_found(s.drop_first(), pci, i);
        let k = choose|k: int| 0 <= k < s.drop_first().len() && #[trigger] counts_at(s.drop_first()[k], pci, i) == 1;
        assert(s[k + 1] == s.drop_first()[k]);
        assert(counts_at(s[k + 1], pci, i) == 1);
    } else {
        assert(counts_at(s[0], pci, i) == 1);
    }
}

/// One take raises the count its object holds, on a live object.
proof fn lemma_take_step(
    r0: Regions,
    p0: Assignments,
    ra: Regions,
    rb: Regions,
    pa: Assignments,
    pb: Assignments,
    prev: Seq<Object>,
    x: Object,
)
    requires
        r0.nodes().len() == crate::region::MAX_AUTHORITIES,
        p0.slots().len() == crate::pci::MAX_ASSIGNMENTS,
        names_raised(r0, ra, p0, pa, prev),
        names_on_live(r0, p0, prev),
        step(Step::Take, ra, rb, pa, pb, x),
    ensures
        names_raised(r0, rb, p0, pb, prev.push(x)),
        names_on_live(r0, p0, prev.push(x)),
{
    let next = prev.push(x);
    assert forall|i: int| 0 <= i < r0.nodes().len() implies r0.nodes()[i].names + name_count(next, false, i) <= usize::MAX
        && #[trigger] rb.nodes()[i] == named_more(r0.nodes()[i], name_count(next, false, i)) by {
        lemma_name_count_push(prev, x, false, i);
        assert(ra.nodes()[i] == named_more(r0.nodes()[i], name_count(prev, false, i)));
    }
    assert forall|i: int| 0 <= i < p0.slots().len() implies p0.slots()[i].names + name_count(next, true, i) <= u32::MAX
        && #[trigger] pb.slots()[i] == assigned_more(p0.slots()[i], name_count(next, true, i)) by {
        lemma_name_count_push(prev, x, true, i);
        assert(pa.slots()[i] == assigned_more(p0.slots()[i], name_count(prev, true, i)));
    }
    if let Object::MemoryAuthority { index, generation } = x {
        let i = index as int;
        assert(ra.nodes()[i] == named_more(r0.nodes()[i], name_count(prev, false, i)));
        if name_count(prev, false, i) > 0 {
            lemma_name_count_found(prev, false, i);
            let m = choose|m: int| 0 <= m < prev.len() && #[trigger] counts_at(prev[m], false, i) == 1;
            assert(on_live(r0, p0, prev[m]));
        }
        assert(on_live(r0, p0, x));
    }
    if let Object::PciFunction { index, generation } = x {
        let i = index as int;
        assert(pa.slots()[i] == assigned_more(p0.slots()[i], name_count(prev, true, i)));
        assert(on_live(r0, p0, x));
    }
    assert forall|k: int| 0 <= k < next.len() implies on_live(r0, p0, #[trigger] next[k]) by {
        if k < prev.len() {
            assert(next[k] == prev[k]);
        }
    }
}

/// A chain of takes raises each counted name once per object, each on a
/// live object its generation names.
proof fn lemma_takes_raise(rs: Seq<Regions>, ps: Seq<Assignments>, objs: Seq<Object>, j: int)
    requires
        stepped(rs, ps, objs, Step::Take),
        0 <= j <= objs.len(),
        rs[0].nodes().len() == crate::region::MAX_AUTHORITIES,
        ps[0].slots().len() == crate::pci::MAX_ASSIGNMENTS,
    ensures
        names_raised(rs[0], rs[j], ps[0], ps[j], objs.take(j)),
        names_on_live(rs[0], ps[0], objs.take(j)),
    decreases j,
{
    if j == 0 {
        assert(objs.take(0) =~= Seq::<Object>::empty());
        assert forall|i: int| 0 <= i < rs[0].nodes().len() implies rs[0].nodes()[i].names + name_count(objs.take(0), false, i) <= usize::MAX
            && #[trigger] rs[0].nodes()[i] == named_more(rs[0].nodes()[i], name_count(objs.take(0), false, i)) by {}
        assert forall|i: int| 0 <= i < ps[0].slots().len() implies ps[0].slots()[i].names + name_count(objs.take(0), true, i) <= u32::MAX
            && #[trigger] ps[0].slots()[i] == assigned_more(ps[0].slots()[i], name_count(objs.take(0), true, i)) by {}
    } else {
        lemma_takes_raise(rs, ps, objs, j - 1);
        assert(objs.take(j) =~= objs.take(j - 1).push(objs[j - 1]));
        assert(step(Step::Take, rs[j - 1], rs[j], ps[j - 1], ps[j], objs[j - 1]));
        lemma_take_step(rs[0], ps[0], rs[j - 1], rs[j], ps[j - 1], ps[j], objs.take(j - 1), objs[j - 1]);
    }
}

/// One drop lowers the authority count its object holds without ending
/// anything: the authority was named before the message took its name.
proof fn lemma_drop_step_authorities(r0: Regions, p0: Assignments, ra: Regions, rb: Regions, pa: Assignments, pb: Assignments, before: Seq<Object>)
    requires
        before.len() > 0,
        r0.nodes().len() == crate::region::MAX_AUTHORITIES,
        authorities_raised(r0, ra, before),
        on_live(r0, p0, before[0]),
        step(Step::Drop, ra, rb, pa, pb, before[0]),
    ensures
        authorities_raised(r0, rb, before.drop_first()),
{
    let x = before[0];
    let after = before.drop_first();
    assert forall|i: int| #[trigger] name_count(before, false, i) == counts_at(x, false, i) + name_count(after, false, i) by {}
    if let Object::MemoryAuthority { index, generation } = x {
        let i = index as int;
        assert(ra.nodes()[i] == named_more(r0.nodes()[i], name_count(before, false, i)));
        assert(counts_at(x, false, i) == 1);
        assert(ra.nodes()[i].names > 1);
    }
    assert forall|t: int| 0 <= t < r0.nodes().len() implies r0.nodes()[t].names + name_count(after, false, t) <= usize::MAX
        && #[trigger] rb.nodes()[t] == named_more(r0.nodes()[t], name_count(after, false, t)) by {
        assert(ra.nodes()[t] == named_more(r0.nodes()[t], name_count(before, false, t)));
    }
}

/// One drop lowers the function count its object holds without ending
/// anything, when the function was named or had a descendant before.
proof fn lemma_drop_step_functions(r0: Regions, p0: Assignments, ra: Regions, rb: Regions, pa: Assignments, pb: Assignments, before: Seq<Object>)
    requires
        before.len() > 0,
        p0.slots().len() == crate::pci::MAX_ASSIGNMENTS,
        functions_raised(p0, pa, before),
        on_live(r0, p0, before[0]),
        before[0] matches Object::PciFunction { index, .. } ==> p0.slots()[index as int].names > 0 || p0.slots()[index as int].descendants > 0,
        step(Step::Drop, ra, rb, pa, pb, before[0]),
    ensures
        functions_raised(p0, pb, before.drop_first()),
{
    let x = before[0];
    let after = before.drop_first();
    assert forall|i: int| #[trigger] name_count(before, true, i) == counts_at(x, true, i) + name_count(after, true, i) by {}
    if let Object::PciFunction { index, generation } = x {
        let i = index as int;
        assert(pa.slots()[i] == assigned_more(p0.slots()[i], name_count(before, true, i)));
        assert(counts_at(x, true, i) == 1);
    }
    assert forall|t: int| 0 <= t < p0.slots().len() implies p0.slots()[t].names + name_count(after, true, t) <= u32::MAX
        && #[trigger] pb.slots()[t] == assigned_more(p0.slots()[t], name_count(after, true, t)) by {
        assert(pa.slots()[t] == assigned_more(p0.slots()[t], name_count(before, true, t)));
    }
}

/// A chain of drops over the objects whose names were raised brings every
/// authority's count back down, one per object, without ending anything;
/// and every function's too, when each was named or had a descendant.
proof fn lemma_drops_lower(rs: Seq<Regions>, ps: Seq<Assignments>, objs: Seq<Object>, r0: Regions, p0: Assignments, j: int)
    requires
        stepped(rs, ps, objs, Step::Drop),
        0 <= j <= objs.len(),
        r0.nodes().len() == crate::region::MAX_AUTHORITIES,
        p0.slots().len() == crate::pci::MAX_ASSIGNMENTS,
        names_raised(r0, rs[0], p0, ps[0], objs),
        names_on_live(r0, p0, objs),
    ensures
        authorities_raised(r0, rs[j], objs.subrange(j, objs.len() as int)),
        functions_held(p0, objs) ==> functions_raised(p0, ps[j], objs.subrange(j, objs.len() as int)),
    decreases j,
{
    if j == 0 {
        assert(objs.subrange(0, objs.len() as int) =~= objs);
    } else {
        lemma_drops_lower(rs, ps, objs, r0, p0, j - 1);
        let before = objs.subrange(j - 1, objs.len() as int);
        assert(before.drop_first() =~= objs.subrange(j, objs.len() as int));
        assert(before[0] == objs[j - 1]);
        assert(step(Step::Drop, rs[j - 1], rs[j], ps[j - 1], ps[j], objs[j - 1]));
        assert(on_live(r0, p0, objs[j - 1]));
        lemma_drop_step_authorities(r0, p0, rs[j - 1], rs[j], ps[j - 1], ps[j], before);
        if functions_held(p0, objs) {
            assert(objs[j - 1] matches Object::PciFunction { index, .. } ==> p0.slots()[index as int].names > 0
                || p0.slots()[index as int].descendants > 0);
            lemma_drop_step_functions(r0, p0, rs[j - 1], rs[j], ps[j - 1], ps[j], before);
        }
    }
}

/// Nothing raised is the tables themselves.
proof fn lemma_authorities_raised_by_nothing(r0: Regions, r: Regions, objs: Seq<Object>)
    requires
        authorities_raised(r0, r, objs),
        objs.len() == 0,
    ensures
        regions_same(r0, r),
{
    assert forall|i: int| 0 <= i < r0.nodes().len() implies #[trigger] r.nodes()[i] == r0.nodes()[i] by {
        assert(r.nodes()[i] == named_more(r0.nodes()[i], name_count(objs, false, i)));
    }
    assert(r.nodes() =~= r0.nodes());
}

/// The same, for the PCI table.
proof fn lemma_functions_raised_by_nothing(p0: Assignments, p: Assignments, objs: Seq<Object>)
    requires
        functions_raised(p0, p, objs),
        objs.len() == 0,
    ensures
        pci_same(p0, p),
{
    assert forall|i: int| 0 <= i < p0.slots().len() implies #[trigger] p.slots()[i] == p0.slots()[i] by {
        assert(p.slots()[i] == assigned_more(p0.slots()[i], name_count(objs, true, i)));
    }
    assert(p.slots() =~= p0.slots());
}


/// A message refused at object `k` gives back what it took: the takes before
/// it raised each name once, the refused take changed nothing, and the
/// drops bring every count down again.
proof fn lemma_refused_message_restores(
    rs: Seq<Regions>,
    ps: Seq<Assignments>,
    objs: Seq<Object>,
    k: int,
    before_r: Regions,
    before_p: Assignments,
    rm: Regions,
    pm: Assignments,
    rf: Regions,
    pf: Assignments,
)
    requires
        0 <= k < objs.len(),
        rs[0].wf(),
        ps[0].wf(),
        stepped(rs, ps, objs.take(k), Step::Take),
        rs.last() == before_r,
        ps.last() == before_p,
        transit_taken(before_r, rm, before_p, pm, objs[k], Err(NotGranted::NoRoom)),
        through(rm, rf, pm, pf, objs.take(k), Step::Drop),
    ensures
        regions_same(rs[0], rf),
        functions_held(ps[0], objs) ==> pci_same(ps[0], pf),
{
    let r0 = rs[0];
    let p0 = ps[0];
    let prefix = objs.take(k);
    crate::pci::lemma_slots_len(&p0);
    lemma_takes_raise(rs, ps, prefix, k);
    assert(prefix.take(k) =~= prefix);
    assert(rs[k] == before_r);
    assert(names_raised(r0, rm, p0, pm, prefix));
    let (rs2, ps2) = choose|rs2: Seq<Regions>, ps2: Seq<Assignments>| stepped(rs2, ps2, prefix, Step::Drop) && rs2[0] == rm
        && ps2[0] == pm && rs2.last() == rf && ps2.last() == pf;
    lemma_drops_lower(rs2, ps2, prefix, r0, p0, k);
    assert(prefix.subrange(k, k) =~= Seq::<Object>::empty());
    lemma_authorities_raised_by_nothing(r0, rf, prefix.subrange(k, k));
    if functions_held(p0, objs) {
        assert forall|j: int| 0 <= j < prefix.len() implies (#[trigger] prefix[j] matches Object::PciFunction { index, .. }
            ==> p0.slots()[index as int].names > 0 || p0.slots()[index as int].descendants > 0) by {
            assert(prefix[j] == objs[j]);
        }
        lemma_functions_raised_by_nothing(p0, pf, prefix.subrange(k, k));
    }
}

/// Takes a name for every object a committed message carries, before it
/// is queued; whatever was taken before a refusal goes back, so a send that
/// did not happen leaves no name behind.
pub fn retain_in_transit(regions: &mut Regions, pci: &mut Assignments, granted: &[(Object, u32, u64)]) -> (r: Result<(), NotGranted>)
    requires
        old(regions).wf(),
        old(pci).wf(),
    ensures
        final(regions).wf(),
        final(pci).wf(),
        ({
            let objs = carried(granted@);
            let ok = Step::Take;
            let back = Step::Drop;
            &&& r is Ok ==> through(*old(regions), *final(regions), *old(pci), *final(pci), objs, ok)
            &&& r is Err ==> r == Err::<(), NotGranted>(NotGranted::NoRoom) && exists|
                k: int,
                rm: Regions,
                pm: Assignments,
                rn: Regions,
                pn: Assignments,
            |
                0 <= k < objs.len() && through(*old(regions), rm, *old(pci), pm, objs.take(k), ok)
                    && transit_taken(rm, rn, pm, pn, objs[k], Err(NotGranted::NoRoom))
                    && through(rn, *final(regions), pn, *final(pci), objs.take(k), back)
        }),
        r is Err ==> regions_same(*old(regions), *final(regions)),
        r is Err && functions_held(*old(pci), carried(granted@)) ==> pci_same(*old(pci), *final(pci)),
{
    let ghost objs = carried(granted@);
    let ghost r0 = *regions;
    let ghost p0 = *pci;
    let ghost mut rs: Seq<Regions> = seq![r0];
    let ghost mut ps: Seq<Assignments> = seq![p0];
    let mut k: usize = 0;
    while k < granted.len()
        invariant
            regions.wf(),
            pci.wf(),
            k <= granted.len(),
            objs == carried(granted@),
            stepped(rs, ps, objs.take(k as int), Step::Take),
            r0 == *old(regions),
            p0 == *old(pci),
            rs[0] == r0,
            ps[0] == p0,
            rs.last() == *regions,
            ps.last() == *pci,
            r0.wf(),
            p0.wf(),
        decreases granted.len() - k,
    {
        let object = granted[k].0;
        proof {
            assert(objs[k as int] == object);
        }
        let ghost before_r = *regions;
        let ghost before_p = *pci;
        let taken = retain_transit(regions, pci, object);
        if taken.is_err() {
            proof {
                assert(regions_same(before_r, *regions));
                assert(before_r == rs.last());
            }
            let ghost rm = *regions;
            let ghost pm = *pci;
            let done = vstd::slice::slice_subrange(granted, 0, k);
            release_from_transit(regions, pci, done);
            proof {
                assert(carried(done@) =~= objs.take(k as int));
                assert(0 <= k < objs.len() && through(r0, before_r, p0, before_p, objs.take(k as int), Step::Take)
                    && transit_taken(before_r, rm, before_p, pm, objs[k as int], Err(NotGranted::NoRoom))
                    && through(rm, *regions, pm, *pci, objs.take(k as int), Step::Drop));
                lemma_refused_message_restores(rs, ps, objs, k as int, before_r, before_p, rm, pm, *regions, *pci);
            }
            return Err(NotGranted::NoRoom);
        }
        proof {
            assert(step(Step::Take, rs.last(), *regions, ps.last(), *pci, objs[k as int]));
            lemma_step(rs, ps, objs.take(k as int), objs, k as int, *regions, *pci, Step::Take);
            rs = rs.push(*regions);
            ps = ps.push(*pci);
        }
        k = k + 1;
    }
    proof {
        assert(objs.take(granted.len() as int) =~= objs);
    }
    Ok(())
}

/// Drops a message's names: it was delivered, or it was never queued.
pub fn release_from_transit(regions: &mut Regions, pci: &mut Assignments, granted: &[(Object, u32, u64)])
    requires
        old(regions).wf(),
        old(pci).wf(),
    ensures
        final(regions).wf(),
        final(pci).wf(),
        through(
            *old(regions),
            *final(regions),
            *old(pci),
            *final(pci),
            carried(granted@),
            Step::Drop,
        ),
{
    let ghost objs = carried(granted@);
    let ghost r0 = *regions;
    let ghost p0 = *pci;
    let ghost mut rs: Seq<Regions> = seq![r0];
    let ghost mut ps: Seq<Assignments> = seq![p0];
    let mut k: usize = 0;
    while k < granted.len()
        invariant
            regions.wf(),
            pci.wf(),
            k <= granted.len(),
            objs == carried(granted@),
            stepped(rs, ps, objs.take(k as int), Step::Drop),
            rs[0] == r0,
            ps[0] == p0,
            rs.last() == *regions,
            ps.last() == *pci,
        decreases granted.len() - k,
    {
        let object = granted[k].0;
        proof {
            assert(objs[k as int] == object);
        }
        let ghost br = *regions;
        let ghost bp = *pci;
        release_transit(regions, pci, object);
        proof {
            assert(transit_dropped(br, *regions, bp, *pci, objs[k as int]));
            assert(step(Step::Drop, br, *regions, bp, *pci, objs[k as int]));
            lemma_step(rs, ps, objs.take(k as int), objs, k as int, *regions, *pci, Step::Drop);
            rs = rs.push(*regions);
            ps = ps.push(*pci);
        }
        k = k + 1;
    }
    proof {
        assert(objs.take(granted.len() as int) =~= objs);
    }
}


// ---------------------------------------------------------------------------
// Preflights and endowments: everything that can refuse is asked first, so
// the commit is a sequence of writes.

/// Whether `n` more names can be taken on an authority: it resolves, and
/// its count does not wrap.
pub open spec fn can_take(nodes: Seq<Authority>, id: AuthorityId, n: int) -> bool {
    resolves_authority(nodes, id) && nodes[id.index as int].names + n <= usize::MAX
}

/// How many of the first `n` objects a message carries name one authority.
pub open spec fn count_authority(gs: Seq<(Object, u32, u64)>, index: u32, generation: u32, n: int) -> int
    decreases n,
{
    if n <= 0 {
        0
    } else {
        count_authority(gs, index, generation, n - 1) + if gs[n - 1].0 == (Object::MemoryAuthority { index, generation }) {
            1int
        } else {
            0int
        }
    }
}

/// Whether entry `k` of a message could be granted to `process`: every
/// name it takes can be taken, summed over the message, and it claims no
/// endpoint another process receives on.
pub open spec fn grant_ok(t: Seq<Entry>, nodes: Seq<Authority>, process: int, gs: Seq<(Object, u32, u64)>, k: int) -> bool {
    let o = gs[k].0;
    ||| o is Vacant
    ||| {
        &&& (o matches Object::MemoryAuthority { index, generation } ==> can_take(
            nodes,
            AuthorityId { index, generation },
            count_authority(gs, index, generation, gs.len() as int),
        ))
        &&& !receiver_conflict(t, process, o, gs[k].1)
    }
}

/// Whether `n` more names can be taken on an authority.
fn can_retain(regions: &Regions, id: AuthorityId, n: usize) -> (b: bool)
    requires
        regions.wf(),
    ensures
        b == can_take(regions.nodes(), id, n as int),
{
    match regions.names(id) {
        Ok(names) => names <= usize::MAX - n,
        Err(_) => false,
    }
}

/// How many objects a message carries name one authority.
fn authority_count(granted: &[(Object, u32, u64)], index: u32, generation: u32) -> (n: usize)
    ensures
        n == count_authority(granted@, index, generation, granted@.len() as int),
{
    let mut n: usize = 0;
    let mut k: usize = 0;
    while k < granted.len()
        invariant
            k <= granted.len(),
            n <= k,
            n == count_authority(granted@, index, generation, k as int),
        decreases granted.len() - k,
    {
        if granted[k].0 == (Object::MemoryAuthority { index, generation }) {
            n = n + 1;
        }
        k = k + 1;
    }
    n
}

/// What a launcher decides to give a process.
pub enum Endowment {
    /// A capability naming an object that already exists.
    Existing { binding: Binding, object: Object, rights: u32, scope: u64 },
    /// Authority over the process being created.
    Own { binding: Binding, rights: u32 },
    /// What the funding authority has left once the creation is paid for,
    /// as a child of it.
    Remainder { binding: Binding, rights: u32 },
}

/// The request an endowment answers.
pub open spec fn binding_of(e: Endowment) -> Seq<u8> {
    match e {
        Endowment::Existing { binding, .. } => binding@,
        Endowment::Own { binding, .. } => binding@,
        Endowment::Remainder { binding, .. } => binding@,
    }
}

impl Endowment {
    /// The request this grant answers.
    pub fn binding(&self) -> (b: &Binding)
        ensures
            b@ == binding_of(*self),
    {
        match self {
            Endowment::Existing { binding, .. } => binding,
            Endowment::Own { binding, .. } => binding,
            Endowment::Remainder { binding, .. } => binding,
        }
    }
}

/// How many of the first `n` entries of an endowment copy one authority.
pub open spec fn count_existing(es: Seq<Endowment>, index: u32, generation: u32, n: int) -> int
    decreases n,
{
    if n <= 0 {
        0
    } else {
        count_existing(es, index, generation, n - 1) + if es[n - 1] matches Endowment::Existing { object, .. } && object
            == (Object::MemoryAuthority { index, generation }) {
            1int
        } else {
            0int
        }
    }
}

/// Why entry `k` of an endowment cannot be copied, if it cannot: its
/// object ended; a region does not arrive by being copied; a plan is what
/// this is; or the names it takes, summed, do not fit.
pub open spec fn existing_refusal(
    es: Seq<Endowment>,
    k: int,
    regions: Regions,
    pci: Assignments,
    plans: Seq<PlanState>,
    facts: Seq<ProcessFacts>,
) -> Option<NotGranted> {
    match es[k] {
        Endowment::Existing { object, .. } => if !object_live(object, regions, pci, plans, facts) {
            Some(NotGranted::NoRoom)
        } else if object is Region || object is SharedRegion {
            Some(NotGranted::ReceiverExists)
        } else if names_plan(object) {
            Some(NotGranted::ReceiverExists)
        } else if object matches Object::MemoryAuthority { index, generation } && !can_take(
            regions.nodes(),
            AuthorityId { index, generation },
            count_existing(es, index, generation, es.len() as int),
        ) {
            Some(NotGranted::NoRoom)
        } else {
            None
        },
        _ => None,
    }
}

/// The refusal of the lowest entry from `k` on that has one.
pub open spec fn first_refusal(
    es: Seq<Endowment>,
    k: int,
    regions: Regions,
    pci: Assignments,
    plans: Seq<PlanState>,
    facts: Seq<ProcessFacts>,
) -> Option<NotGranted>
    decreases es.len() - k,
{
    if k < 0 || k >= es.len() {
        None
    } else if existing_refusal(es, k, regions, pci, plans, facts) is Some {
        existing_refusal(es, k, regions, pci, plans, facts)
    } else {
        first_refusal(es, k + 1, regions, pci, plans, facts)
    }
}

/// The endpoint an endowment entry claims receive rights on, if any.
pub open spec fn receive_claim(e: Endowment) -> Option<u32> {
    match e {
        Endowment::Existing { object: Object::Endpoint(x), rights, .. } => if rights & RIGHT_RECEIVE != 0 {
            Some(x)
        } else {
            None
        },
        _ => None,
    }
}

/// Whether entry `k` claims receive rights on an endpoint somebody already
/// receives on, or that an earlier entry of the same endowment claims.
pub open spec fn claim_refused(es: Seq<Endowment>, t: Seq<Entry>, k: int) -> bool {
    receive_claim(es[k]) matches Some(x) && (receiver_from(t, x, 0) is Some || exists|j: int|
        0 <= j < k && #[trigger] receive_claim(es[j]) == Some(x))
}

/// What `endowable` answers.
pub open spec fn endowable_spec(
    es: Seq<Endowment>,
    t: Seq<Entry>,
    regions: Regions,
    pci: Assignments,
    plans: Seq<PlanState>,
    facts: Seq<ProcessFacts>,
) -> Result<(), NotGranted> {
    if es.len() > MAX_CAPABILITIES {
        Err(NotGranted::NoRoom)
    } else if first_refusal(es, 0, regions, pci, plans, facts) is Some {
        Err(first_refusal(es, 0, regions, pci, plans, facts).unwrap())
    } else if exists|k: int| 0 <= k < es.len() && #[trigger] claim_refused(es, t, k) {
        Err(NotGranted::ReceiverExists)
    } else {
        Ok(())
    }
}

/// The grants an endowment asks for, in order, up to the first entry that
/// cannot be asked for here: a remainder, which is resolved before this
/// runs, or authority over a process that has no generation.
pub open spec fn asks_from(es: Seq<Endowment>, facts: Seq<ProcessFacts>, process: int, k: int) -> Seq<(Object, u32, u64)>
    decreases es.len() - k,
{
    if k < 0 || k >= es.len() {
        Seq::empty()
    } else {
        match es[k] {
            Endowment::Existing { object, rights, scope, .. } => seq![(object, rights, scope)] + asks_from(
                es,
                facts,
                process,
                k + 1,
            ),
            Endowment::Remainder { .. } => Seq::empty(),
            Endowment::Own { rights, .. } => if 0 <= process < facts.len() && facts[process].generation is Some {
                seq![(Object::Process { slot: process as u32, generation: facts[process].generation.unwrap() }, rights, 0u64)]
                    + asks_from(es, facts, process, k + 1)
            } else {
                Seq::empty()
            },
        }
    }
}

/// One capability as a process's launch record describes it.
pub struct LaunchCapability {
    pub handle: u64,
    pub object: u32,
    pub rights: u32,
    pub scope: u64,
    pub binding: Binding,
}

impl Capabilities {
    /// Whether every object a delivered message carries could be granted to
    /// one process, asked before any of it is. Table room is not asked
    /// here, and neither is whether an object is still usable.
    pub fn can_grant_all(&self, regions: &Regions, process: usize, granted: &[(Object, u32, u64)]) -> (b: bool)
        requires
            self.wf(),
            regions.wf(),
        ensures
            b == forall|k: int| 0 <= k < granted@.len() ==> #[trigger] grant_ok(self.table(), regions.nodes(), process as int, granted@, k),
    {
        let mut k: usize = 0;
        while k < granted.len()
            invariant
                self.wf(),
                regions.wf(),
                k <= granted.len(),
                forall|j: int| 0 <= j < k ==> #[trigger] grant_ok(self.table(), regions.nodes(), process as int, granted@, j),
            decreases granted.len() - k,
        {
            let (object, rights, _) = granted[k];
            if let Object::Vacant = object {
            } else {
                if let Object::MemoryAuthority { index, generation } = object {
                    let names = authority_count(granted, index, generation);
                    if !can_retain(regions, AuthorityId { index, generation }, names) {
                        proof {
                            assert(!grant_ok(self.table(), regions.nodes(), process as int, granted@, k as int));
                        }
                        return false;
                    }
                }
                if rights & RIGHT_RECEIVE != 0 {
                    if let Object::Endpoint(endpoint) = object {
                        if let Some(holder) = self.receiver_of(endpoint) {
                            if holder != process {
                                proof {
                                    assert(!grant_ok(self.table(), regions.nodes(), process as int, granted@, k as int));
                                }
                                return false;
                            }
                        }
                    }
                }
            }
            k = k + 1;
        }
        true
    }

    /// Whether a whole endowment can be written, asked before any of it is:
    /// it fits a table; every object it copies is live, neither a region nor
    /// a plan, and every name it takes can be taken; no entry claims
    /// receive rights on an endpoint somebody already receives on, or that
    /// an earlier entry claims.
    pub fn endowable(
        &self,
        regions: &Regions,
        pci: &Assignments,
        plans: &Plans,
        facts: &[ProcessFacts],
        endowment: &[Endowment],
    ) -> (r: Result<(), NotGranted>)
        requires
            self.wf(),
            regions.wf(),
            pci.wf(),
            plans.wf(),
        ensures
            r == endowable_spec(endowment@, self.table(), *regions, *pci, plans.states(), facts@),
    {
        let ghost es = endowment@;
        if endowment.len() > MAX_CAPABILITIES {
            return Err(NotGranted::NoRoom);
        }
        let mut k: usize = 0;
        while k < endowment.len()
            invariant
                self.wf(),
                regions.wf(),
                pci.wf(),
                plans.wf(),
                es == endowment@,
                k <= endowment.len(),
                endowment.len() <= MAX_CAPABILITIES,
                first_refusal(es, 0, *regions, *pci, plans.states(), facts@) == first_refusal(
                    es,
                    k as int,
                    *regions,
                    *pci,
                    plans.states(),
                    facts@,
                ),
            decreases endowment.len() - k,
        {
            match &endowment[k] {
                Endowment::Existing { object, .. } => {
                    let object = *object;
                    if !object_is_live(object, regions, pci, plans, facts) {
                        return Err(NotGranted::NoRoom);
                    }
                    if object.is_region() {
                        proof {
                            assert(es[k as int] matches Endowment::Existing { object: o, .. } && o == object);
                            assert(existing_refusal(es, k as int, *regions, *pci, plans.states(), facts@) == Some(
                                NotGranted::ReceiverExists,
                            ));
                        }
                        return Err(NotGranted::ReceiverExists);
                    }
                    if object.plan().is_some() {
                        proof {
                            assert(existing_refusal(es, k as int, *regions, *pci, plans.states(), facts@) == Some(
                                NotGranted::ReceiverExists,
                            ));
                        }
                        return Err(NotGranted::ReceiverExists);
                    }
                    if let Object::MemoryAuthority { index, generation } = object {
                        let names = self.existing_count(endowment, index, generation);
                        if !can_retain(regions, AuthorityId { index, generation }, names) {
                            return Err(NotGranted::NoRoom);
                        }
                    }
                },
                _ => {},
            }
            k = k + 1;
        }
        let mut k: usize = 0;
        while k < endowment.len()
            invariant
                self.wf(),
                regions.wf(),
                pci.wf(),
                plans.wf(),
                es == endowment@,
                k <= endowment.len(),
                endowment.len() <= MAX_CAPABILITIES,
                first_refusal(es, 0, *regions, *pci, plans.states(), facts@) is None,
                forall|j: int| 0 <= j < k ==> !#[trigger] claim_refused(es, self.table(), j),
            decreases endowment.len() - k,
        {
            let claim = Self::claim_of(&endowment[k]);
            if let Some(endpoint) = claim {
                if self.receiver_of(endpoint).is_some() {
                    proof {
                        assert(claim_refused(es, self.table(), k as int));
                    }
                    return Err(NotGranted::ReceiverExists);
                }
                let mut j: usize = 0;
                while j < k
                    invariant
                        self.wf(),
                        regions.wf(),
                        pci.wf(),
                        plans.wf(),
                        endowment.len() <= MAX_CAPABILITIES,
                        first_refusal(es, 0, *regions, *pci, plans.states(), facts@) is None,
                        es == endowment@,
                        j <= k,
                        k < endowment.len(),
                        claim == receive_claim(es[k as int]),
                        claim == Some(endpoint),
                        forall|i: int| 0 <= i < j ==> #[trigger] receive_claim(es[i]) != Some(endpoint),
                    decreases k - j,
                {
                    if Self::claim_of(&endowment[j]) == Some(endpoint) {
                        proof {
                            assert(receive_claim(es[j as int]) == Some(endpoint));
                            assert(receive_claim(es[k as int]) == Some(endpoint));
                            assert(claim_refused(es, self.table(), k as int));
                        }
                        return Err(NotGranted::ReceiverExists);
                    }
                    j = j + 1;
                }
            }
            k = k + 1;
        }
        Ok(())
    }

    /// The endpoint an entry claims receive rights on.
    fn claim_of(e: &Endowment) -> (r: Option<u32>)
        ensures
            r == receive_claim(*e),
    {
        match e {
            Endowment::Existing { object: Object::Endpoint(x), rights, .. } => if *rights & RIGHT_RECEIVE != 0 {
                Some(*x)
            } else {
                None
            },
            _ => None,
        }
    }

    /// How many entries of an endowment copy one authority.
    fn existing_count(&self, endowment: &[Endowment], index: u32, generation: u32) -> (n: usize)
        ensures
            n == count_existing(endowment@, index, generation, endowment@.len() as int),
    {
        let mut n: usize = 0;
        let mut k: usize = 0;
        while k < endowment.len()
            invariant
                k <= endowment.len(),
                n <= k,
                n == count_existing(endowment@, index, generation, k as int),
            decreases endowment.len() - k,
        {
            let hit = match &endowment[k] {
                Endowment::Existing { object, .. } => *object == (Object::MemoryAuthority { index, generation }),
                _ => false,
            };
            if hit {
                n = n + 1;
            }
            k = k + 1;
        }
        n
    }
}


/// The grants an endowment made, each through `granted`, and the record of
/// each one.
pub open spec fn endow_chain(
    ts: Seq<Seq<Entry>>,
    rs: Seq<Regions>,
    ps: Seq<Assignments>,
    process: int,
    asks: Seq<(Object, u32, u64)>,
    es: Seq<Endowment>,
    out: Seq<LaunchCapability>,
) -> bool {
    &&& out.len() <= asks.len()
    &&& ts.len() == out.len() + 1
    &&& rs.len() == out.len() + 1
    &&& ps.len() == out.len() + 1
    &&& forall|k: int| 0 <= k < out.len() ==> {
        &&& granted(#[trigger] ts[k], ts[k + 1], rs[k], rs[k + 1], ps[k], ps[k + 1], process, asks[k].0, asks[k].1, asks[k].2, Ok(out[k].handle))
        &&& out[k].object == kind_of(asks[k].0)
        &&& out[k].rights == asks[k].1
        &&& out[k].scope == asks[k].2
        &&& out[k].binding@ == binding_of(es[k])
    }
}

/// What `endow` does: the grants it asks for, in order, each recorded,
/// stopping at the first one the system refuses, which changes nothing.
pub open spec fn endowed(
    t0: Seq<Entry>,
    t1: Seq<Entry>,
    r0: Regions,
    r1: Regions,
    p0: Assignments,
    p1: Assignments,
    process: int,
    asks: Seq<(Object, u32, u64)>,
    es: Seq<Endowment>,
    out: Seq<LaunchCapability>,
) -> bool {
    exists|ts: Seq<Seq<Entry>>, rs: Seq<Regions>, ps: Seq<Assignments>| {
        &&& endow_chain(ts, rs, ps, process, asks, es, out)
        &&& ts[0] == t0 && rs[0] == r0 && ps[0] == p0
        &&& if out.len() < asks.len() {
            let n = out.len() as int;
            exists|e: NotGranted| granted(ts[n], t1, rs[n], r1, ps[n], p1, process, asks[n].0, asks[n].1, asks[n].2, Err(e))
        } else {
            t1 == ts.last() && r1 == rs.last() && p1 == ps.last()
        }
    }
}

impl Capabilities {
    /// The grant an endowment entry asks for, or nothing when it cannot be
    /// asked for here.
    fn ask(e: &Endowment, facts: &[ProcessFacts], process: usize) -> (r: Option<(Object, u32, u64)>)
        ensures
            r == (match *e {
                Endowment::Existing { object, rights, scope, .. } => Some((object, rights, scope)),
                Endowment::Remainder { .. } => None,
                Endowment::Own { rights, .. } => if process < facts@.len() && facts@[process as int].generation is Some {
                    Some((Object::Process { slot: process as u32, generation: facts@[process as int].generation.unwrap() }, rights, 0u64))
                } else {
                    None
                },
            }),
    {
        match e {
            Endowment::Existing { object, rights, scope, .. } => Some((*object, *rights, *scope)),
            Endowment::Remainder { .. } => None,
            Endowment::Own { rights, .. } => {
                if process >= facts.len() {
                    return None;
                }
                match facts[process].generation {
                    Some(generation) => Some((Object::Process { slot: process as u32, generation }, *rights, 0)),
                    None => None,
                }
            },
        }
    }

    /// Writes a process's whole endowment and describes it back for the
    /// record the process reads. [`Capabilities::endowable`] answered
    /// everything that could refuse before this runs; a refusal here stops
    /// the writing, and the entries already written stand.
    #[verifier::rlimit(80)]
    pub fn endow(
        &mut self,
        regions: &mut Regions,
        pci: &mut Assignments,
        facts: &[ProcessFacts],
        process: usize,
        endowment: &[Endowment],
    ) -> (out: Vec<LaunchCapability>)
        requires
            old(self).wf(),
            old(regions).wf(),
            old(pci).wf(),
        ensures
            final(self).wf(),
            final(regions).wf(),
            final(pci).wf(),
            endowed(
                old(self).table(),
                final(self).table(),
                *old(regions),
                *final(regions),
                *old(pci),
                *final(pci),
                process as int,
                asks_from(endowment@, facts@, process as int, 0),
                endowment@,
                out@,
            ),
    {
        let ghost es = endowment@;
        let ghost asks = asks_from(es, facts@, process as int, 0);
        let ghost mut ts: Seq<Seq<Entry>> = seq![self.table()];
        let ghost mut rs: Seq<Regions> = seq![*regions];
        let ghost mut ps: Seq<Assignments> = seq![*pci];
        let ghost t0 = self.table();
        let ghost r0 = *regions;
        let ghost p0 = *pci;
        let mut out: Vec<LaunchCapability> = Vec::new();
        let mut k: usize = 0;
        proof {
            assert(asks =~= asks.take(0) + asks_from(es, facts@, process as int, 0));
        }
        loop
            invariant_except_break
                out@.len() == k,
                k <= asks.len(),
                asks =~= asks.take(k as int) + asks_from(es, facts@, process as int, k as int),
                self.table() == ts.last(),
                *regions == rs.last(),
                *pci == ps.last(),
            invariant
                self.wf(),
                regions.wf(),
                pci.wf(),
                es == endowment@,
                asks == asks_from(es, facts@, process as int, 0),
                k <= endowment.len(),
                endow_chain(ts, rs, ps, process as int, asks, es, out@),
                ts[0] == t0 && rs[0] == r0 && ps[0] == p0,
                t0 == old(self).table() && r0 == *old(regions) && p0 == *old(pci),
            ensures
                endowed(t0, self.table(), r0, *regions, p0, *pci, process as int, asks, es, out@),
            decreases endowment.len() - k,
        {
            if k >= endowment.len() {
                proof {
                    assert(asks_from(es, facts@, process as int, k as int) =~= Seq::<(Object, u32, u64)>::empty());
                    assert(asks.len() == out@.len());
                }
                break;
            }
            let ask = Self::ask(&endowment[k], facts, process);
            if ask.is_none() {
                proof {
                    assert(asks_from(es, facts@, process as int, k as int) =~= Seq::<(Object, u32, u64)>::empty());
                    assert(asks.len() == k);
                }
                break;
            }
            let (object, rights, scope) = ask.unwrap();
            proof {
                assert(asks_from(es, facts@, process as int, k as int) =~= seq![(object, rights, scope)] + asks_from(
                    es,
                    facts@,
                    process as int,
                    k as int + 1,
                ));
                assert(asks[k as int] == (object, rights, scope));
            }
            let ghost tb = self.table();
            let ghost rb = *regions;
            let ghost pb = *pci;
            let g = self.grant(regions, pci, process, object, rights, scope);
            match g {
                Ok(h) => {
                    let binding = endowment[k].binding().copy();
                    let kind = object.kind();
                    let record = LaunchCapability { handle: h, object: kind, rights, scope, binding };
                    let ghost out0 = out@;
                    out.push(record);
                    proof {
                        let n = k as int;
                        ts = ts.push(self.table());
                        rs = rs.push(*regions);
                        ps = ps.push(*pci);
                        assert forall|j: int| 0 <= j < out@.len() implies {
                            &&& granted(#[trigger] ts[j], ts[j + 1], rs[j], rs[j + 1], ps[j], ps[j + 1], process as int, asks[j].0, asks[j].1, asks[j].2, Ok(out@[j].handle))
                            &&& out@[j].object == kind_of(asks[j].0)
                            &&& out@[j].rights == asks[j].1
                            &&& out@[j].scope == asks[j].2
                            &&& out@[j].binding@ == binding_of(es[j])
                        } by {
                            if j < n {
                                assert(out@[j] == out0[j]);
                            }
                        }
                        assert(asks =~= asks.take(k as int + 1) + asks_from(es, facts@, process as int, k as int + 1));
                    }
                },
                Err(e) => {
                    proof {
                        assert(granted(tb, self.table(), rb, *regions, pb, *pci, process as int, asks[k as int].0, asks[k as int].1, asks[k as int].2, Err(e)));
                        assert(out@.len() < asks.len());
                    }
                    break;
                },
            }
            k = k + 1;
        }
        out
    }
}


/// Attenuation never widens: the rights it grants are within both what was
/// held and what was asked for.
pub proof fn lemma_attenuation_never_widens(held: u32, asked: u32)
    ensures
        (held & asked) & !held == 0,
        (held & asked) & !asked == 0,
        (held & asked) | held == held,
{
    assert((held & asked) & !held == 0 && (held & asked) & !asked == 0 && (held & asked) | held == held) by (bit_vector);
}

/// In a table nobody has written, no handle names anything: every slot is
/// empty, so every lookup is a refusal, and the all-zero handle in
/// particular names nothing.
pub proof fn lemma_fresh_table_names_nothing(t: Seq<Entry>, process: int, handle: u64)
    requires
        t == Seq::new(TABLE_SLOTS as nat, |k: int| empty_entry()),
        0 <= process,
    ensures
        lookup(t, process, handle) is Err,
        lookup(t, process, 0) is Err,
{
    let (i, g) = parts_of(handle);
    assert(0u64 & 0xffff_ffffu64 == 0u64 && (0u64 >> 32u64) as u32 == 0u32 && handle & 0xffff_ffffu64 <= 0xffff_ffffu64)
        by (bit_vector);
    if process < MAX_PROCESSES && i < MAX_CAPABILITIES {
        assert(t[slot(process, i)] == empty_entry());
    }
}


/// Which objects admit only one capability: a mutable region, a plan being
/// written and a sealed plan, whatever their index and generation; and no
/// other kind of object.
pub proof fn lemma_affine_objects(index: u32, generation: u32, o: Object)
    ensures
        affine(Object::Region { index, generation }),
        affine(Object::LaunchPlanBuilder { index, generation }),
        affine(Object::LaunchPlan { index, generation }),
        !affine(Object::SharedRegion { index, generation }),
        !affine(Object::MemoryAuthority { index, generation }),
        !affine(Object::PciFunction { index, generation }),
        !affine(Object::Endpoint(index)),
        affine(o) ==> o is Region || o is LaunchPlanBuilder || o is LaunchPlan,
{
}

} // verus!
