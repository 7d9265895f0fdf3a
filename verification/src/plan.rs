//! Launch plans: what a process decides a child will hold, written down
//! before the child exists.
//!
//! A builder is affine and writable; sealing consumes it and advances the
//! slot's generation, so the handle that named the builder names nothing
//! afterwards; a sealed plan is affine and immutable, and is not consumed by
//! the creation that reads it, so a restart is the same decision applied
//! again. The plan holds the references its entries describe, taken when an
//! entry is written and released exactly once when the plan is destroyed.
use vstd::prelude::*;
use crate::capability::{
    Binding, NotGranted, Object, name_dropped, name_taken, names_plan, release_for_plan, retain_for_plan,
};
use crate::pci::Assignments;
use crate::process::MAX_PROCESSES;
use crate::region::Regions;

verus! {

/// Which plan, and which incarnation of that slot.
#[derive(Clone, Copy, Debug, PartialEq, Eq, Structural)]
pub struct PlanId {
    pub index: u32,
    pub generation: u32,
}

/// Why an operation on a plan was refused.
#[derive(Clone, Copy, Debug, PartialEq, Eq, Structural)]
pub enum Refusal {
    /// No slot, or no room for another entry.
    Full,
    /// The id names no live plan of that incarnation.
    Unknown,
    /// The plan is in the other state.
    WrongState,
}


/// How many plans exist at once: one per process slot.
pub const MAX_PLANS: usize = MAX_PROCESSES;

/// How many entries one plan holds.
pub const MAX_ENDOWMENT: usize = 16;

/// One entry: which request it answers, what it names, and at what rights.
pub struct Entry {
    pub binding: Binding,
    pub object: Object,
    pub rights: u32,
    pub scope: u64,
}

/// An entry as the model holds it.
pub open spec fn entry_view(e: Entry) -> (Seq<u8>, Object, u32, u64) {
    (e.binding@, e.object, e.rights, e.scope)
}

/// One plan as the model holds it.
pub struct PlanState {
    pub live: bool,
    pub sealed: bool,
    pub generation: u32,
    pub entries: Seq<(Seq<u8>, Object, u32, u64)>,
}

/// One plan.
struct Plan {
    live: bool,
    sealed: bool,
    generation: u32,
    entries: Vec<Entry>,
}

spec fn plan_view(p: Plan) -> PlanState {
    PlanState { live: p.live, sealed: p.sealed, generation: p.generation, entries: p.entries@.map_values(|e: Entry| entry_view(e)) }
}

/// An unused slot, before its first plan.
pub open spec fn fresh_plan() -> PlanState {
    PlanState { live: false, sealed: false, generation: 1, entries: Seq::empty() }
}

/// The slot a live plan of this incarnation occupies, in the state asked
/// for, or why there is none.
pub open spec fn lookup(s: Seq<PlanState>, id: PlanId, sealed: bool) -> Result<int, Refusal> {
    let i = id.index as int;
    if i >= s.len() || !s[i].live || s[i].generation != id.generation {
        Err(Refusal::Unknown)
    } else if s[i].sealed != sealed {
        Err(Refusal::WrongState)
    } else {
        Ok(i)
    }
}

/// Whether an id names a live plan, in either state.
pub open spec fn plan_live(s: Seq<PlanState>, id: PlanId) -> bool {
    id.index < s.len() && s[id.index as int].live && s[id.index as int].generation == id.generation
}

/// The lowest slot no live plan occupies, from `i` on.
pub open spec fn first_dead(s: Seq<PlanState>, i: int) -> Option<int>
    decreases s.len() - i,
{
    if i < 0 || i >= s.len() {
        None
    } else if !s[i].live {
        Some(i)
    } else {
        first_dead(s, i + 1)
    }
}

/// How many plans are live among the first `n` slots.
pub open spec fn live_count(s: Seq<PlanState>, n: int) -> int
    decreases n,
{
    if n <= 0 {
        0
    } else {
        live_count(s, n - 1) + if s[n - 1].live { 1int } else { 0int }
    }
}

/// The objects a plan's entries name.
pub open spec fn objects_of(entries: Seq<(Seq<u8>, Object, u32, u64)>) -> Seq<Object> {
    entries.map_values(|e: (Seq<u8>, Object, u32, u64)| e.1)
}

/// The name each of `objs` held has been dropped, in order.
pub open spec fn chain(rs: Seq<Regions>, ps: Seq<Assignments>, objs: Seq<Object>) -> bool {
    &&& rs.len() == objs.len() + 1
    &&& ps.len() == objs.len() + 1
    &&& forall|k: int| 0 <= k < objs.len() ==> name_dropped(#[trigger] rs[k], rs[k + 1], ps[k], ps[k + 1], objs[k])
}

/// The tables after every name of `objs` is dropped, one after another.
pub open spec fn dropped_all(r0: Regions, r1: Regions, p0: Assignments, p1: Assignments, objs: Seq<Object>) -> bool {
    exists|rs: Seq<Regions>, ps: Seq<Assignments>|
        chain(rs, ps, objs) && rs[0] == r0 && ps[0] == p0 && rs.last() == r1 && ps.last() == p1
}

/// The plan table.
pub struct Plans {
    plans: Vec<Plan>,
}

impl Plans {
    /// Every slot, as the model holds it.
    pub closed spec fn states(&self) -> Seq<PlanState> {
        self.plans@.map_values(|p: Plan| plan_view(p))
    }

    /// A fixed number of slots; a plan's entries are bounded, name no plan,
    /// and a dead slot holds none.
    pub closed spec fn wf(&self) -> bool {
        &&& self.plans.len() == MAX_PLANS
        &&& forall|i: int| 0 <= i < self.plans.len() ==> {
            let p = #[trigger] self.plans@[i];
            &&& p.entries.len() <= MAX_ENDOWMENT
            &&& (!p.live ==> p.entries.len() == 0)
            &&& forall|k: int| 0 <= k < p.entries.len() ==> !names_plan(#[trigger] p.entries@[k].object)
        }
    }

    /// What the model may rely on of a well-formed table.
    pub proof fn lemma_wf(&self)
        requires
            self.wf(),
        ensures
            self.states().len() == MAX_PLANS,
            forall|i: int| 0 <= i < MAX_PLANS ==> {
                let p = #[trigger] self.states()[i];
                &&& p.entries.len() <= MAX_ENDOWMENT
                &&& (!p.live ==> p.entries.len() == 0)
                &&& forall|k: int| 0 <= k < p.entries.len() ==> !names_plan(#[trigger] p.entries[k].1)
            },
    {
        assert forall|i: int| 0 <= i < MAX_PLANS implies {
            let p = #[trigger] self.states()[i];
            &&& p.entries.len() <= MAX_ENDOWMENT
            &&& (!p.live ==> p.entries.len() == 0)
            &&& forall|k: int| 0 <= k < p.entries.len() ==> !names_plan(#[trigger] p.entries[k].1)
        } by {
            let q = self.plans@[i];
            assert(self.states()[i] == plan_view(q));
            assert forall|k: int| 0 <= k < self.states()[i].entries.len() implies !names_plan(#[trigger] self.states()[i].entries[k].1) by {
                assert(self.states()[i].entries[k] == entry_view(q.entries@[k]));
            }
        }
    }

    /// Every slot empty, at generation one.
    pub fn new() -> (t: Plans)
        ensures
            t.wf(),
            t.states() == Seq::new(MAX_PLANS as nat, |i: int| fresh_plan()),
    {
        let mut plans: Vec<Plan> = Vec::new();
        let mut i: usize = 0;
        while i < MAX_PLANS
            invariant
                i <= MAX_PLANS,
                plans@.len() == i,
                forall|j: int| 0 <= j < i ==> (#[trigger] plans@[j]).entries.len() == 0 && !plans@[j].live
                    && !plans@[j].sealed && plans@[j].generation == 1,
            decreases MAX_PLANS - i,
        {
            plans.push(Plan { live: false, sealed: false, generation: 1, entries: Vec::new() });
            i = i + 1;
        }
        let t = Plans { plans };
        proof {
            assert(t.states() =~= Seq::new(MAX_PLANS as nat, |i: int| fresh_plan())) by {
                assert forall|j: int| 0 <= j < MAX_PLANS implies t.states()[j] == fresh_plan() by {
                    assert(plan_view(t.plans@[j]).entries =~= Seq::<(Seq<u8>, Object, u32, u64)>::empty());
                }
            }
        }
        t
    }

    /// Makes an empty builder in the lowest free slot, or refuses because
    /// every slot is in use.
    pub fn create(&mut self) -> (r: Result<PlanId, Refusal>)
        requires
            old(self).wf(),
        ensures
            final(self).wf(),
            ({
                let s = old(self).states();
                match first_dead(s, 0) {
                    None => r == Err::<PlanId, Refusal>(Refusal::Full) && final(self).states() == s,
                    Some(i) => {
                        &&& r == Ok::<PlanId, Refusal>(PlanId { index: i as u32, generation: s[i].generation })
                        &&& final(self).states() == s.update(
                            i,
                            PlanState { live: true, sealed: false, generation: s[i].generation, entries: Seq::empty() },
                        )
                    },
                }
            }),
    {
        let mut i: usize = 0;
        while i < self.plans.len() && self.plans[i].live
            invariant
                self.wf(),
                *self == *old(self),
                i <= self.plans.len(),
                first_dead(self.states(), 0) == first_dead(self.states(), i as int),
            decreases self.plans.len() - i,
        {
            proof {
                assert(self.states()[i as int].live);
            }
            i = i + 1;
        }
        if i == self.plans.len() {
            return Err(Refusal::Full);
        }
        let ghost s = self.states();
        let generation = self.plans[i].generation;
        let fresh = Plan { live: true, sealed: false, generation, entries: Vec::new() };
        self.plans.set(i, fresh);
        proof {
            assert(!s[i as int].live);
            assert(self.states() =~= s.update(
                i as int,
                PlanState { live: true, sealed: false, generation, entries: Seq::empty() },
            )) by {
                assert(plan_view(fresh).entries =~= Seq::<(Seq<u8>, Object, u32, u64)>::empty());
            }
        }
        Ok(PlanId { index: i as u32, generation })
    }

    /// The live plan an id names, in the state the caller requires.
    fn at(&self, id: PlanId, sealed: bool) -> (r: Result<usize, Refusal>)
        requires
            self.wf(),
        ensures
            match lookup(self.states(), id, sealed) {
                Ok(i) => r == Ok::<usize, Refusal>(i as usize),
                Err(e) => r == Err::<usize, Refusal>(e),
            },
    {
        let i = id.index as usize;
        if i >= self.plans.len() || !self.plans[i].live || self.plans[i].generation != id.generation {
            return Err(Refusal::Unknown);
        }
        if self.plans[i].sealed != sealed {
            return Err(Refusal::WrongState);
        }
        Ok(i)
    }

    /// Adds one entry to a builder, taking the reference it holds first, so
    /// that an object that cannot be named once more leaves the plan as it
    /// was. An entry naming a plan is refused: a plan is what this is.
    pub fn endow(&mut self, regions: &mut Regions, pci: &mut Assignments, id: PlanId, entry: Entry) -> (r: Result<(), Refusal>)
        requires
            old(self).wf(),
            old(regions).wf(),
            old(pci).wf(),
        ensures
            final(self).wf(),
            final(regions).wf(),
            final(pci).wf(),
            ({
                let s = old(self).states();
                match lookup(s, id, false) {
                    Err(e) => r == Err::<(), Refusal>(e) && final(self).states() == s && *final(regions) == *old(regions)
                        && *final(pci) == *old(pci),
                    Ok(i) => if s[i].entries.len() >= MAX_ENDOWMENT || names_plan(entry.object) {
                        r == Err::<(), Refusal>(Refusal::Full) && final(self).states() == s && *final(regions) == *old(regions)
                            && *final(pci) == *old(pci)
                    } else {
                        exists|taken: Result<(), NotGranted>| {
                            &&& name_taken(*old(regions), *final(regions), *old(pci), *final(pci), entry.object, taken)
                            &&& taken is Err ==> r == Err::<(), Refusal>(Refusal::Full) && final(self).states() == s
                            &&& taken is Ok ==> r == Ok::<(), Refusal>(()) && final(self).states() == s.update(
                                i,
                                PlanState { entries: s[i].entries.push(entry_view(entry)), ..s[i] },
                            )
                        }
                    },
                }
            }),
    {
        let i = self.at(id, false)?;
        if self.plans[i].entries.len() >= MAX_ENDOWMENT {
            proof {
                assert(self.states()[i as int] == plan_view(self.plans@[i as int]));
            }
            return Err(Refusal::Full);
        }
        let is_plan = match entry.object {
            Object::LaunchPlanBuilder { .. } => true,
            Object::LaunchPlan { .. } => true,
            _ => false,
        };
        if is_plan {
            return Err(Refusal::Full);
        }
        let taken = retain_for_plan(regions, pci, entry.object);
        if taken.is_err() {
            return Err(Refusal::Full);
        }
        let ghost s = self.states();
        let ghost ev = entry_view(entry);
        let mut plan = self.plans.remove(i);
        plan.entries.push(entry);
        self.plans.insert(i, plan);
        proof {
            assert(self.states() =~= s.update(i as int, PlanState { entries: s[i as int].entries.push(ev), ..s[i as int] })) by {
                assert(plan_view(self.plans@[i as int]).entries =~= s[i as int].entries.push(ev));
            }
        }
        Ok(())
    }

    /// Seals a builder, advancing the slot's generation so the handle that
    /// named the builder names nothing afterwards.
    pub fn seal(&mut self, id: PlanId) -> (r: Result<PlanId, Refusal>)
        requires
            old(self).wf(),
        ensures
            final(self).wf(),
            ({
                let s = old(self).states();
                match lookup(s, id, false) {
                    Err(e) => r == Err::<PlanId, Refusal>(e) && final(self).states() == s,
                    Ok(i) => {
                        let g = s[i].generation.wrapping_add(1);
                        &&& r == Ok::<PlanId, Refusal>(PlanId { index: id.index, generation: g })
                        &&& final(self).states() == s.update(i, PlanState { sealed: true, generation: g, ..s[i] })
                    },
                }
            }),
    {
        let i = self.at(id, false)?;
        let ghost s = self.states();
        let mut plan = self.plans.remove(i);
        plan.sealed = true;
        plan.generation = plan.generation.wrapping_add(1);
        let generation = plan.generation;
        self.plans.insert(i, plan);
        proof {
            assert(self.states() =~= s.update(i as int, PlanState { sealed: true, generation, ..s[i as int] }));
        }
        Ok(PlanId { index: id.index, generation })
    }

    /// The entries of a sealed plan, for the creation that is about to apply
    /// them. A builder is a decision still being made, and is refused.
    pub fn entries(&self, id: PlanId) -> (r: Result<&[Entry], Refusal>)
        requires
            self.wf(),
        ensures
            match lookup(self.states(), id, true) {
                Err(e) => r == Err::<&[Entry], Refusal>(e),
                Ok(i) => r is Ok && r.unwrap()@.map_values(|e: Entry| entry_view(e)) == self.states()[i].entries,
            },
    {
        let i = self.at(id, true)?;
        let entries = self.plans[i].entries.as_slice();
        proof {
            assert(entries@.map_values(|e: Entry| entry_view(e)) =~= self.states()[i as int].entries);
        }
        Ok(entries)
    }

    /// Whether an id names a live plan in either state.
    pub fn is_live(&self, id: PlanId) -> (b: bool)
        requires
            self.wf(),
        ensures
            b == plan_live(self.states(), id),
    {
        let i = id.index as usize;
        i < self.plans.len() && self.plans[i].live && self.plans[i].generation == id.generation
    }

    /// How many plans are live.
    pub fn live(&self) -> (n: usize)
        requires
            self.wf(),
        ensures
            n == live_count(self.states(), MAX_PLANS as int),
    {
        let mut n: usize = 0;
        let mut i: usize = 0;
        while i < self.plans.len()
            invariant
                self.wf(),
                i <= self.plans.len(),
                n == live_count(self.states(), i as int),
                n <= i,
            decreases self.plans.len() - i,
        {
            if self.plans[i].live {
                n = n + 1;
            }
            i = i + 1;
        }
        n
    }

    /// Destroys a plan and releases every reference its entries held,
    /// exactly once. An id that names no live plan does nothing.
    pub fn destroy(&mut self, regions: &mut Regions, pci: &mut Assignments, id: PlanId)
        requires
            old(self).wf(),
            old(regions).wf(),
            old(pci).wf(),
        ensures
            final(self).wf(),
            final(regions).wf(),
            final(pci).wf(),
            destroyed(old(self).states(), final(self).states(), *old(regions), *final(regions), *old(pci), *final(pci), id),
    {
        let i = id.index as usize;
        if i >= self.plans.len() || !self.plans[i].live || self.plans[i].generation != id.generation {
            return;
        }
        let ghost s = self.states();
        let ghost r0 = *regions;
        let ghost p0 = *pci;
        let plan = self.plans.remove(i);
        let generation = plan.generation.wrapping_add(1);
        let entries = plan.entries;
        self.plans.insert(i, Plan { live: false, sealed: false, generation, entries: Vec::new() });
        proof {
            assert(s[i as int] == plan_view(plan));
        }
        let ghost objs = objects_of(s[i as int].entries);
        let ghost mut rs: Seq<Regions> = seq![r0];
        let ghost mut ps: Seq<Assignments> = seq![p0];
        let mut k: usize = 0;
        while k < entries.len()
            invariant
                regions.wf(),
                pci.wf(),
                k <= entries.len(),
                objs.len() == entries.len(),
                forall|j: int| 0 <= j < entries.len() ==> objs[j] == (#[trigger] entries@[j]).object,
                chain(rs, ps, objs.take(k as int)),
                rs[0] == r0,
                ps[0] == p0,
                rs.last() == *regions,
                ps.last() == *pci,
            decreases entries.len() - k,
        {
            let ghost before_r = *regions;
            let ghost before_p = *pci;
            release_for_plan(regions, pci, entries[k].object);
            proof {
                let objs2 = objs.take(k as int + 1);
                assert(objs2 =~= objs.take(k as int).push(objs[k as int]));
                rs = rs.push(*regions);
                ps = ps.push(*pci);
                assert forall|j: int| 0 <= j < objs2.len() implies name_dropped(#[trigger] rs[j], rs[j + 1], ps[j], ps[j + 1], objs2[j]) by {
                    if j < k {
                        assert(objs2[j] == objs.take(k as int)[j]);
                    }
                }
            }
            k = k + 1;
        }
        proof {
            assert(objs.take(entries.len() as int) =~= objs);
            assert(dropped_all(r0, *regions, p0, *pci, objs));
            assert(self.states() =~= s.update(
                i as int,
                PlanState { live: false, sealed: false, generation, entries: Seq::empty() },
            )) by {
                assert(plan_view(self.plans@[i as int]).entries =~= Seq::<(Seq<u8>, Object, u32, u64)>::empty());
            }
        }
    }
}

/// What `destroy(id)` does: a live plan's slot is emptied at the next
/// generation, and every name its entries held is dropped in order.
pub open spec fn destroyed(
    s0: Seq<PlanState>,
    s1: Seq<PlanState>,
    r0: Regions,
    r1: Regions,
    p0: Assignments,
    p1: Assignments,
    id: PlanId,
) -> bool {
    if plan_live(s0, id) {
        let i = id.index as int;
        &&& s1 == s0.update(
            i,
            PlanState { live: false, sealed: false, generation: s0[i].generation.wrapping_add(1), entries: Seq::empty() },
        )
        &&& dropped_all(r0, r1, p0, p1, objects_of(s0[i].entries))
    } else {
        s1 == s0 && r1 == r0 && p1 == p0
    }
}

} // verus!
