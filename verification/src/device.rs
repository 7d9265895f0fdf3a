//! Mapped device memory, and its lifetime under a PCI function assignment.
//!
//! A device window is not a region: it is external hardware state, it costs
//! no account anything, and releasing it returns nothing to anybody. What it
//! is, is a descendant of one function assignment, which stays live while a
//! window exists under it, so the same function cannot be claimed again and
//! reached through a window somebody still holds.
//!
//! The page tables belong to the process, so a mapping is made in two steps
//! around the caller's own work: [`Mappings::lane_for`] says which of the
//! process's lanes the window goes in, the caller maps it there, and
//! [`Mappings::map`] records the outcome. Ending a window hands back the lane
//! to unmap and the Command register write the assignment now wants.
use vstd::prelude::*;
use crate::pci::{Assignment, Assignments, Needs, settled, wanted_command, MAX_ASSIGNMENTS};

verus! {

/// How many device mappings may exist at once, across all processes.
pub const MAX_MAPPINGS: usize = 8;
/// How many windows one process may hold.
pub const MAX_DEVICE_MAPPINGS: usize = 4;

/// One mapped device window.
#[derive(Clone, Copy, Debug, PartialEq, Eq, Structural)]
pub struct Mapping {
    /// The assignment this descends from, and that assignment's generation.
    pub assignment: u32,
    pub assignment_generation: u32,
    /// The process whose address space holds the window, and its lane there.
    pub holder: u32,
    pub lane: u32,
    /// The physical extent: nucleus state, never public.
    pub physical: u64,
    pub length: u64,
    pub writable: bool,
    /// Advances when the slot is reused; never zero.
    pub generation: u32,
    /// How many capabilities name this mapping.
    pub names: u32,
    pub live: bool,
}

/// Why a mapping could not be made.
#[derive(Clone, Copy, Debug, PartialEq, Eq, Structural)]
pub enum Refused {
    /// No slot, or the process already holds as many windows as it may.
    Limit,
    /// The address space would not take it.
    Paging,
}

/// What ending a window leaves for the caller: the lane to unmap in the
/// holder's space, and the Command register value the assignment now wants,
/// where it changed.
#[derive(Clone, Copy, Debug, PartialEq, Eq, Structural)]
pub struct Unmapped {
    pub holder: u32,
    pub lane: u32,
    pub command: Option<u64>,
}

/// A slot nobody has used.
pub open spec fn empty_mapping() -> Mapping {
    Mapping {
        assignment: 0,
        assignment_generation: 0,
        holder: 0,
        lane: 0,
        physical: 0,
        length: 0,
        writable: false,
        generation: 1,
        names: 0,
        live: false,
    }
}

/// A mapping once it has ended: its slot free at the next generation,
/// which is never zero.
pub open spec fn ended(m: Mapping) -> Mapping {
    Mapping { live: false, names: 0, generation: if m.generation == u32::MAX { 1 } else { (m.generation + 1) as u32 }, ..m }
}

/// How many of the first `n` slots hold a live window of `holder`.
pub open spec fn held_by(s: Seq<Mapping>, holder: u32, n: int) -> int
    decreases n,
{
    if n <= 0 {
        0
    } else {
        held_by(s, holder, n - 1) + if s[n - 1].live && s[n - 1].holder == holder { 1int } else { 0int }
    }
}

/// The lowest free slot from `i` on.
pub open spec fn free_from(s: Seq<Mapping>, i: int) -> Option<int>
    decreases s.len() - i,
{
    if i < 0 || i >= s.len() {
        None
    } else if !s[i].live {
        Some(i)
    } else {
        free_from(s, i + 1)
    }
}

/// Which lane a new window of `holder` goes in, or why there is none.
pub open spec fn lane_spec(s: Seq<Mapping>, holder: u32) -> Result<u32, Refused> {
    if held_by(s, holder, s.len() as int) >= MAX_DEVICE_MAPPINGS || free_from(s, 0) is None {
        Err(Refused::Limit)
    } else {
        Ok(held_by(s, holder, s.len() as int) as u32)
    }
}

/// The assignment after one more descendant that decodes memory.
pub open spec fn with_descendant(a: Assignment) -> Assignment {
    Assignment { descendants: (a.descendants + 1) as u32, memory_decoding: (a.memory_decoding + 1) as u32, ..a }
}

/// The assignment after one such descendant goes.
pub open spec fn without_descendant(a: Assignment) -> Assignment {
    Assignment {
        descendants: if a.descendants > 0 { (a.descendants - 1) as u32 } else { 0 },
        memory_decoding: if a.memory_decoding > 0 { (a.memory_decoding - 1) as u32 } else { a.memory_decoding },
        ..a
    }
}

/// The Command register write a changed assignment wants, if any.
pub open spec fn command_for(b: Assignment, command: u64) -> Option<u64> {
    if wanted_command(b, command) != command {
        Some(wanted_command(b, command))
    } else {
        None
    }
}

/// What ending window `k` does to the assignments, and what it hands back.
pub open spec fn dropped(p0: Seq<Assignment>, p1: Seq<Assignment>, pci_named: Option<Assignment>, m: Mapping, command: u64, u: Unmapped) -> bool {
    &&& u.holder == m.holder
    &&& u.lane == m.lane
    &&& match pci_named {
        None => u.command is None && p1 == p0,
        Some(a) => p1 == p0.update(m.assignment as int, settled(without_descendant(a))) && u.command == command_for(
            without_descendant(a),
            command,
        ),
    }
}

/// The live assignment `(index, generation)` names among `p`, if any.
pub open spec fn named_in(p: Seq<Assignment>, index: u32, generation: u32) -> Option<Assignment> {
    if index < MAX_ASSIGNMENTS && p[index as int].live && p[index as int].generation == generation {
        Some(p[index as int])
    } else {
        None
    }
}

/// The assignments once mapping `m` has ended: its assignment, if still the
/// one it named, has a descendant fewer.
pub open spec fn after_drop(p: Seq<Assignment>, m: Mapping) -> Seq<Assignment> {
    match named_in(p, m.assignment, m.assignment_generation) {
        None => p,
        Some(a) => p.update(m.assignment as int, settled(without_descendant(a))),
    }
}

/// The assignments once every mapping of `process` among the first `k`
/// slots has ended, in slot order.
pub open spec fn after_clearing(p: Seq<Assignment>, ms: Seq<Mapping>, process: u32, k: int) -> Seq<Assignment>
    decreases k,
{
    if k <= 0 {
        p
    } else {
        let prev = after_clearing(p, ms, process, k - 1);
        let m = ms[k - 1];
        if m.live && m.holder == process {
            after_drop(prev, m)
        } else {
            prev
        }
    }
}

/// The Command register value after the writes those endings made, from
/// `command`, each computed against the one before it.
pub open spec fn command_after(p: Seq<Assignment>, ms: Seq<Mapping>, process: u32, command: u64, k: int) -> u64
    decreases k,
{
    if k <= 0 {
        command
    } else {
        let prev = command_after(p, ms, process, command, k - 1);
        let m = ms[k - 1];
        if m.live && m.holder == process {
            match named_in(after_clearing(p, ms, process, k - 1), m.assignment, m.assignment_generation) {
                Some(a) => match command_for(without_descendant(a), prev) {
                    Some(w) => w,
                    None => prev,
                },
                None => prev,
            }
        } else {
            prev
        }
    }
}

/// The device mapping table.
pub struct Mappings {
    entries: Vec<Mapping>,
}

impl Mappings {
    pub closed spec fn slots(&self) -> Seq<Mapping> {
        self.entries@
    }

    /// A fixed number of slots, none at generation zero.
    pub closed spec fn wf(&self) -> bool {
        &&& self.entries.len() == MAX_MAPPINGS
        &&& forall|i: int| 0 <= i < MAX_MAPPINGS ==> #[trigger] self.entries@[i].generation != 0
    }

    /// The live mapping `(index, generation)` names.
    pub open spec fn named(&self, index: u32, generation: u32) -> Option<Mapping> {
        if index < MAX_MAPPINGS && self.slots()[index as int].live && self.slots()[index as int].generation == generation {
            Some(self.slots()[index as int])
        } else {
            None
        }
    }

    /// Every slot free, at generation one.
    pub fn new() -> (t: Mappings)
        ensures
            t.wf(),
            t.slots() == Seq::new(MAX_MAPPINGS as nat, |i: int| empty_mapping()),
    {
        let mut entries: Vec<Mapping> = Vec::new();
        let mut i: usize = 0;
        while i < MAX_MAPPINGS
            invariant
                i <= MAX_MAPPINGS,
                entries@ == Seq::new(i as nat, |j: int| empty_mapping()),
            decreases MAX_MAPPINGS - i,
        {
            entries.push(Mapping {
                assignment: 0,
                assignment_generation: 0,
                holder: 0,
                lane: 0,
                physical: 0,
                length: 0,
                writable: false,
                generation: 1,
                names: 0,
                live: false,
            });
            i = i + 1;
            proof {
                assert(entries@ =~= Seq::new(i as nat, |j: int| empty_mapping()));
            }
        }
        Mappings { entries }
    }

    /// The lowest free slot.
    fn free(&self) -> (r: Option<usize>)
        requires
            self.wf(),
        ensures
            match free_from(self.slots(), 0) {
                Some(i) => r is Some && r.unwrap() as int == i,
                None => r is None,
            },
            r matches Some(i) ==> i < MAX_MAPPINGS,
    {
        let mut i: usize = 0;
        while i < self.entries.len()
            invariant
                self.wf(),
                i <= self.entries.len(),
                free_from(self.slots(), 0) == free_from(self.slots(), i as int),
            decreases self.entries.len() - i,
        {
            if !self.entries[i].live {
                return Some(i);
            }
            i = i + 1;
        }
        None
    }

    /// Which of its own lanes a new window of `holder` goes in: the next
    /// after those it holds, bounded per process so one driver cannot
    /// exhaust the table for every other.
    pub fn lane_for(&self, holder: u32) -> (r: Result<u32, Refused>)
        requires
            self.wf(),
        ensures
            r == lane_spec(self.slots(), holder),
    {
        let mut held: usize = 0;
        let mut i: usize = 0;
        while i < self.entries.len()
            invariant
                self.wf(),
                i <= self.entries.len(),
                held <= i,
                held == held_by(self.slots(), holder, i as int),
            decreases self.entries.len() - i,
        {
            if self.entries[i].live && self.entries[i].holder == holder {
                held = held + 1;
            }
            i = i + 1;
        }
        if held >= MAX_DEVICE_MAPPINGS {
            return Err(Refused::Limit);
        }
        if self.free().is_none() {
            return Err(Refused::Limit);
        }
        Ok(held as u32)
    }

    /// Records a window the caller mapped at `base` (or failed to map) in
    /// lane [`Mappings::lane_for`] gave, as a descendant of the assignment.
    /// The descendant is taken after the window exists; when it cannot be,
    /// the caller unmaps the lane again. On success the handle's index and
    /// generation, the base, and the Command register write the assignment
    /// now wants are returned.
    pub fn map(
        &mut self,
        pci: &mut Assignments,
        assignment: u32,
        assignment_generation: u32,
        holder: u32,
        physical: u64,
        length: u64,
        writable: bool,
        mapped: Result<u64, ()>,
        command: u64,
    ) -> (r: Result<(u32, u32, u64, Option<u64>), Refused>)
        requires
            old(self).wf(),
            old(pci).wf(),
        ensures
            final(self).wf(),
            final(pci).wf(),
            final(pci).root_bus() == old(pci).root_bus(),
            ({
                let s = old(self).slots();
                match lane_spec(s, holder) {
                    Err(e) => r == Err::<(u32, u32, u64, Option<u64>), Refused>(e) && final(self).slots() == s
                        && final(pci).slots() == old(pci).slots(),
                    Ok(lane) => match mapped {
                        Err(_) => r == Err::<(u32, u32, u64, Option<u64>), Refused>(Refused::Paging) && final(self).slots() == s
                            && final(pci).slots() == old(pci).slots(),
                        Ok(base) => match old(pci).named(assignment, assignment_generation) {
                            Some(a) if a.descendants < u32::MAX && a.memory_decoding < u32::MAX => {
                                let i = free_from(s, 0).unwrap();
                                let b = with_descendant(a);
                                &&& final(pci).slots() == old(pci).slots().update(assignment as int, b)
                                &&& r == Ok::<(u32, u32, u64, Option<u64>), Refused>((i as u32, s[i].generation, base, command_for(b, command)))
                                &&& final(self).slots() == s.update(i, Mapping {
                                    assignment,
                                    assignment_generation,
                                    holder,
                                    lane,
                                    physical,
                                    length,
                                    writable,
                                    names: 0,
                                    live: true,
                                    generation: s[i].generation,
                                })
                            },
                            _ => r == Err::<(u32, u32, u64, Option<u64>), Refused>(Refused::Limit) && final(self).slots() == s
                                && final(pci).slots() == old(pci).slots(),
                        },
                    },
                }
            }),
    {
        let lane = self.lane_for(holder)?;
        let base = match mapped {
            Ok(base) => base,
            Err(_) => return Err(Refused::Paging),
        };
        let write = match pci.take_descendant(assignment, assignment_generation, Needs::mmio(), command) {
            Ok(w) => w,
            Err(_) => return Err(Refused::Limit),
        };
        let index = self.free().unwrap();
        let generation = self.entries[index].generation;
        self.entries.set(index, Mapping {
            assignment,
            assignment_generation,
            holder,
            lane,
            physical,
            length,
            writable,
            generation,
            names: 0,
            live: true,
        });
        Ok((index as u32, generation, base, write))
    }

    /// The live mapping a capability names, if its generation still matches.
    fn mapping(&self, index: u32, generation: u32) -> (r: Option<Mapping>)
        requires
            self.wf(),
        ensures
            r == self.named(index, generation),
    {
        let i = index as usize;
        if i >= self.entries.len() {
            return None;
        }
        let e = self.entries[i];
        if e.live && e.generation == generation {
            Some(e)
        } else {
            None
        }
    }

    /// Whether the mapping a capability names is still usable authority.
    pub fn is_live(&self, index: u32, generation: u32) -> (b: bool)
        requires
            self.wf(),
        ensures
            b == self.named(index, generation) is Some,
    {
        self.mapping(index, generation).is_some()
    }

    /// Takes a name on a mapping, refusing rather than wrapping.
    pub fn retain(&mut self, index: u32, generation: u32) -> (r: Result<(), ()>)
        requires
            old(self).wf(),
        ensures
            final(self).wf(),
            r is Ok <==> (old(self).named(index, generation) matches Some(m) && m.names < u32::MAX),
            r is Ok ==> final(self).slots() == old(self).slots().update(
                index as int,
                Mapping { names: (old(self).slots()[index as int].names + 1) as u32, ..old(self).slots()[index as int] },
            ),
            r is Err ==> final(self).slots() == old(self).slots(),
    {
        let mut m = match self.mapping(index, generation) {
            Some(m) => m,
            None => return Err(()),
        };
        m.names = match m.names.checked_add(1) {
            Some(n) => n,
            None => return Err(()),
        };
        self.entries.set(index as usize, m);
        Ok(())
    }

    /// Ends the window in slot `index`: its slot is freed at the next
    /// generation and its assignment loses a descendant.
    fn destroy(&mut self, pci: &mut Assignments, index: usize, command: u64) -> (u: Unmapped)
        requires
            old(self).wf(),
            old(pci).wf(),
            index < MAX_MAPPINGS,
        ensures
            final(self).wf(),
            final(pci).wf(),
            final(pci).root_bus() == old(pci).root_bus(),
            final(self).slots() == old(self).slots().update(index as int, ended(old(self).slots()[index as int])),
            ({
                let m = old(self).slots()[index as int];
                dropped(old(pci).slots(), final(pci).slots(), old(pci).named(m.assignment, m.assignment_generation), m, command, u)
            }),
    {
        let m = self.entries[index];
        let mut e = m;
        e.live = false;
        e.names = 0;
        e.generation = e.generation.wrapping_add(1);
        if e.generation == 0 {
            e.generation = 1;
        }
        self.entries.set(index, e);
        let write = pci.drop_descendant(m.assignment, m.assignment_generation, Needs::mmio(), command);
        Unmapped { holder: m.holder, lane: m.lane, command: write }
    }

    /// Drops a name, and ends the mapping when it was the last one.
    pub fn release(&mut self, pci: &mut Assignments, index: u32, generation: u32, command: u64) -> (r: Result<Option<Unmapped>, ()>)
        requires
            old(self).wf(),
            old(pci).wf(),
        ensures
            final(self).wf(),
            final(pci).wf(),
            final(pci).root_bus() == old(pci).root_bus(),
            r is Ok <==> (old(self).named(index, generation) matches Some(m) && m.names > 0),
            r is Err ==> final(self).slots() == old(self).slots() && final(pci).slots() == old(pci).slots(),
            r matches Ok(None) ==> old(self).slots()[index as int].names > 1 && final(pci).slots() == old(pci).slots()
                && final(self).slots() == old(self).slots().update(
                index as int,
                Mapping { names: (old(self).slots()[index as int].names - 1) as u32, ..old(self).slots()[index as int] },
            ),
            r matches Ok(Some(u)) ==> {
                let m = old(self).slots()[index as int];
                &&& m.names == 1
                &&& final(self).slots() == old(self).slots().update(index as int, ended(m))
                &&& dropped(old(pci).slots(), final(pci).slots(), old(pci).named(m.assignment, m.assignment_generation), m, command, u)
            },
    {
        let mut m = match self.mapping(index, generation) {
            Some(m) => m,
            None => return Err(()),
        };
        m.names = match m.names.checked_sub(1) {
            Some(n) => n,
            None => return Err(()),
        };
        if m.names != 0 {
            self.entries.set(index as usize, m);
            return Ok(None);
        }
        Ok(Some(self.destroy(pci, index as usize, command)))
    }

    /// Ends a mapping that was never named, so a failed grant leaves nothing.
    pub fn abandon(&mut self, pci: &mut Assignments, index: u32, generation: u32, command: u64) -> (r: Option<Unmapped>)
        requires
            old(self).wf(),
            old(pci).wf(),
        ensures
            final(self).wf(),
            final(pci).wf(),
            final(pci).root_bus() == old(pci).root_bus(),
            (old(self).named(index, generation) matches Some(m) && m.names == 0) ==> (r matches Some(u) && {
                let m = old(self).slots()[index as int];
                &&& final(self).slots() == old(self).slots().update(index as int, ended(m))
                &&& dropped(old(pci).slots(), final(pci).slots(), old(pci).named(m.assignment, m.assignment_generation), m, command, u)
            }),
            !(old(self).named(index, generation) matches Some(m) && m.names == 0) ==> r is None && final(self).slots()
                == old(self).slots() && final(pci).slots() == old(pci).slots(),
    {
        match self.mapping(index, generation) {
            Some(m) => {
                if m.names != 0 {
                    return None;
                }
            },
            None => return None,
        }
        Some(self.destroy(pci, index as usize, command))
    }

    /// Removes every window a process held, when it dies: each one tells
    /// its assignment a descendant has gone, so an assignment whose driver
    /// died becomes releasable. Position `k` of the result is what ending
    /// slot `k` leaves for the caller, where it ended; `command` is the
    /// Command register value before the first of them, and each write is
    /// computed against the one before it.
    pub fn clear_process(&mut self, pci: &mut Assignments, process: u32, command: u64) -> (r: Vec<Option<Unmapped>>)
        requires
            old(self).wf(),
            old(pci).wf(),
        ensures
            final(self).wf(),
            final(pci).wf(),
            final(pci).root_bus() == old(pci).root_bus(),
            r@.len() == MAX_MAPPINGS,
            forall|k: int| 0 <= k < MAX_MAPPINGS ==> {
                let m = #[trigger] old(self).slots()[k];
                &&& (m.live && m.holder == process) ==> (r@[k] matches Some(u) && u.holder == m.holder && u.lane == m.lane
                    && final(self).slots()[k] == ended(m) && u.command == (match named_in(
                    after_clearing(old(pci).slots(), old(self).slots(), process, k),
                    m.assignment,
                    m.assignment_generation,
                ) {
                    Some(a) => command_for(without_descendant(a), command_after(old(pci).slots(), old(self).slots(), process, command, k)),
                    None => None,
                }))
                &&& !(m.live && m.holder == process) ==> r@[k] is None && final(self).slots()[k] == m
            },
            final(pci).slots() == after_clearing(old(pci).slots(), old(self).slots(), process, MAX_MAPPINGS as int),
    {
        let ghost s0 = self.slots();
        let ghost p0 = pci.slots();
        let mut out: Vec<Option<Unmapped>> = Vec::new();
        let mut current = command;
        let mut at: usize = 0;
        while at < MAX_MAPPINGS
            invariant
                self.wf(),
                pci.wf(),
                pci.root_bus() == old(pci).root_bus(),
                s0 == old(self).slots(),
                at <= MAX_MAPPINGS,
                out@.len() == at,
                forall|k: int| at <= k < MAX_MAPPINGS ==> self.slots()[k] == s0[k],
                forall|k: int| 0 <= k < at ==> {
                    let m = #[trigger] s0[k];
                    &&& (m.live && m.holder == process) ==> (out@[k] matches Some(u) && u.holder == m.holder && u.lane == m.lane
                        && self.slots()[k] == ended(m) && u.command == (match named_in(
                        after_clearing(p0, s0, process, k),
                        m.assignment,
                        m.assignment_generation,
                    ) {
                        Some(a) => command_for(without_descendant(a), command_after(p0, s0, process, command, k)),
                        None => None,
                    }))
                    &&& !(m.live && m.holder == process) ==> out@[k] is None && self.slots()[k] == m
                },
                p0 == old(pci).slots(),
                pci.slots() == after_clearing(p0, s0, process, at as int),
                current == command_after(p0, s0, process, command, at as int),
            decreases MAX_MAPPINGS - at,
        {
            let m = self.entries[at];
            proof {
                assert(m == s0[at as int]);
            }
            if m.live && m.holder == process {
                let ghost before = pci.slots();
                proof {
                    assert(old(pci).named(m.assignment, m.assignment_generation) == named_in(old(pci).slots(), m.assignment, m.assignment_generation));
                }
                let u = self.destroy(pci, at, current);
                proof {
                    assert(pci.slots() == after_drop(before, m));
                }
                if let Some(w) = u.command {
                    current = w;
                }
                out.push(Some(u));
            } else {
                out.push(None);
            }
            at = at + 1;
        }
        out
    }
}

} // verus!
