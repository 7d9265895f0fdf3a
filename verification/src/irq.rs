//! Routed interrupt authority, and the delivery it names.
//!
//! A routed source descends from a live PCI function assignment and from
//! nothing else. A number is not authority: the one number a caller supplies
//! is an MSI-X table entry index within the function its capability already
//! names. The vector a source is given is the nucleus's, never returned to
//! the allocator, and never reused: a stale message carries a vector and not
//! a generation, so retiring the vector is what stands in for the proof a
//! generation cannot give.
use vstd::prelude::*;
use crate::apic::LOCAL_APIC;
use crate::pci::Assignments;
use crate::process::Waiting;

verus! {

/// How many routed sources may exist at once.
pub const MAX_SOURCES: usize = 8;
/// The first CPU vector handed to a device, and how many there are: above
/// the timer and clear of the spurious vector.
pub const FIRST_DEVICE_VECTOR: u8 = 48;
pub const DEVICE_VECTORS: usize = 16;

/// One routed interrupt source.
#[derive(Clone, Copy)]
pub struct Source {
    /// The assignment it descends from, and that assignment's generation.
    pub assignment: u32,
    pub assignment_generation: u32,
    /// Which MSI-X table entry of that function this is.
    pub entry: u64,
    /// The vector the nucleus allocated.
    pub vector: u8,
    /// The one process inside a wait on it, if any.
    pub waiter: Option<u32>,
    /// One bit: something arrived since the last wait collected it.
    pub pending: bool,
    /// How many interrupts it has taken.
    pub deliveries: u32,
    /// The process that claimed it.
    pub holder: u32,
    /// Advances when the slot is reused; never zero.
    pub generation: u32,
    /// How many capabilities name it.
    pub names: u32,
    pub live: bool,
}

/// Why a source could not be derived.
#[derive(Clone, Copy, Debug, PartialEq, Eq, Structural)]
pub enum Refused {
    /// The entry index names no entry of this function's table.
    BadArgument,
    /// The assignment has gone, or the function has no usable MSI-X table.
    OutOfScope,
    /// A live source already occupies this entry; the table is full; or the
    /// vector supply is spent.
    Limit,
}

/// What a wait on a source found.
#[derive(Clone, Copy, Debug, PartialEq, Eq, Structural)]
pub enum Wait {
    /// The latch was set: it is cleared and the call returns without blocking.
    Ready,
    /// Nothing has arrived and this context is now the source's one waiter.
    Blocked,
    /// A context is already waiting on this source.
    Occupied,
    /// The source has gone.
    Gone,
}

/// What a device interrupt on one vector comes to.
#[derive(Clone, Copy, Debug, PartialEq, Eq, Structural)]
pub enum Delivery {
    /// No live source has the vector: counted, and nobody is woken.
    Spurious { vector: u8, count: u32 },
    /// The source at `index` took it; `waiter` is the context to wake, or
    /// none when the latch now remembers it instead.
    Delivered { index: u32, entry: u64, deliveries: u32, waiter: Option<u32> },
}

/// The message an entry is programmed with for one vector: the local-APIC
/// message window with a physical destination of the boot processor, and the
/// vector, delivered fixed and edge-triggered.
pub fn message_for(vector: u8) -> (m: (u64, u32))
    ensures
        m == (LOCAL_APIC, vector as u32),
{
    (LOCAL_APIC, vector as u32)
}

pub open spec fn empty_source() -> Source {
    Source {
        assignment: 0,
        assignment_generation: 0,
        entry: 0,
        vector: 0,
        waiter: None,
        pending: false,
        deliveries: 0,
        holder: 0,
        generation: 1,
        names: 0,
        live: false,
    }
}

/// A source once it has ended: unpublished, its waiter and latch gone, its
/// generation advanced past zero.
pub open spec fn ended(s: Source) -> Source {
    Source {
        live: false,
        names: 0,
        waiter: None,
        pending: false,
        generation: if s.generation == u32::MAX { 1 } else { (s.generation + 1) as u32 },
        ..s
    }
}

/// What an ended source leaves for its caller to carry out: mask the entry,
/// disable the function's MSI-X when this was its last source, drop the
/// descendant, and cancel the waiter.
#[derive(Clone, Copy, Debug, PartialEq, Eq, Structural)]
pub struct Ending {
    pub assignment: u32,
    pub assignment_generation: u32,
    pub entry: u64,
    pub vector: u8,
    pub waiter: Option<u32>,
    pub last_of_function: bool,
}

/// The routed-source table and the vector supply.
pub struct Sources {
    sources: Vec<Source>,
    vectors_taken: usize,
    spurious: u32,
}

impl Sources {
    pub closed spec fn slots(&self) -> Seq<Source> {
        self.sources@
    }

    /// How many vectors have ever been handed out.
    pub closed spec fn taken(&self) -> nat {
        self.vectors_taken as nat
    }

    pub closed spec fn spurious_count(&self) -> u32 {
        self.spurious
    }

    /// A fixed number of slots, none at generation zero, and a supply that
    /// has handed out no more than it has.
    pub closed spec fn wf(&self) -> bool {
        &&& self.sources.len() == MAX_SOURCES
        &&& self.vectors_taken <= DEVICE_VECTORS
        &&& forall|i: int| 0 <= i < self.sources.len() ==> #[trigger] self.sources@[i].generation != 0
    }

    /// The live source `(index, generation)` names, given the assignments:
    /// a source of an assignment that has ended does not resolve.
    pub open spec fn named(&self, pci: &Assignments, index: u32, generation: u32) -> Option<Source> {
        if index < MAX_SOURCES && self.slots()[index as int].live && self.slots()[index as int].generation == generation
            && pci.named(self.slots()[index as int].assignment, self.slots()[index as int].assignment_generation) is Some {
            Some(self.slots()[index as int])
        } else {
            None
        }
    }

    /// No sources, and every vector still to give.
    pub fn new() -> (t: Sources)
        ensures
            t.wf(),
            t.taken() == 0,
            t.spurious_count() == 0,
            t.slots() == Seq::new(MAX_SOURCES as nat, |i: int| empty_source()),
    {
        let mut sources: Vec<Source> = Vec::new();
        let mut i: usize = 0;
        while i < MAX_SOURCES
            invariant
                i <= MAX_SOURCES,
                sources@ == Seq::new(i as nat, |j: int| empty_source()),
            decreases MAX_SOURCES - i,
        {
            sources.push(Source {
                assignment: 0,
                assignment_generation: 0,
                entry: 0,
                vector: 0,
                waiter: None,
                pending: false,
                deliveries: 0,
                holder: 0,
                generation: 1,
                names: 0,
                live: false,
            });
            i = i + 1;
            proof {
                assert(sources@ =~= Seq::new(i as nat, |j: int| empty_source()));
            }
        }
        Sources { sources, vectors_taken: 0, spurious: 0 }
    }

    /// Takes the next CPU vector, or nothing when the supply is spent. The
    /// supply only counts up: a vector once handed out is never handed out
    /// again.
    fn allocate_vector(&mut self) -> (v: Option<u8>)
        requires
            old(self).wf(),
        ensures
            final(self).wf(),
            final(self).slots() == old(self).slots(),
            final(self).spurious_count() == old(self).spurious_count(),
            old(self).taken() >= DEVICE_VECTORS ==> v is None && final(self).taken() == old(self).taken(),
            old(self).taken() < DEVICE_VECTORS ==> v == Some((FIRST_DEVICE_VECTOR + old(self).taken()) as u8)
                && final(self).taken() == old(self).taken() + 1,
            supply_step(old(self).taken(), final(self).taken(), v),
    {
        if self.vectors_taken >= DEVICE_VECTORS {
            return None;
        }
        let v = FIRST_DEVICE_VECTOR + self.vectors_taken as u8;
        self.vectors_taken = self.vectors_taken + 1;
        Some(v)
    }

    /// The first step of deriving a source: refuses a second source for one
    /// entry whether or not there is room, then a full table, then a spent
    /// supply; otherwise takes the vector and names the slot the source will
    /// occupy once its entry is programmed.
    pub fn reserve(&mut self, assignment: u32, assignment_generation: u32, entry_index: u64) -> (r: Result<(usize, u8), Refused>)
        requires
            old(self).wf(),
        ensures
            final(self).wf(),
            final(self).slots() == old(self).slots(),
            final(self).spurious_count() == old(self).spurious_count(),
            ({
                let s = old(self).slots();
                if exists|i: int| 0 <= i < s.len() && #[trigger] s[i].live && s[i].assignment == assignment
                    && s[i].assignment_generation == assignment_generation && s[i].entry == entry_index {
                    r == Err::<(usize, u8), Refused>(Refused::Limit) && final(self).taken() == old(self).taken()
                } else if forall|i: int| 0 <= i < s.len() ==> #[trigger] s[i].live {
                    r == Err::<(usize, u8), Refused>(Refused::Limit) && final(self).taken() == old(self).taken()
                } else if old(self).taken() >= DEVICE_VECTORS {
                    r == Err::<(usize, u8), Refused>(Refused::Limit) && final(self).taken() == old(self).taken()
                } else {
                    r matches Ok((slot, vector)) && slot < MAX_SOURCES && !s[slot as int].live
                        && (forall|j: int| 0 <= j < slot ==> #[trigger] s[j].live)
                        && vector == FIRST_DEVICE_VECTOR + old(self).taken()
                        && final(self).taken() == old(self).taken() + 1
                }
            }),
            supply_step(
                old(self).taken(),
                final(self).taken(),
                match r {
                    Ok((_, vector)) => Some(vector),
                    Err(_) => None,
                },
            ),
    {
        let mut i: usize = 0;
        while i < self.sources.len()
            invariant
                self.wf(),
                self.sources@ == old(self).sources@,
                self.vectors_taken == old(self).vectors_taken,
                self.spurious == old(self).spurious,
                i <= self.sources.len(),
                forall|j: int| 0 <= j < i ==> !(#[trigger] self.sources@[j].live && self.sources@[j].assignment == assignment
                    && self.sources@[j].assignment_generation == assignment_generation && self.sources@[j].entry == entry_index),
            decreases self.sources.len() - i,
        {
            let s = self.sources[i];
            if s.live && s.assignment == assignment && s.assignment_generation == assignment_generation && s.entry == entry_index {
                proof {
                    assert(old(self).slots()[i as int].live);
                }
                return Err(Refused::Limit);
            }
            i = i + 1;
        }
        let mut slot: usize = 0;
        while slot < self.sources.len() && self.sources[slot].live
            invariant
                self.wf(),
                self.sources@ == old(self).sources@,
                self.vectors_taken == old(self).vectors_taken,
                self.spurious == old(self).spurious,
                slot <= self.sources.len(),
                forall|j: int| 0 <= j < slot ==> #[trigger] self.sources@[j].live,
            decreases self.sources.len() - slot,
        {
            slot = slot + 1;
        }
        if slot == self.sources.len() {
            return Err(Refused::Limit);
        }
        proof {
            assert(!old(self).slots()[slot as int].live);
        }
        match self.allocate_vector() {
            Some(vector) => Ok((slot, vector)),
            None => Err(Refused::Limit),
        }
    }

    /// Publishes a source whose entry has been programmed, before it is
    /// unmasked, so a delivered message never finds a handler with no source
    /// to wake.
    pub fn publish(&mut self, slot: usize, assignment: u32, assignment_generation: u32, entry: u64, vector: u8, holder: u32) -> (r: (u32, u32))
        requires
            old(self).wf(),
            slot < MAX_SOURCES,
        ensures
            final(self).wf(),
            final(self).taken() == old(self).taken(),
            final(self).spurious_count() == old(self).spurious_count(),
            r == (slot as u32, old(self).slots()[slot as int].generation),
            final(self).slots() == old(self).slots().update(slot as int, Source {
                assignment,
                assignment_generation,
                entry,
                vector,
                waiter: None,
                pending: false,
                deliveries: 0,
                holder,
                names: 0,
                live: true,
                ..old(self).slots()[slot as int]
            }),
    {
        let mut s = self.sources[slot];
        s.assignment = assignment;
        s.assignment_generation = assignment_generation;
        s.entry = entry;
        s.vector = vector;
        s.waiter = None;
        s.pending = false;
        s.deliveries = 0;
        s.holder = holder;
        s.names = 0;
        s.live = true;
        self.sources.set(slot, s);
        (slot as u32, s.generation)
    }

    /// The live source a capability names.
    pub fn source(&self, pci: &Assignments, index: u32, generation: u32) -> (r: Option<Source>)
        requires
            self.wf(),
            pci.wf(),
        ensures
            r == self.named(pci, index, generation),
    {
        let i = index as usize;
        if i >= MAX_SOURCES {
            return None;
        }
        let s = self.sources[i];
        if !s.live || s.generation != generation {
            return None;
        }
        if pci.is_live(s.assignment, s.assignment_generation) {
            Some(s)
        } else {
            None
        }
    }

    /// Whether the source a capability names is still usable authority.
    pub fn is_live(&self, pci: &Assignments, index: u32, generation: u32) -> (b: bool)
        requires
            self.wf(),
            pci.wf(),
        ensures
            b == self.named(pci, index, generation) is Some,
    {
        self.source(pci, index, generation).is_some()
    }

    /// The function and entry a source names, for the audit record.
    pub fn describe(&self, pci: &Assignments, index: u32, generation: u32) -> (r: Option<(u16, u8, u8, u8, u64)>)
        requires
            self.wf(),
            pci.wf(),
        ensures
            r == (match self.named(pci, index, generation) {
                Some(s) => {
                    let a = pci.named(s.assignment, s.assignment_generation).unwrap();
                    Some((a.segment, a.bus, a.device, a.function, s.entry))
                },
                None => None,
            }),
    {
        let s = match self.source(pci, index, generation) {
            Some(s) => s,
            None => return None,
        };
        match pci.describe(s.assignment, s.assignment_generation) {
            Some((segment, bus, device, function)) => Some((segment, bus, device, function, s.entry)),
            None => None,
        }
    }

    /// Takes a name on a source, refusing rather than wrapping.
    pub fn retain(&mut self, pci: &Assignments, index: u32, generation: u32) -> (r: Result<(), ()>)
        requires
            old(self).wf(),
            pci.wf(),
        ensures
            final(self).wf(),
            final(self).taken() == old(self).taken(),
            final(self).spurious_count() == old(self).spurious_count(),
            r is Ok <==> (old(self).named(pci, index, generation) matches Some(s) && s.names < u32::MAX),
            r is Ok ==> final(self).slots() == old(self).slots().update(index as int,
                Source { names: (old(self).slots()[index as int].names + 1) as u32, ..old(self).slots()[index as int] }),
            r is Err ==> final(self).slots() == old(self).slots(),
    {
        let mut s = match self.source(pci, index, generation) {
            Some(s) => s,
            None => return Err(()),
        };
        s.names = match s.names.checked_add(1) {
            Some(n) => n,
            None => return Err(()),
        };
        self.sources.set(index as usize, s);
        Ok(())
    }

    /// Ends one source: unpublished before its waiter is cancelled, so the
    /// waiter never finds the source still answering. Its vector is retired.
    fn destroy(&mut self, index: usize) -> (e: Ending)
        requires
            old(self).wf(),
            index < MAX_SOURCES,
        ensures
            final(self).wf(),
            final(self).taken() == old(self).taken(),
            final(self).spurious_count() == old(self).spurious_count(),
            final(self).slots() == old(self).slots().update(index as int, ended(old(self).slots()[index as int])),
            ({
                let s = old(self).slots()[index as int];
                &&& e.assignment == s.assignment
                &&& e.assignment_generation == s.assignment_generation
                &&& e.entry == s.entry
                &&& e.vector == s.vector
                &&& e.waiter == s.waiter
                &&& e.last_of_function == !(exists|j: int| 0 <= j < MAX_SOURCES && j != index && #[trigger] old(self).slots()[j].live
                    && old(self).slots()[j].assignment == s.assignment && old(self).slots()[j].assignment_generation == s.assignment_generation)
            }),
    {
        let s = self.sources[index];
        let mut last = true;
        let mut j: usize = 0;
        while j < self.sources.len()
            invariant
                self.wf(),
                self.sources@ == old(self).sources@,
                self.vectors_taken == old(self).vectors_taken,
                self.spurious == old(self).spurious,
                s == old(self).sources@[index as int],
                index < MAX_SOURCES,
                j <= self.sources.len(),
                last == !(exists|k: int| 0 <= k < j && k != index && #[trigger] self.sources@[k].live
                    && self.sources@[k].assignment == s.assignment && self.sources@[k].assignment_generation == s.assignment_generation),
            decreases self.sources.len() - j,
        {
            let other = self.sources[j];
            if j != index && other.live && other.assignment == s.assignment && other.assignment_generation == s.assignment_generation {
                last = false;
            }
            j = j + 1;
        }
        let mut e = s;
        e.live = false;
        e.names = 0;
        e.waiter = None;
        e.pending = false;
        e.generation = e.generation.wrapping_add(1);
        if e.generation == 0 {
            e.generation = 1;
        }
        self.sources.set(index, e);
        Ending {
            assignment: s.assignment,
            assignment_generation: s.assignment_generation,
            entry: s.entry,
            vector: s.vector,
            waiter: s.waiter,
            last_of_function: last,
        }
    }

    /// Drops a name, and ends the source when it was the last one.
    pub fn release(&mut self, pci: &Assignments, index: u32, generation: u32) -> (r: Result<Option<Ending>, ()>)
        requires
            old(self).wf(),
            pci.wf(),
        ensures
            final(self).wf(),
            final(self).taken() == old(self).taken(),
            final(self).spurious_count() == old(self).spurious_count(),
            r is Ok <==> (old(self).named(pci, index, generation) matches Some(s) && s.names > 0),
            r is Err ==> final(self).slots() == old(self).slots(),
            r matches Ok(None) ==> final(self).slots() == old(self).slots().update(index as int,
                Source { names: (old(self).slots()[index as int].names - 1) as u32, ..old(self).slots()[index as int] }),
            r matches Ok(Some(e)) ==> old(self).slots()[index as int].names == 1
                && final(self).slots() == old(self).slots().update(index as int, ended(old(self).slots()[index as int])),
    {
        let mut s = match self.source(pci, index, generation) {
            Some(s) => s,
            None => return Err(()),
        };
        s.names = match s.names.checked_sub(1) {
            Some(n) => n,
            None => return Err(()),
        };
        if s.names != 0 {
            self.sources.set(index as usize, s);
            return Ok(None);
        }
        let e = self.destroy(index as usize);
        Ok(Some(e))
    }

    /// Ends a source that was never named, so a failed grant leaves nothing.
    pub fn abandon(&mut self, pci: &Assignments, index: u32, generation: u32) -> (r: Option<Ending>)
        requires
            old(self).wf(),
            pci.wf(),
        ensures
            final(self).wf(),
            final(self).taken() == old(self).taken(),
            final(self).spurious_count() == old(self).spurious_count(),
            (old(self).named(pci, index, generation) matches Some(s) && s.names == 0) ==> r is Some
                && final(self).slots() == old(self).slots().update(index as int, ended(old(self).slots()[index as int])),
            !(old(self).named(pci, index, generation) matches Some(s) && s.names == 0) ==> r is None && final(self).slots() == old(self).slots(),
    {
        match self.source(pci, index, generation) {
            Some(s) => {
                if s.names != 0 {
                    return None;
                }
            },
            None => return None,
        }
        Some(self.destroy(index as usize))
    }

    /// Registers a context as the source's one waiter, or answers it at once.
    /// An interrupt that arrived before the wait set the latch, and the wait
    /// collects it without blocking: the completion event cannot be lost by
    /// racing the wait.
    pub fn begin_wait(&mut self, pci: &Assignments, index: u32, generation: u32, waiter: u32) -> (w: Wait)
        requires
            old(self).wf(),
            pci.wf(),
        ensures
            final(self).wf(),
            final(self).taken() == old(self).taken(),
            final(self).spurious_count() == old(self).spurious_count(),
            ({
                let s = old(self).slots()[index as int];
                match old(self).named(pci, index, generation) {
                    None => w == Wait::Gone && final(self).slots() == old(self).slots(),
                    Some(_) => if s.pending {
                        w == Wait::Ready && final(self).slots() == old(self).slots().update(index as int, Source { pending: false, ..s })
                    } else if s.waiter is Some {
                        w == Wait::Occupied && final(self).slots() == old(self).slots()
                    } else {
                        w == Wait::Blocked && final(self).slots() == old(self).slots().update(index as int, Source { waiter: Some(waiter), ..s })
                    },
                }
            }),
    {
        let mut s = match self.source(pci, index, generation) {
            Some(s) => s,
            None => return Wait::Gone,
        };
        if s.pending {
            s.pending = false;
            self.sources.set(index as usize, s);
            return Wait::Ready;
        }
        if s.waiter.is_some() {
            return Wait::Occupied;
        }
        s.waiter = Some(waiter);
        self.sources.set(index as usize, s);
        Wait::Blocked
    }

    /// One routed device interrupt has arrived on the vector of `slot`. A
    /// live source with that vector takes it: the waiter is handed back to be
    /// woken, or, with nobody waiting, the latch remembers it. A late message
    /// on a retired vector is counted and wakes nobody.
    pub fn deliver(&mut self, slot: u32) -> (d: Delivery)
        requires
            old(self).wf(),
        ensures
            final(self).wf(),
            final(self).taken() == old(self).taken(),
            ({
                let vector = (FIRST_DEVICE_VECTOR as int + (slot as u8) as int) % 256;
                let s = old(self).slots();
                if forall|i: int| 0 <= i < s.len() ==> !(#[trigger] s[i].live && s[i].vector == vector) {
                    &&& d == Delivery::Spurious { vector: vector as u8, count: final(self).spurious_count() }
                    &&& final(self).spurious_count() == (if old(self).spurious_count() == u32::MAX { 0 } else { old(self).spurious_count() + 1 })
                    &&& final(self).slots() == s
                } else {
                    d matches Delivery::Delivered { index, entry, deliveries, waiter } && index < MAX_SOURCES && {
                        let t = s[index as int];
                        &&& t.live && t.vector == vector
                        &&& forall|j: int| 0 <= j < index ==> !(#[trigger] s[j].live && s[j].vector == vector)
                        &&& entry == t.entry
                        &&& waiter == t.waiter
                        &&& deliveries == (if t.deliveries == u32::MAX { 0 } else { t.deliveries + 1 })
                        &&& final(self).spurious_count() == old(self).spurious_count()
                        &&& final(self).slots() == s.update(index as int, Source {
                            deliveries,
                            waiter: None,
                            pending: if t.waiter is None { true } else { t.pending },
                            ..t
                        })
                    }
                }
            }),
    {
        let vector = FIRST_DEVICE_VECTOR.wrapping_add(slot as u8);
        let mut i: usize = 0;
        while i < self.sources.len()
            invariant
                self.wf(),
                self.sources@ == old(self).sources@,
                self.vectors_taken == old(self).vectors_taken,
                self.spurious == old(self).spurious,
                vector == (FIRST_DEVICE_VECTOR as int + (slot as u8) as int) % 256,
                i <= self.sources.len(),
                forall|j: int| 0 <= j < i ==> !(#[trigger] self.sources@[j].live && self.sources@[j].vector == vector),
            decreases self.sources.len() - i,
        {
            let s = self.sources[i];
            if s.live && s.vector == vector {
                let mut t = s;
                t.deliveries = t.deliveries.wrapping_add(1);
                let waiter = t.waiter;
                t.waiter = None;
                if waiter.is_none() {
                    t.pending = true;
                }
                self.sources.set(i, t);
                proof {
                    assert(old(self).slots()[i as int].live && old(self).slots()[i as int].vector == vector);
                }
                return Delivery::Delivered { index: i as u32, entry: t.entry, deliveries: t.deliveries, waiter };
            }
            i = i + 1;
        }
        self.spurious = self.spurious.wrapping_add(1);
        Delivery::Spurious { vector, count: self.spurious }
    }
}

/// A slot as `clear_process(process)` leaves it: ended if the process held
/// it, its wait dropped if the process was only waiting on it.
pub open spec fn cleared_source(s: Source, process: u32) -> Source {
    if s.live && s.holder == process {
        ended(s)
    } else if s.live && s.waiter == Some(process) {
        Source { waiter: None, ..s }
    } else {
        s
    }
}

/// The table with its first `k` slots cleared of `process`.
pub open spec fn cleared_upto(s: Seq<Source>, process: u32, k: int) -> Seq<Source> {
    Seq::new(s.len(), |j: int| if j < k { cleared_source(s[j], process) } else { s[j] })
}

/// Whether another live source in `s` than slot `k` descends from the
/// same assignment.
pub open spec fn shares_function(s: Seq<Source>, k: int) -> bool {
    exists|j: int| 0 <= j < s.len() && j != k && #[trigger] s[j].live && s[j].assignment == s[k].assignment
        && s[j].assignment_generation == s[k].assignment_generation
}

impl Sources {
    /// Releases every source a process claimed, when it dies, and drops
    /// every wait it was inside: a dead process cannot leave a routed
    /// interrupt pointing at it. Position `k` of the result is what ending
    /// slot `k` leaves for the caller to carry out, where it ended.
    pub fn clear_process(&mut self, process: u32) -> (endings: Vec<Option<Ending>>)
        requires
            old(self).wf(),
        ensures
            final(self).wf(),
            final(self).taken() == old(self).taken(),
            final(self).spurious_count() == old(self).spurious_count(),
            final(self).slots() == cleared_upto(old(self).slots(), process, MAX_SOURCES as int),
            endings@.len() == MAX_SOURCES,
            forall|k: int| 0 <= k < MAX_SOURCES ==> {
                let s = #[trigger] old(self).slots()[k];
                if s.live && s.holder == process {
                    endings@[k] matches Some(e) && e.assignment == s.assignment && e.assignment_generation
                        == s.assignment_generation && e.entry == s.entry && e.vector == s.vector && e.waiter == s.waiter
                        && e.last_of_function == !shares_function(cleared_upto(old(self).slots(), process, k), k)
                } else {
                    endings@[k] is None
                }
            },
    {
        let ghost s0 = self.slots();
        let mut endings: Vec<Option<Ending>> = Vec::new();
        let mut at: usize = 0;
        while at < MAX_SOURCES
            invariant
                self.wf(),
                self.taken() == old(self).taken(),
                self.spurious_count() == old(self).spurious_count(),
                s0 == old(self).slots(),
                at <= MAX_SOURCES,
                self.slots() == cleared_upto(s0, process, at as int),
                endings@.len() == at,
                forall|k: int| 0 <= k < at ==> {
                    let s = #[trigger] s0[k];
                    if s.live && s.holder == process {
                        endings@[k] matches Some(e) && e.assignment == s.assignment && e.assignment_generation
                            == s.assignment_generation && e.entry == s.entry && e.vector == s.vector && e.waiter == s.waiter
                            && e.last_of_function == !shares_function(cleared_upto(s0, process, k), k)
                    } else {
                        endings@[k] is None
                    }
                },
            decreases MAX_SOURCES - at,
        {
            let entry = self.sources[at];
            proof {
                assert(entry == s0[at as int]);
            }
            let ghost before = self.slots();
            if entry.live && entry.holder == process {
                let e = self.destroy(at);
                proof {
                    assert(shares_function(before, at as int) == (exists|j: int| 0 <= j < MAX_SOURCES && j != at
                        && #[trigger] before[j].live && before[j].assignment == entry.assignment
                        && before[j].assignment_generation == entry.assignment_generation));
                }
                endings.push(Some(e));
            } else if entry.live && entry.waiter == Some(process) {
                let mut t = entry;
                t.waiter = None;
                self.sources.set(at, t);
                endings.push(None);
            } else {
                endings.push(None);
            }
            proof {
                assert(self.slots() =~= cleared_upto(s0, process, at as int + 1));
            }
            at = at + 1;
        }
        endings
    }
}

/// The blocking reason one wait on this source is recorded under.
pub fn waiting_on(index: u32, generation: u32) -> (w: Waiting)
    ensures
        w == Waiting::Interrupt(index, generation),
{
    Waiting::Interrupt(index, generation)
}


/// How one call moves the vector supply: it hands out nothing and keeps its
/// count, or hands out the vector its count names and counts one more.
pub open spec fn supply_step(before: nat, after: nat, handed: Option<u8>) -> bool {
    ||| (handed is None && after == before)
    ||| (before < DEVICE_VECTORS && handed == Some((FIRST_DEVICE_VECTOR + before) as u8) && after == before + 1)
}

/// The vector supply never hands out a vector twice, and never one the
/// system already routes: over any run of calls, each moving the count as
/// `supply_step` allows, two vectors handed out at different steps differ,
/// and each lies strictly between the timer's vector and the spurious one.
pub proof fn lemma_supply_never_repeats(counts: Seq<nat>, handed: Seq<Option<u8>>, first: int, second: int)
    requires
        counts.len() == handed.len() + 1,
        forall|k: int| 0 <= k < handed.len() ==> supply_step(#[trigger] counts[k], counts[k + 1], handed[k]),
        0 <= first < second < handed.len(),
        handed[first] is Some,
        handed[second] is Some,
    ensures
        handed[first] != handed[second],
        crate::apic::TIMER_VECTOR < handed[first]->0 < crate::apic::SPURIOUS_VECTOR,
        crate::apic::TIMER_VECTOR < handed[second]->0 < crate::apic::SPURIOUS_VECTOR,
{
    assert(supply_step(counts[first], counts[first + 1], handed[first]));
    assert(supply_step(counts[second], counts[second + 1], handed[second]));
    lemma_counts_grow(counts, handed, first + 1, second);
}

/// Along such a run the count never goes down.
proof fn lemma_counts_grow(counts: Seq<nat>, handed: Seq<Option<u8>>, from: int, to: int)
    requires
        counts.len() == handed.len() + 1,
        forall|k: int| 0 <= k < handed.len() ==> supply_step(#[trigger] counts[k], counts[k + 1], handed[k]),
        0 <= from <= to < counts.len(),
    ensures
        counts[from] <= counts[to],
    decreases to - from,
{
    if from < to {
        assert(supply_step(counts[to - 1], counts[to], handed[to - 1]));
        lemma_counts_grow(counts, handed, from, to - 1);
    }
}

} // verus!
