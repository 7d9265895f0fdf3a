//! The PCI hardware mechanism's bookkeeping and its rules, and nothing above
//! it.
//!
//! What lives here is the object that says which function a caller is
//! entitled to reach, and every decision the configuration mechanism makes
//! about that reach: which accesses are well formed, which register a
//! configuration address names, which window of a BAR may be mapped, and
//! which writes would change something the nucleus owns. The transactions
//! themselves are port I/O and stay with the caller, which hands this module
//! what it read.
use vstd::prelude::*;

verus! {

/// Conventional configuration space, which is what Mechanism #1 reaches.
pub const CONVENTIONAL_CONFIG_BYTES: u64 = 256;

/// How many PCI functions may be assigned at once.
pub const MAX_ASSIGNMENTS: usize = 8;

/// The architectural ranges of a bus, a device and a function number.
pub const MAX_BUS: u64 = 255;
pub const MAX_DEVICE: u64 = 31;
pub const MAX_FUNCTION: u64 = 7;

/// Names the one bus object.
pub const ROOT_BUS: u32 = 0;

/// How many base-address registers a function has.
pub const BARS: usize = 6;

/// One MSI-X table entry: message address low, high, message data, vector
/// control.
pub const MSIX_ENTRY_BYTES: u64 = 16;
/// The capability identifiers of the two message-signalled interrupt
/// mechanisms.
pub const CAP_ID_MSIX: u64 = 0x11;
pub const CAP_ID_MSI: u64 = 0x05;
/// Where the capability list starts, and the bounds a well-formed one stays in.
pub const CAPABILITY_POINTER: u64 = 0x34;
pub const FIRST_CAPABILITY: u64 = 0x40;
pub const LAST_CAPABILITY: u64 = 0xFC;
/// How far a capability walk goes before it decides the list is malformed.
pub const MAX_CAPABILITY_STEPS: usize = 48;
/// How many bytes the MSI-X capability structure occupies.
pub const MSIX_CAPABILITY_BYTES: u64 = 12;
/// The command register.
pub const COMMAND: u64 = 0x04;
/// Bit positions inside the byte at `COMMAND`.
pub const IO_SPACE_BIT: u64 = 0;
pub const MEMORY_SPACE_BIT: u64 = 1;
pub const BUS_MASTER_BIT: u64 = 2;
/// A bridge's Bridge Control register.
pub const BRIDGE_CONTROL: u64 = 0x3E;
/// The first base-address register.
pub const BAR0: u64 = 0x10;
/// A page, as this mechanism measures one.
pub const FRAME_SIZE: u64 = 4096;

/// Whether an offset and a width name a legal conventional-configuration
/// access: a width the mechanism performs, aligned to itself, inside
/// conventional space.
pub open spec fn access_ok(offset: u64, width: u64) -> bool {
    &&& (width == 1 || width == 2 || width == 4)
    &&& offset % width == 0
    &&& offset + width <= CONVENTIONAL_CONFIG_BYTES
}

/// Whether an offset and a width name a legal conventional-configuration
/// access.
pub fn access_is_valid(offset: u64, width: u64) -> (ok: bool)
    ensures
        ok == access_ok(offset, width),
{
    if !(width == 1 || width == 2 || width == 4) {
        return false;
    }
    if offset % width != 0 {
        return false;
    }
    match offset.checked_add(width) {
        Some(end) => end <= CONVENTIONAL_CONFIG_BYTES,
        None => false,
    }
}

/// One base-address register, as the nucleus measured it.
#[derive(Clone, Copy, Debug, PartialEq, Eq, Structural)]
pub struct Bar {
    /// The physical address the device decodes, with the type bits removed.
    pub base: u64,
    /// How many bytes it covers; zero when the BAR is unimplemented.
    pub length: u64,
    /// Whether this is a memory BAR.
    pub memory: bool,
}

/// Which of the two conventional header layouts a function reports.
#[derive(Clone, Copy, Debug, PartialEq, Eq, Structural)]
pub enum Header {
    /// An ordinary function: six BARs, and its expansion ROM at `0x30`.
    Type0,
    /// A bridge: two BARs, bus numbers and forwarding windows, and its
    /// expansion ROM at `0x38`.
    Type1,
    /// Neither; every conventional-space write is refused.
    Unknown,
}

/// Where a function keeps its conventional MSI capability, and how big it is.
#[derive(Clone, Copy, Debug, PartialEq, Eq, Structural)]
pub struct Msi {
    /// The capability's offset, or zero when the function has none.
    pub capability: u8,
    /// How many bytes it occupies, derived from its Message Control.
    pub bytes: u64,
}

/// Where a function keeps the structures that decide where its interrupts go.
#[derive(Clone, Copy, Debug, PartialEq, Eq, Structural)]
pub struct MsiX {
    /// The capability's offset, or zero when the function has none.
    pub capability: u8,
    /// Which BAR the table lives in, and where in it.
    pub table_bar: u8,
    pub table_offset: u64,
    /// Which BAR the pending-bit array lives in, and where in it.
    pub pba_bar: u8,
    pub pba_offset: u64,
    /// How many entries the table has.
    pub entries: u16,
}

pub open spec fn absent_msi() -> Msi {
    Msi { capability: 0, bytes: 0 }
}

pub open spec fn absent_msix() -> MsiX {
    MsiX { capability: 0, table_bar: 0, table_offset: 0, pba_bar: 0, pba_offset: 0, entries: 0 }
}

pub open spec fn empty_bar() -> Bar {
    Bar { base: 0, length: 0, memory: false }
}

impl Msi {
    pub fn absent() -> (m: Msi)
        ensures
            m == absent_msi(),
    {
        Msi { capability: 0, bytes: 0 }
    }

    /// Whether the function has one at all.
    pub open spec fn is_present(&self) -> bool {
        self.capability != 0 && self.bytes != 0
    }

    pub fn present(&self) -> (p: bool)
        ensures
            p == self.is_present(),
    {
        self.capability != 0 && self.bytes != 0
    }
}

impl MsiX {
    pub fn absent() -> (m: MsiX)
        ensures
            m == absent_msix(),
    {
        MsiX { capability: 0, table_bar: 0, table_offset: 0, pba_bar: 0, pba_offset: 0, entries: 0 }
    }

    /// Whether the function has one at all.
    pub open spec fn is_present(&self) -> bool {
        self.capability != 0 && self.entries != 0
    }

    pub fn present(&self) -> (p: bool)
        ensures
            p == self.is_present(),
    {
        self.capability != 0 && self.entries != 0
    }

    /// The bytes the table occupies: sixteen per entry.
    pub fn table_extent(&self) -> (r: (u64, u64))
        ensures
            r == (self.table_offset, (self.entries * 16) as u64),
    {
        (self.table_offset, self.entries as u64 * MSIX_ENTRY_BYTES)
    }

    /// The bytes the pending-bit array occupies: one bit per entry, rounded up
    /// to whole 64-bit words.
    pub fn pba_extent(&self) -> (r: (u64, u64))
        ensures
            r == (self.pba_offset, (((self.entries + 63) / 64) * 8) as u64),
    {
        let words = (self.entries as u64 + 63) / 64;
        (self.pba_offset, words * 8)
    }
}

impl Bar {
    pub fn empty() -> (b: Bar)
        ensures
            b == empty_bar(),
    {
        Bar { base: 0, length: 0, memory: false }
    }
}


/// One bus scope: the root of every later PCI authority.
#[derive(Clone, Copy, Debug, PartialEq, Eq, Structural)]
pub struct Bus {
    pub segment: u16,
    pub first_bus: u8,
    pub last_bus: u8,
}

/// One assignment of one function: exclusive under its root while it lives,
/// with a generation of its own so that releasing a function and claiming it
/// again is a different assignment rather than the same one continued.
#[derive(Clone, Copy)]
pub struct Assignment {
    pub segment: u16,
    pub bus: u8,
    pub device: u8,
    pub function: u8,
    /// Advances when the slot is reused; never zero.
    pub generation: u32,
    /// How many capabilities name this assignment.
    pub names: u32,
    /// How many derived hardware objects exist under it.
    pub descendants: u32,
    /// How many live descendants need the function to decode memory, and how
    /// many need it to issue its own transactions.
    pub memory_decoding: u32,
    pub bus_mastering: u32,
    /// Each BAR's base and extent, measured once at claim time.
    pub bars: [Bar; 6],
    pub msix: MsiX,
    pub msi: Msi,
    pub header: Header,
    pub live: bool,
}

/// Why a claim was refused.
#[derive(Clone, Copy, Debug, PartialEq, Eq, Structural)]
pub enum ClaimRefused {
    /// A bus, device or function outside its architectural range.
    BadArgument,
    /// Inside its range, but outside the scope the bus capability grants.
    OutOfScope,
    /// The function is already assigned, or the table is full.
    Limit,
}

/// Why a mapping request was refused.
#[derive(Clone, Copy, Debug, PartialEq, Eq, Structural)]
pub enum BarRefused {
    /// A BAR index outside the architectural range, or an unaligned or
    /// overflowing request.
    BadArgument,
    /// The assignment has gone, or the BAR is unimplemented, is an I/O BAR,
    /// does not contain the requested range, or the range reaches the MSI-X
    /// structures.
    OutOfScope,
}

/// Why a configuration write did not happen.
#[derive(Clone, Copy, Debug, PartialEq, Eq, Structural)]
pub enum WriteRefused {
    /// The access is malformed, or the assignment it named has gone.
    BadArgument,
    /// Well formed, and what it names is the nucleus's to change.
    Reserved,
}

/// What a descendant needs the function to be able to do.
#[derive(Clone, Copy, Debug, PartialEq, Eq, Structural)]
pub struct Needs {
    /// Whether the function must decode memory accesses the CPU makes to it.
    pub memory_decoding: bool,
    /// Whether the function must issue memory transactions of its own.
    pub bus_mastering: bool,
}

impl Needs {
    /// A mapped device window: decoded, and never mastering.
    pub fn mmio() -> (n: Needs)
        ensures
            n == (Needs { memory_decoding: true, bus_mastering: false }),
    {
        Needs { memory_decoding: true, bus_mastering: false }
    }
}

/// The slot every assignment starts from: nothing claimed, generation one.
pub open spec fn empty_assignment() -> Assignment {
    Assignment {
        segment: 0,
        bus: 0,
        device: 0,
        function: 0,
        generation: 1,
        names: 0,
        descendants: 0,
        memory_decoding: 0,
        bus_mastering: 0,
        bars: [empty_bar(), empty_bar(), empty_bar(), empty_bar(), empty_bar(), empty_bar()],
        msix: absent_msix(),
        msi: absent_msi(),
        header: Header::Unknown,
        live: false,
    }
}

impl Assignment {
    /// An unclaimed slot naming one function.
    pub fn unclaimed(segment: u16, bus: u8, device: u8, function: u8) -> (a: Assignment)
        ensures
            a == (Assignment { segment, bus, device, function, ..empty_assignment() }),
    {
        Assignment {
            segment,
            bus,
            device,
            function,
            generation: 1,
            names: 0,
            descendants: 0,
            memory_decoding: 0,
            bus_mastering: 0,
            bars: [Bar::empty(), Bar::empty(), Bar::empty(), Bar::empty(), Bar::empty(), Bar::empty()],
            msix: MsiX::absent(),
            msi: Msi::absent(),
            header: Header::Unknown,
            live: false,
        }
    }

    pub open spec fn names_function(self, segment: u16, bus: u8, device: u8, function: u8) -> bool {
        self.segment == segment && self.bus == bus && self.device == device && self.function == function
    }

    /// Whether this assignment is of the function at these coordinates.
    pub fn matches(&self, segment: u16, bus: u8, device: u8, function: u8) -> (b: bool)
        ensures
            b == self.names_function(segment, bus, device, function),
    {
        self.segment == segment && self.bus == bus && self.device == device && self.function == function
    }
}

/// The Mechanism #1 address word for one register: enable, bus, device,
/// function, and the dword of the offset. The offset's low two bits select a
/// byte of that dword through the data port, and are not part of it.
pub open spec fn config_address(bus: u8, device: u8, function: u8, offset: u64) -> u32 {
    0x8000_0000u32 | ((bus as u32) << 16u32) | ((device as u32) << 11u32) | ((function as u32) << 8u32) | ((offset as u32) & 0xFCu32)
}

/// The Mechanism #1 address word for one register of an assignment.
pub fn address_of(entry: &Assignment, offset: u64) -> (a: u32)
    ensures
        a == config_address(entry.bus, entry.device, entry.function, offset),
{
    0x8000_0000u32 | ((entry.bus as u32) << 16u32) | ((entry.device as u32) << 11u32) | ((entry.function as u32) << 8u32) | ((offset as u32) & 0xFCu32)
}

/// Two offsets of conventional space name the same register exactly when
/// they are in the same dword; the low two bits only pick a byte of it.
pub proof fn lemma_address_selects_dword(bus: u8, device: u8, function: u8, a: u64, b: u64)
    requires
        a < CONVENTIONAL_CONFIG_BYTES,
        b < CONVENTIONAL_CONFIG_BYTES,
    ensures
        (config_address(bus, device, function, a) == config_address(bus, device, function, b)) <==> (a / 4 == b / 4),
{
    let (bb, dd, ff) = (bus as u32, device as u32, function as u32);
    assert(bb < 256 && dd < 256 && ff < 256);
    assert(a < 256u64 && b < 256u64 && bb < 256u32 && dd < 256u32 && ff < 256u32 ==> ((0x8000_0000u32 | (bb << 16u32) | (dd << 11u32) | (ff << 8u32) | ((a as u32) & 0xFCu32))
        == (0x8000_0000u32 | (bb << 16u32) | (dd << 11u32) | (ff << 8u32) | ((b as u32) & 0xFCu32))) == (a / 4 == b / 4)) by (bit_vector);
}


/// The generation after `g`: it wraps, and skips zero.
pub open spec fn next_generation(g: u32) -> u32 {
    if g == u32::MAX {
        1
    } else {
        (g + 1) as u32
    }
}

/// How one call may move slot `i`'s generation: it stays, or a live
/// assignment ends and its generation moves on to the next.
pub open spec fn generation_step(s0: Seq<Assignment>, s1: Seq<Assignment>, i: int) -> bool {
    ||| s1[i].generation == s0[i].generation
    ||| (s0[i].live && !s1[i].live && s1[i].generation == next_generation(s0[i].generation))
}

/// One call's effect on every slot's generation.
pub open spec fn generations_step(s0: Seq<Assignment>, s1: Seq<Assignment>) -> bool {
    &&& s1.len() == s0.len()
    &&& forall|i: int| 0 <= i < s0.len() ==> #[trigger] generation_step(s0, s1, i)
}

/// An assignment once nothing may reach it any more: ended, with its
/// generation advanced, when neither a name nor a descendant reaches it.
pub open spec fn settled(a: Assignment) -> Assignment {
    if a.names != 0 || a.descendants != 0 {
        a
    } else {
        Assignment { live: false, generation: next_generation(a.generation), ..a }
    }
}

/// A freshly claimed slot: the function's coordinates, nothing counted and
/// nothing measured yet.
pub open spec fn claimed(a: Assignment, segment: u16, bus: u8, device: u8, function: u8) -> Assignment {
    Assignment {
        segment,
        bus,
        device,
        function,
        names: 0,
        descendants: 0,
        memory_decoding: 0,
        bus_mastering: 0,
        bars: [empty_bar(), empty_bar(), empty_bar(), empty_bar(), empty_bar(), empty_bar()],
        msix: absent_msix(),
        msi: absent_msi(),
        header: Header::Unknown,
        live: true,
        ..a
    }
}

/// Whether some live slot already holds this function.
pub open spec fn held(slots: Seq<Assignment>, segment: u16, bus: u8, device: u8, function: u8) -> bool {
    exists|i: int| 0 <= i < slots.len() && #[trigger] slots[i].live && slots[i].names_function(segment, bus, device, function)
}

/// The first slot not in use, if any.
pub open spec fn first_free(slots: Seq<Assignment>, from: int) -> Option<int>
    decreases slots.len() - from,
{
    if from >= slots.len() || from < 0 {
        None
    } else if !slots[from].live {
        Some(from)
    } else {
        first_free(slots, from + 1)
    }
}

/// The Command register value that makes the two enables agree with the
/// predicates: Memory Space Enable iff a memory-decoding descendant lives,
/// Bus Master Enable iff a bus-mastering one does; every other bit as it is.
pub open spec fn wanted_command(a: Assignment, command: u64) -> u64 {
    let cleared = command & !6u64;
    let with_memory = if a.memory_decoding > 0 { cleared | 2u64 } else { cleared };
    if a.bus_mastering > 0 { with_memory | 4u64 } else { with_memory }
}

/// The PCI authority table: the one bus root, and the assignments under it.
pub struct Assignments {
    root: Option<Bus>,
    entries: Vec<Assignment>,
}

impl Assignments {
    pub closed spec fn slots(&self) -> Seq<Assignment> {
        self.entries@
    }

    pub closed spec fn root_bus(&self) -> Option<Bus> {
        self.root
    }

    /// A fixed number of slots, none of them at generation zero.
    pub closed spec fn wf(&self) -> bool {
        &&& self.entries.len() == MAX_ASSIGNMENTS
        &&& forall|i: int| 0 <= i < self.entries.len() ==> #[trigger] self.entries@[i].generation != 0
    }

    /// The live assignment `(index, generation)` names, if any.
    pub open spec fn named(&self, index: u32, generation: u32) -> Option<Assignment> {
        if index < MAX_ASSIGNMENTS && self.slots()[index as int].live && self.slots()[index as int].generation == generation {
            Some(self.slots()[index as int])
        } else {
            None
        }
    }

    /// No root, and every slot empty.
    pub fn new() -> (t: Assignments)
        ensures
            t.wf(),
            t.root_bus() is None,
            t.slots() == Seq::new(MAX_ASSIGNMENTS as nat, |i: int| empty_assignment()),
    {
        let mut entries: Vec<Assignment> = Vec::new();
        let mut i: usize = 0;
        while i < MAX_ASSIGNMENTS
            invariant
                i <= MAX_ASSIGNMENTS,
                entries@ == Seq::new(i as nat, |j: int| empty_assignment()),
            decreases MAX_ASSIGNMENTS - i,
        {
            entries.push(Assignment::unclaimed(0, 0, 0, 0));
            i = i + 1;
            proof {
                assert(entries@ =~= Seq::new(i as nat, |j: int| empty_assignment()));
            }
        }
        Assignments { root: None, entries }
    }

    /// Mints the root bus authority, once.
    pub fn endow_root(&mut self, segment: u16, first_bus: u8, last_bus: u8) -> (r: Option<u32>)
        requires
            old(self).wf(),
        ensures
            generations_step(old(self).slots(), final(self).slots()),
            final(self).wf(),
            final(self).slots() == old(self).slots(),
            r is Some <==> (first_bus <= last_bus && old(self).root_bus() is None),
            r is Some ==> r == Some(ROOT_BUS) && final(self).root_bus() == Some(Bus { segment, first_bus, last_bus }),
            r is None ==> final(self).root_bus() == old(self).root_bus(),
    {
        if first_bus > last_bus {
            return None;
        }
        if self.root.is_some() {
            return None;
        }
        self.root = Some(Bus { segment, first_bus, last_bus });
        Some(ROOT_BUS)
    }

    /// Whether a bus object index names a live bus.
    pub fn bus_is_live(&self, index: u32) -> (b: bool)
        ensures
            b == (index == ROOT_BUS && self.root_bus() is Some),
    {
        index == ROOT_BUS && self.root.is_some()
    }

    /// The scope a bus capability carries.
    pub fn bus_scope(&self, index: u32) -> (r: Option<(u16, u8, u8)>)
        ensures
            r == (if index == ROOT_BUS && self.root_bus() is Some {
                let b = self.root_bus().unwrap();
                Some((b.segment, b.first_bus, b.last_bus))
            } else {
                None
            }),
    {
        if index != ROOT_BUS {
            return None;
        }
        match self.root {
            Some(b) => Some((b.segment, b.first_bus, b.last_bus)),
            None => None,
        }
    }

    /// The live assignment a capability names, if its generation still
    /// matches.
    pub fn assignment(&self, index: u32, generation: u32) -> (r: Option<Assignment>)
        requires
            self.wf(),
        ensures
            r == self.named(index, generation),
    {
        let i = index as usize;
        if i >= MAX_ASSIGNMENTS {
            return None;
        }
        let entry = self.entries[i];
        if entry.live && entry.generation == generation {
            Some(entry)
        } else {
            None
        }
    }

    /// Whether the assignment a capability names is still usable authority.
    pub fn is_live(&self, index: u32, generation: u32) -> (b: bool)
        requires
            self.wf(),
        ensures
            b == self.named(index, generation) is Some,
    {
        self.assignment(index, generation).is_some()
    }

    /// The function an assignment names, for the audit record.
    pub fn describe(&self, index: u32, generation: u32) -> (r: Option<(u16, u8, u8, u8)>)
        requires
            self.wf(),
        ensures
            r == (match self.named(index, generation) {
                Some(a) => Some((a.segment, a.bus, a.device, a.function)),
                None => None,
            }),
    {
        match self.assignment(index, generation) {
            Some(e) => Some((e.segment, e.bus, e.device, e.function)),
            None => None,
        }
    }

    /// Claims one function within a bus capability's scope. Exclusive: a
    /// function already assigned is refused while that assignment lives,
    /// whether or not there is room for another.
    #[verifier::loop_isolation(false)]
    pub fn claim(&mut self, bus_index: u32, bus: u64, device: u64, function: u64) -> (r: Result<(u32, u32), ClaimRefused>)
        requires
            old(self).wf(),
        ensures
            generations_step(old(self).slots(), final(self).slots()),
            final(self).wf(),
            final(self).root_bus() == old(self).root_bus(),
            ({
                let slots = old(self).slots();
                let scope = old(self).root_bus();
                if bus > MAX_BUS || device > MAX_DEVICE || function > MAX_FUNCTION {
                    r == Err::<(u32, u32), ClaimRefused>(ClaimRefused::BadArgument) && final(self).slots() == slots
                } else if bus_index != ROOT_BUS || scope is None || (bus as u8) < scope.unwrap().first_bus || (bus as u8) > scope.unwrap().last_bus {
                    r == Err::<(u32, u32), ClaimRefused>(ClaimRefused::OutOfScope) && final(self).slots() == slots
                } else if held(slots, scope.unwrap().segment, bus as u8, device as u8, function as u8) || first_free(slots, 0) is None {
                    r == Err::<(u32, u32), ClaimRefused>(ClaimRefused::Limit) && final(self).slots() == slots
                } else {
                    let i = first_free(slots, 0).unwrap();
                    &&& r == Ok::<(u32, u32), ClaimRefused>((i as u32, slots[i].generation))
                    &&& final(self).slots() == slots.update(i, claimed(slots[i], scope.unwrap().segment, bus as u8, device as u8, function as u8))
                }
            }),
    {
        if bus > MAX_BUS || device > MAX_DEVICE || function > MAX_FUNCTION {
            return Err(ClaimRefused::BadArgument);
        }
        let (segment, first_bus, last_bus) = match self.bus_scope(bus_index) {
            Some(scope) => scope,
            None => return Err(ClaimRefused::OutOfScope),
        };
        let bus = bus as u8;
        if bus < first_bus || bus > last_bus {
            return Err(ClaimRefused::OutOfScope);
        }
        let device = device as u8;
        let function = function as u8;
        let mut i: usize = 0;
        while i < self.entries.len()
            invariant
                self.wf(),
                self.entries@ == old(self).entries@,
                i <= self.entries.len(),
                forall|j: int| 0 <= j < i ==> !(#[trigger] self.entries@[j].live && self.entries@[j].names_function(segment, bus, device, function)),
            decreases self.entries.len() - i,
        {
            let e = self.entries[i];
            if e.live && e.matches(segment, bus, device, function) {
                proof {
                    assert(old(self).slots()[i as int].live && old(self).slots()[i as int].names_function(segment, bus, device, function));
                    assert(held(old(self).slots(), segment, bus, device, function));
                }
                return Err(ClaimRefused::Limit);
            }
            i = i + 1;
        }
        let mut free: usize = 0;
        while free < self.entries.len() && self.entries[free].live
            invariant
                self.wf(),
                self.entries@ == old(self).entries@,
                free <= self.entries.len(),
                first_free(self.entries@, 0) == first_free(self.entries@, free as int),
            decreases self.entries.len() - free,
        {
            free = free + 1;
        }
        if free == self.entries.len() {
            return Err(ClaimRefused::Limit);
        }
        let old_entry = self.entries[free];
        let generation = old_entry.generation;
        let fresh = Assignment {
            segment,
            bus,
            device,
            function,
            generation,
            names: 0,
            descendants: 0,
            memory_decoding: 0,
            bus_mastering: 0,
            bars: [Bar::empty(), Bar::empty(), Bar::empty(), Bar::empty(), Bar::empty(), Bar::empty()],
            msix: MsiX::absent(),
            msi: Msi::absent(),
            header: Header::Unknown,
            live: true,
        };
        self.entries.set(free, fresh);
        proof {
            assert(fresh == claimed(old_entry, segment, bus, device, function));
        }
        Ok((free as u32, generation))
    }

    /// Records what was measured of a freshly claimed function: its header
    /// layout, its interrupt structures and its BARs. A stale handle records
    /// nothing.
    pub fn measured(&mut self, index: u32, generation: u32, header: Header, msix: MsiX, msi: Msi, bars: [Bar; 6]) -> (done: bool)
        requires
            old(self).wf(),
        ensures
            generations_step(old(self).slots(), final(self).slots()),
            final(self).wf(),
            final(self).root_bus() == old(self).root_bus(),
            done == old(self).named(index, generation) is Some,
            done ==> final(self).slots() == old(self).slots().update(
                index as int,
                Assignment { header, msix, msi, bars, ..old(self).slots()[index as int] },
            ),
            !done ==> final(self).slots() == old(self).slots(),
    {
        if self.assignment(index, generation).is_none() {
            return false;
        }
        let i = index as usize;
        let mut e = self.entries[i];
        e.header = header;
        e.msix = msix;
        e.msi = msi;
        e.bars = bars;
        self.entries.set(i, e);
        true
    }

    /// Takes a name on an assignment, refusing rather than wrapping.
    pub fn retain(&mut self, index: u32, generation: u32) -> (r: Result<(), ()>)
        requires
            old(self).wf(),
        ensures
            generations_step(old(self).slots(), final(self).slots()),
            final(self).wf(),
            final(self).root_bus() == old(self).root_bus(),
            r is Ok <==> (old(self).named(index, generation) matches Some(a) && a.names < u32::MAX),
            r is Ok ==> final(self).slots() == old(self).slots().update(
                index as int,
                Assignment { names: (old(self).slots()[index as int].names + 1) as u32, ..old(self).slots()[index as int] },
            ),
            r is Err ==> final(self).slots() == old(self).slots(),
    {
        if self.assignment(index, generation).is_none() {
            return Err(());
        }
        let i = index as usize;
        let mut e = self.entries[i];
        e.names = match e.names.checked_add(1) {
            Some(n) => n,
            None => return Err(()),
        };
        self.entries.set(i, e);
        Ok(())
    }

    /// Drops a name, and ends the assignment when nothing reaches it any more.
    pub fn release(&mut self, index: u32, generation: u32) -> (r: Result<(), ()>)
        requires
            old(self).wf(),
        ensures
            generations_step(old(self).slots(), final(self).slots()),
            final(self).wf(),
            final(self).root_bus() == old(self).root_bus(),
            r is Ok <==> (old(self).named(index, generation) matches Some(a) && a.names > 0),
            r is Ok ==> final(self).slots() == old(self).slots().update(
                index as int,
                settled(Assignment { names: (old(self).slots()[index as int].names - 1) as u32, ..old(self).slots()[index as int] }),
            ),
            r is Err ==> final(self).slots() == old(self).slots(),
    {
        if self.assignment(index, generation).is_none() {
            return Err(());
        }
        let i = index as usize;
        let mut e = self.entries[i];
        e.names = match e.names.checked_sub(1) {
            Some(n) => n,
            None => return Err(()),
        };
        let e = Self::end_if_unreachable(e);
        self.entries.set(i, e);
        Ok(())
    }

    /// Ends an assignment that was never named, so a failure to grant leaves
    /// the table as it found it.
    pub fn abandon(&mut self, index: u32, generation: u32)
        requires
            old(self).wf(),
        ensures
            generations_step(old(self).slots(), final(self).slots()),
            final(self).wf(),
            final(self).root_bus() == old(self).root_bus(),
            final(self).slots() == (match old(self).named(index, generation) {
                Some(a) => if a.names == 0 && a.descendants == 0 {
                    old(self).slots().update(index as int, settled(a))
                } else {
                    old(self).slots()
                },
                None => old(self).slots(),
            }),
    {
        let e = match self.assignment(index, generation) {
            Some(e) => e,
            None => return,
        };
        if e.names != 0 || e.descendants != 0 {
            return;
        }
        self.entries.set(index as usize, Self::end_if_unreachable(e));
    }

    /// Ends an assignment when neither a name nor a descendant reaches it.
    fn end_if_unreachable(entry: Assignment) -> (r: Assignment)
        requires
            entry.generation != 0,
        ensures
            r == settled(entry),
            r.generation != 0,
    {
        if entry.names != 0 || entry.descendants != 0 {
            return entry;
        }
        let mut e = entry;
        e.live = false;
        e.generation = e.generation.wrapping_add(1);
        if e.generation == 0 {
            e.generation = 1;
        }
        e
    }

    /// Records a descendant hardware object created under an assignment, and
    /// says what the Command register (now holding `command`) must become
    /// for the enables to agree with what the descendants need: `None` when
    /// it already does.
    pub fn take_descendant(&mut self, index: u32, generation: u32, needs: Needs, command: u64) -> (r: Result<Option<u64>, ()>)
        requires
            old(self).wf(),
        ensures
            generations_step(old(self).slots(), final(self).slots()),
            final(self).wf(),
            final(self).root_bus() == old(self).root_bus(),
            ({
                match old(self).named(index, generation) {
                    None => r is Err && final(self).slots() == old(self).slots(),
                    Some(a) => if a.descendants == u32::MAX || (needs.memory_decoding && a.memory_decoding == u32::MAX)
                        || (needs.bus_mastering && a.bus_mastering == u32::MAX) {
                        r is Err && final(self).slots() == old(self).slots()
                    } else {
                        let b = Assignment {
                            descendants: (a.descendants + 1) as u32,
                            memory_decoding: if needs.memory_decoding { (a.memory_decoding + 1) as u32 } else { a.memory_decoding },
                            bus_mastering: if needs.bus_mastering { (a.bus_mastering + 1) as u32 } else { a.bus_mastering },
                            ..a
                        };
                        &&& final(self).slots() == old(self).slots().update(index as int, b)
                        &&& r == Ok::<Option<u64>, ()>(if wanted_command(b, command) != command { Some(wanted_command(b, command)) } else { None })
                    },
                }
            }),
    {
        let mut e = match self.assignment(index, generation) {
            Some(e) => e,
            None => return Err(()),
        };
        e.descendants = match e.descendants.checked_add(1) {
            Some(n) => n,
            None => return Err(()),
        };
        if needs.memory_decoding {
            e.memory_decoding = match e.memory_decoding.checked_add(1) {
                Some(n) => n,
                None => return Err(()),
            };
        }
        if needs.bus_mastering {
            e.bus_mastering = match e.bus_mastering.checked_add(1) {
                Some(n) => n,
                None => return Err(()),
            };
        }
        self.entries.set(index as usize, e);
        Ok(Self::enables(&e, command))
    }

    /// Drops a descendant. The Command register (now holding `command`) is
    /// brought into agreement first, while there is still an assignment to
    /// act through, and the assignment ends when nothing reaches it any more.
    pub fn drop_descendant(&mut self, index: u32, generation: u32, needs: Needs, command: u64) -> (r: Option<u64>)
        requires
            old(self).wf(),
        ensures
            generations_step(old(self).slots(), final(self).slots()),
            final(self).wf(),
            final(self).root_bus() == old(self).root_bus(),
            ({
                match old(self).named(index, generation) {
                    None => r is None && final(self).slots() == old(self).slots(),
                    Some(a) => {
                        let b = Assignment {
                            descendants: if a.descendants > 0 { (a.descendants - 1) as u32 } else { 0 },
                            memory_decoding: if needs.memory_decoding && a.memory_decoding > 0 { (a.memory_decoding - 1) as u32 } else { a.memory_decoding },
                            bus_mastering: if needs.bus_mastering && a.bus_mastering > 0 { (a.bus_mastering - 1) as u32 } else { a.bus_mastering },
                            ..a
                        };
                        &&& final(self).slots() == old(self).slots().update(index as int, settled(b))
                        &&& r == (if wanted_command(b, command) != command { Some(wanted_command(b, command)) } else { None })
                    },
                }
            }),
    {
        let mut e = match self.assignment(index, generation) {
            Some(e) => e,
            None => return None,
        };
        e.descendants = e.descendants.saturating_sub(1);
        if needs.memory_decoding {
            e.memory_decoding = e.memory_decoding.saturating_sub(1);
        }
        if needs.bus_mastering {
            e.bus_mastering = e.bus_mastering.saturating_sub(1);
        }
        let write = Self::enables(&e, command);
        self.entries.set(index as usize, Self::end_if_unreachable(e));
        write
    }

    /// What the Command register must become, if anything, for a live
    /// assignment's enables to agree with its predicates.
    fn enables(entry: &Assignment, command: u64) -> (r: Option<u64>)
        ensures
            r == (if wanted_command(*entry, command) != command { Some(wanted_command(*entry, command)) } else { None }),
    {
        let mut wanted = command & !((1u64 << MEMORY_SPACE_BIT) | (1u64 << BUS_MASTER_BIT));
        if entry.memory_decoding > 0 {
            wanted = wanted | (1u64 << MEMORY_SPACE_BIT);
        }
        if entry.bus_mastering > 0 {
            wanted = wanted | (1u64 << BUS_MASTER_BIT);
        }
        proof {
            assert((1u64 << 1u64) | (1u64 << 2u64) == 6u64) by (bit_vector);
            assert(1u64 << 1u64 == 2u64) by (bit_vector);
            assert(1u64 << 2u64 == 4u64) by (bit_vector);
        }
        if wanted != command {
            Some(wanted)
        } else {
            None
        }
    }
}


/// Whether a structure of `bytes` bytes at `start` of BAR `structure_bar`
/// is reached by a window `[offset, end)` of BAR `bar`. A structure whose
/// extent cannot be bounded is reached.
pub open spec fn reaches(structure_bar: u8, start: u64, bytes: int, bar: u8, offset: u64, end: int) -> bool {
    &&& structure_bar == bar
    &&& bytes != 0
    &&& (start + bytes > u64::MAX || (offset < start + bytes && start < end))
}

/// Whether a window of one BAR reaches the MSI-X table or its pending-bit
/// array. An overflowing window reaches everything.
pub open spec fn reaches_msix(entry: Assignment, bar: u8, offset: u64, length: u64) -> bool {
    &&& entry.msix.is_present()
    &&& (offset + length > u64::MAX || reaches(entry.msix.table_bar, entry.msix.table_offset, entry.msix.entries * 16, bar, offset, offset + length)
        || reaches(entry.msix.pba_bar, entry.msix.pba_offset, ((entry.msix.entries + 63) / 64) * 8, bar, offset, offset + length))
}

fn reaches_one(structure_bar: u8, start: u64, bytes: u64, bar: u8, offset: u64, end: u64) -> (r: bool)
    ensures
        r == reaches(structure_bar, start, bytes as int, bar, offset, end as int),
{
    if structure_bar != bar || bytes == 0 {
        return false;
    }
    match start.checked_add(bytes) {
        Some(structure_end) => offset < structure_end && start < end,
        None => true,
    }
}

/// Whether a window of one BAR reaches this function's MSI-X table or its
/// pending-bit array: overlap, not containment.
pub fn overlaps_msix(entry: &Assignment, bar: u8, offset: u64, length: u64) -> (r: bool)
    ensures
        r == reaches_msix(*entry, bar, offset, length),
{
    if !entry.msix.present() {
        return false;
    }
    let end = match offset.checked_add(length) {
        Some(end) => end,
        None => return true,
    };
    let (table_start, table_bytes) = entry.msix.table_extent();
    let (pba_start, pba_bytes) = entry.msix.pba_extent();
    reaches_one(entry.msix.table_bar, table_start, table_bytes, bar, offset, end)
        || reaches_one(entry.msix.pba_bar, pba_start, pba_bytes, bar, offset, end)
}

/// The physical address a mapping request names, validated against the live
/// assignment's own BAR state. The caller names a BAR and a page-aligned
/// window inside it; a request not entirely inside the measured extent, or
/// reaching the MSI-X structures, is refused rather than clamped.
pub open spec fn window_of(named: Option<Assignment>, bar: u64, offset: u64, length: u64) -> Result<u64, BarRefused> {
    match named {
        None => Err(BarRefused::OutOfScope),
        Some(a) => if bar >= 6 {
            Err(BarRefused::BadArgument)
        } else if length == 0 || offset % FRAME_SIZE != 0 || length % FRAME_SIZE != 0 {
            Err(BarRefused::BadArgument)
        } else {
            let w = a.bars[bar as int];
            if !w.memory || w.length == 0 {
                Err(BarRefused::OutOfScope)
            } else if offset + length > u64::MAX {
                Err(BarRefused::BadArgument)
            } else if offset + length > w.length {
                Err(BarRefused::OutOfScope)
            } else if reaches_msix(a, bar as u8, offset, length) {
                Err(BarRefused::OutOfScope)
            } else if w.base + offset > u64::MAX {
                Err(BarRefused::BadArgument)
            } else {
                Ok((w.base + offset) as u64)
            }
        },
    }
}

impl Assignments {
    /// The physical base a mapping request names, validated against the live
    /// assignment's measured BARs.
    pub fn bar_window(&self, index: u32, generation: u32, bar: u64, offset: u64, length: u64) -> (r: Result<u64, BarRefused>)
        requires
            self.wf(),
        ensures
            r == window_of(self.named(index, generation), bar, offset, length),
    {
        let entry = match self.assignment(index, generation) {
            Some(e) => e,
            None => return Err(BarRefused::OutOfScope),
        };
        if bar >= 6 {
            return Err(BarRefused::BadArgument);
        }
        if length == 0 || offset % FRAME_SIZE != 0 || length % FRAME_SIZE != 0 {
            return Err(BarRefused::BadArgument);
        }
        let window = entry.bars[bar as usize];
        if !window.memory || window.length == 0 {
            return Err(BarRefused::OutOfScope);
        }
        let end = match offset.checked_add(length) {
            Some(end) => end,
            None => return Err(BarRefused::BadArgument),
        };
        if end > window.length {
            return Err(BarRefused::OutOfScope);
        }
        if overlaps_msix(&entry, bar as u8, offset, length) {
            return Err(BarRefused::OutOfScope);
        }
        match window.base.checked_add(offset) {
            Some(base) => Ok(base),
            None => Err(BarRefused::BadArgument),
        }
    }
}


/// The byte a write of `value` at `offset` puts at `at`.
pub open spec fn byte_written(value: u64, offset: u64, at: int) -> u64 {
    (value >> ((at - offset) * 8) as u64) & 0xFF
}

/// Whether a write would change any byte of `[start, start + bytes)`:
/// only the bytes the write covers are compared, so writing back what is
/// there changes nothing.
pub open spec fn changes_range(space: Seq<u8>, offset: u64, width: u64, value: u64, start: u64, bytes: u64) -> bool {
    exists|at: int|
        #![trigger space[at]]
        offset <= at < offset + width && start <= at < start + bytes && byte_written(value, offset, at) != space[at] as u64
}

/// Whether a write would change one bit of one byte.
pub open spec fn changes_one_bit(space: Seq<u8>, offset: u64, width: u64, value: u64, byte: u64, bit: u64) -> bool {
    &&& offset <= byte < offset + width
    &&& (value >> ((byte - offset) * 8 + bit) as u64) & 1 != ((space[byte as int] as u64) >> bit) & 1
}

/// The byte ranges of conventional space whose value is the platform's for
/// the life of the assignment: where the function decodes, and on a bridge
/// which addresses it forwards.
pub open spec fn placement(header: Header) -> Seq<(u64, u64)> {
    match header {
        Header::Type0 => seq![(0x10u64, 24u64), (0x30u64, 4u64)],
        Header::Type1 => seq![(0x10u64, 8u64), (0x18u64, 3u64), (0x1Cu64, 2u64), (0x20u64, 8u64), (0x28u64, 12u64), (0x38u64, 4u64)],
        Header::Unknown => Seq::empty(),
    }
}

/// Which bits of the Command register an assignment owns.
pub open spec fn owned_bits(header: Header) -> Seq<u64> {
    match header {
        Header::Type1 => seq![IO_SPACE_BIT, MEMORY_SPACE_BIT, BUS_MASTER_BIT],
        _ => seq![MEMORY_SPACE_BIT, BUS_MASTER_BIT],
    }
}

/// The Bridge Control bits that decide what a bridge forwards and whether it
/// resets what is behind it.
pub open spec fn routing_bits() -> Seq<u64> {
    seq![2u64, 3u64, 4u64, 6u64]
}

/// Whether `[offset, offset + width)` meets `[start, end)`.
pub open spec fn meets(offset: u64, width: u64, start: int, end: int) -> bool {
    offset < end && start < offset + width
}

/// Whether a configuration write may proceed: the header layout is known, it
/// touches neither interrupt capability, and it changes no placement byte,
/// no owned Command bit and, on a bridge, no routing bit.
pub open spec fn write_permitted(entry: Assignment, offset: u64, width: u64, value: u64, space: Seq<u8>) -> bool {
    &&& entry.header != Header::Unknown
    &&& !(entry.msix.capability != 0 && meets(offset, width, entry.msix.capability as int, entry.msix.capability + 12))
    &&& !(entry.msi.is_present() && meets(offset, width, entry.msi.capability as int, entry.msi.capability + entry.msi.bytes))
    &&& forall|i: int| 0 <= i < placement(entry.header).len() ==> !changes_range(space, offset, width, value, #[trigger] placement(entry.header)[i].0, placement(entry.header)[i].1)
    &&& forall|i: int| 0 <= i < owned_bits(entry.header).len() ==> !changes_one_bit(space, offset, width, value, COMMAND, #[trigger] owned_bits(entry.header)[i])
    &&& entry.header == Header::Type1 ==> forall|i: int| 0 <= i < 4 ==> !changes_one_bit(space, offset, width, value, BRIDGE_CONTROL, #[trigger] routing_bits()[i])
}

fn changes_bytes(space: &[u8], offset: u64, width: u64, value: u64, start: u64, bytes: u64) -> (r: bool)
    requires
        space@.len() == CONVENTIONAL_CONFIG_BYTES,
        access_ok(offset, width),
        start + bytes <= CONVENTIONAL_CONFIG_BYTES,
    ensures
        r == changes_range(space@, offset, width, value, start, bytes),
{
    let mut at = if offset > start { offset } else { start };
    let write_end = offset + width;
    let range_end = start + bytes;
    let stop = if write_end < range_end { write_end } else { range_end };
    while at < stop
        invariant
            stop <= CONVENTIONAL_CONFIG_BYTES,
            stop == (if write_end < range_end { write_end } else { range_end }),
            write_end == offset + width,
            range_end == start + bytes,
            offset <= at,
            start <= at,
            access_ok(offset, width),
            space@.len() == CONVENTIONAL_CONFIG_BYTES,
            forall|k: int| (if offset > start { offset as int } else { start as int }) <= k < at ==> byte_written(value, offset, k) == #[trigger] space@[k] as u64,
        decreases stop - at,
    {
        assert(at - offset < width);
        let written = (value >> ((at - offset) * 8)) & 0xFF;
        if written != space[at as usize] as u64 {
            proof {
                assert(byte_written(value, offset, at as int) != space@[at as int] as u64);
            }
            return true;
        }
        at = at + 1;
    }
    false
}

fn changes_bit(space: &[u8], offset: u64, width: u64, value: u64, byte: u64, bit: u64) -> (r: bool)
    requires
        space@.len() == CONVENTIONAL_CONFIG_BYTES,
        access_ok(offset, width),
        byte < CONVENTIONAL_CONFIG_BYTES,
        bit < 8,
    ensures
        r == changes_one_bit(space@, offset, width, value, byte, bit),
{
    if offset > byte || byte >= offset + width {
        return false;
    }
    let written = (value >> ((byte - offset) * 8 + bit)) & 1;
    let current = ((space[byte as usize] as u64) >> bit) & 1;
    written != current
}

fn placement_ranges(header: Header) -> (r: Vec<(u64, u64)>)
    ensures
        r@ == placement(header),
{
    let r = match header {
        Header::Type0 => vec![(0x10u64, 24u64), (0x30u64, 4u64)],
        Header::Type1 => vec![(0x10u64, 8u64), (0x18u64, 3u64), (0x1Cu64, 2u64), (0x20u64, 8u64), (0x28u64, 12u64), (0x38u64, 4u64)],
        Header::Unknown => Vec::new(),
    };
    proof {
        assert(r@ =~= placement(header));
    }
    r
}

fn owned_command_bits(header: Header) -> (r: Vec<u64>)
    ensures
        r@ == owned_bits(header),
{
    let r = match header {
        Header::Type1 => vec![IO_SPACE_BIT, MEMORY_SPACE_BIT, BUS_MASTER_BIT],
        _ => vec![MEMORY_SPACE_BIT, BUS_MASTER_BIT],
    };
    proof {
        assert(r@ =~= owned_bits(header));
    }
    r
}

/// Whether a configuration write of `value` may proceed, given the bytes of
/// conventional configuration space as they are now. A refused write touches
/// nothing.
pub fn write_is_permitted(entry: &Assignment, offset: u64, width: u64, value: u64, space: &[u8]) -> (ok: bool)
    requires
        space@.len() == CONVENTIONAL_CONFIG_BYTES,
        access_ok(offset, width),
    ensures
        ok == write_permitted(*entry, offset, width, value, space@),
{
    if entry.header == Header::Unknown {
        return false;
    }
    if entry.msix.capability != 0 {
        let start = entry.msix.capability as u64;
        let end = start + MSIX_CAPABILITY_BYTES;
        if offset < end && start < offset + width {
            return false;
        }
    }
    if entry.msi.present() {
        let start = entry.msi.capability as u64;
        let touches = match start.checked_add(entry.msi.bytes) {
            Some(end) => offset < end && start < offset + width,
            None => start < offset + width,
        };
        if touches {
            return false;
        }
    }
    let ranges = placement_ranges(entry.header);
    let mut i: usize = 0;
    while i < ranges.len()
        invariant
            ranges@ == placement(entry.header),
            i <= ranges.len(),
            space@.len() == CONVENTIONAL_CONFIG_BYTES,
            access_ok(offset, width),
            forall|j: int| 0 <= j < i ==> !changes_range(space@, offset, width, value, #[trigger] placement(entry.header)[j].0, placement(entry.header)[j].1),
        decreases ranges.len() - i,
    {
        let (start, bytes) = ranges[i];
        if changes_bytes(space, offset, width, value, start, bytes) {
            return false;
        }
        i = i + 1;
    }
    let bits = owned_command_bits(entry.header);
    let mut i: usize = 0;
    while i < bits.len()
        invariant
            bits@ == owned_bits(entry.header),
            i <= bits.len(),
            space@.len() == CONVENTIONAL_CONFIG_BYTES,
            access_ok(offset, width),
            forall|j: int| 0 <= j < i ==> !changes_one_bit(space@, offset, width, value, COMMAND, #[trigger] owned_bits(entry.header)[j]),
        decreases bits.len() - i,
    {
        if changes_bit(space, offset, width, value, COMMAND, bits[i]) {
            return false;
        }
        i = i + 1;
    }
    if entry.header == Header::Type1 {
        let routing: Vec<u64> = vec![2, 3, 4, 6];
        proof {
            assert(routing@ =~= routing_bits());
        }
        let mut i: usize = 0;
        while i < 4
            invariant
                routing@ == routing_bits(),
                entry.header == Header::Type1,
                i <= 4,
                space@.len() == CONVENTIONAL_CONFIG_BYTES,
                access_ok(offset, width),
                forall|j: int| 0 <= j < i ==> !changes_one_bit(space@, offset, width, value, BRIDGE_CONTROL, #[trigger] routing_bits()[j]),
            decreases 4 - i,
        {
            if changes_bit(space, offset, width, value, BRIDGE_CONTROL, routing[i]) {
                proof {
                    assert(changes_one_bit(space@, offset, width, value, BRIDGE_CONTROL, routing_bits()[i as int]));
                }
                return false;
            }
            i = i + 1;
        }
    }
    true
}


/// A 16-bit little-endian register of a configuration snapshot.
pub open spec fn word_at(space: Seq<u8>, at: int) -> u64 {
    (space[at] as u64) | ((space[at + 1] as u64) << 8u64)
}

/// A 32-bit little-endian register of a configuration snapshot.
pub open spec fn dword_at(space: Seq<u8>, at: int) -> u64 {
    word_at(space, at) | (word_at(space, at + 2) << 16u64)
}

fn read_word(space: &[u8], at: usize) -> (r: u64)
    requires
        space@.len() == CONVENTIONAL_CONFIG_BYTES,
        at + 2 <= space@.len(),
    ensures
        r == word_at(space@, at as int),
{
    (space[at] as u64) | ((space[at + 1] as u64) << 8u64)
}

fn read_dword(space: &[u8], at: usize) -> (r: u64)
    requires
        space@.len() == CONVENTIONAL_CONFIG_BYTES,
        at + 4 <= space@.len(),
    ensures
        r == dword_at(space@, at as int),
{
    read_word(space, at) | (read_word(space, at + 2) << 16u64)
}

/// The header layout a snapshot reports; bit 7 of the header-type register
/// is the multi-function flag and says nothing about the layout.
pub open spec fn header_of(space: Seq<u8>) -> Header {
    let t = space[0x0E] & 0x7F;
    if t == 0 {
        Header::Type0
    } else if t == 1 {
        Header::Type1
    } else {
        Header::Unknown
    }
}

/// Reads which header layout a function reports.
pub fn read_header(space: &[u8]) -> (h: Header)
    requires
        space@.len() == CONVENTIONAL_CONFIG_BYTES,
    ensures
        h == header_of(space@),
{
    let t = space[0x0E] & 0x7F;
    if t == 0 {
        Header::Type0
    } else if t == 1 {
        Header::Type1
    } else {
        Header::Unknown
    }
}

/// The conventional MSI capability at `capability`: 10 bytes, four more for
/// a 64-bit message address and ten more for per-vector masking, or absent
/// when that would reach past conventional space.
pub open spec fn msi_at(space: Seq<u8>, capability: u64) -> Msi {
    let control = word_at(space, capability + 2);
    let bytes = 10 + (if control & 0x80 != 0 { 4int } else { 0 }) + (if control & 0x100 != 0 { 10int } else { 0 });
    if capability + bytes > CONVENTIONAL_CONFIG_BYTES {
        absent_msi()
    } else {
        Msi { capability: capability as u8, bytes: bytes as u64 }
    }
}

/// The MSI-X capability at `capability`, or absent when its four words do
/// not fit in conventional space. The table size is stored as N - 1.
pub open spec fn msix_at(space: Seq<u8>, capability: u64) -> MsiX {
    if capability + MSIX_CAPABILITY_BYTES > CONVENTIONAL_CONFIG_BYTES {
        absent_msix()
    } else {
        let control = word_at(space, capability + 2);
        let table = dword_at(space, capability + 4);
        let pba = dword_at(space, capability + 8);
        MsiX {
            capability: capability as u8,
            table_bar: (table & 7) as u8,
            table_offset: table & !7u64,
            pba_bar: (pba & 7) as u8,
            pba_offset: pba & !7u64,
            entries: ((control & 0x7FF) + 1) as u16,
        }
    }
}

/// Reads one conventional MSI capability, deriving its extent from its own
/// Message Control.
pub fn read_msi_at(space: &[u8], capability: u64) -> (m: Msi)
    requires
        space@.len() == CONVENTIONAL_CONFIG_BYTES,
        capability + 4 <= CONVENTIONAL_CONFIG_BYTES,
    ensures
        m == msi_at(space@, capability),
{
    let control = read_word(space, capability as usize + 2);
    let mut bytes: u64 = 10;
    if control & 0x80 != 0 {
        bytes = bytes + 4;
    }
    if control & 0x100 != 0 {
        bytes = bytes + 10;
    }
    if capability + bytes > CONVENTIONAL_CONFIG_BYTES {
        return Msi::absent();
    }
    Msi { capability: capability as u8, bytes }
}

/// Reads one MSI-X capability structure.
pub fn read_msix_at(space: &[u8], capability: u64) -> (m: MsiX)
    requires
        space@.len() == CONVENTIONAL_CONFIG_BYTES,
        capability <= CONVENTIONAL_CONFIG_BYTES,
    ensures
        m == msix_at(space@, capability),
{
    if capability + MSIX_CAPABILITY_BYTES > CONVENTIONAL_CONFIG_BYTES {
        return MsiX::absent();
    }
    let control = read_word(space, capability as usize + 2);
    let table = read_dword(space, capability as usize + 4);
    let pba = read_dword(space, capability as usize + 8);
    proof {
        assert(control & 0x7FF <= 0x7FF) by (bit_vector);
    }
    MsiX {
        capability: capability as u8,
        table_bar: (table & 7) as u8,
        table_offset: table & !7u64,
        pba_bar: (pba & 7) as u8,
        pba_offset: pba & !7u64,
        entries: ((control & 0x7FF) + 1) as u16,
    }
}

/// The capability walk from `at`, with `steps` steps left: bounded by the
/// range capabilities may lie in, by the step budget, and by a pointer that
/// does not advance.
pub open spec fn capability_walk(space: Seq<u8>, at: u64, steps: nat, found: (MsiX, Msi)) -> (MsiX, Msi)
    decreases steps,
{
    if steps == 0 || at < FIRST_CAPABILITY || at > LAST_CAPABILITY {
        found
    } else {
        let id = space[at as int] as u64;
        let next_found = if id == CAP_ID_MSIX {
            (msix_at(space, at), found.1)
        } else if id == CAP_ID_MSI {
            (found.0, msi_at(space, at))
        } else {
            found
        };
        let next = (space[at + 1] as u64) & !3u64;
        if next == at {
            next_found
        } else {
            capability_walk(space, next, (steps - 1) as nat, next_found)
        }
    }
}

/// Where a function keeps its MSI-X and MSI capabilities, from one walk of
/// its capability list; both absent when it has no list.
pub open spec fn interrupt_capabilities(space: Seq<u8>) -> (MsiX, Msi) {
    if word_at(space, 6) & 0x10 == 0 {
        (absent_msix(), absent_msi())
    } else {
        capability_walk(space, (space[CAPABILITY_POINTER as int] as u64) & !3u64, MAX_CAPABILITY_STEPS as nat, (absent_msix(), absent_msi()))
    }
}

/// Walks a function's capability list for MSI-X and MSI, reading nothing
/// else. Bounded three ways, so a malformed list cannot hang the walk.
pub fn find_interrupt_capabilities(space: &[u8]) -> (r: (MsiX, Msi))
    requires
        space@.len() == CONVENTIONAL_CONFIG_BYTES,
    ensures
        r == interrupt_capabilities(space@),
{
    let mut msix = MsiX::absent();
    let mut msi = Msi::absent();
    if read_word(space, 6) & 0x10 == 0 {
        return (msix, msi);
    }
    let mut at = (space[CAPABILITY_POINTER as usize] as u64) & !3u64;
    let mut steps: usize = 0;
    while steps < MAX_CAPABILITY_STEPS
        invariant_except_break
            interrupt_capabilities(space@) == capability_walk(space@, at, (MAX_CAPABILITY_STEPS - steps) as nat, (msix, msi)),
        invariant
            space@.len() == CONVENTIONAL_CONFIG_BYTES,
            steps <= MAX_CAPABILITY_STEPS,
        ensures
            interrupt_capabilities(space@) == (msix, msi),
        decreases MAX_CAPABILITY_STEPS - steps,
    {
        if at < FIRST_CAPABILITY || at > LAST_CAPABILITY {
            break;
        }
        let ghost before = (msix, msi);
        let id = space[at as usize] as u64;
        if id == CAP_ID_MSIX {
            msix = read_msix_at(space, at);
        } else if id == CAP_ID_MSI {
            msi = read_msi_at(space, at);
        }
        let next = (space[at as usize + 1] as u64) & !3u64;
        proof {
            assert(capability_walk(space@, at, (MAX_CAPABILITY_STEPS - steps) as nat, before) == (if next == at {
                (msix, msi)
            } else {
                capability_walk(space@, next, (MAX_CAPABILITY_STEPS - steps - 1) as nat, (msix, msi))
            }));
        }
        if next == at {
            break;
        }
        at = next;
        steps = steps + 1;
    }
    (msix, msi)
}

/// The base-address registers a function reports, from each register's
/// original value and what it read back after all-ones were written: a
/// probe of zero is unimplemented, bit 0 marks an I/O BAR, a 64-bit BAR
/// takes the register above it as its high half, and the extent is the low
/// run of clear bits plus one.
pub open spec fn bars_from(original: Seq<u64>, probed: Seq<u64>, at: int, acc: Seq<Bar>) -> Seq<Bar>
    decreases 6 - at,
{
    if at >= 6 || at < 0 {
        acc
    } else if probed[at] == 0 || original[at] & 1 != 0 {
        bars_from(original, probed, at + 1, acc)
    } else {
        let sixty_four = (original[at] >> 1u64) & 3 == 2;
        if sixty_four && at + 1 >= 6 {
            bars_from(original, probed, at + 1, acc)
        } else {
            let base = if sixty_four { (original[at] & !0xFu64) | (original[at + 1] << 32u64) } else { original[at] & !0xFu64 };
            let mask = if sixty_four { (probed[at] & !0xFu64) | (probed[at + 1] << 32u64) } else { probed[at] & !0xFu64 };
            let length = (!mask).wrapping_add(1);
            let next = if length != 0 && base != 0 { acc.update(at, Bar { base, length, memory: true }) } else { acc };
            bars_from(original, probed, at + if sixty_four { 2int } else { 1int }, next)
        }
    }
}

/// Measures every base-address register of a freshly claimed function from
/// what the all-ones probe of each read back.
pub fn size_bars(original: &[u64], probed: &[u64]) -> (bars: [Bar; 6])
    requires
        original@.len() == 6,
        probed@.len() == 6,
    ensures
        bars@ == bars_from(original@, probed@, 0, Seq::new(6, |i: int| empty_bar())),
{
    let mut bars = [Bar::empty(), Bar::empty(), Bar::empty(), Bar::empty(), Bar::empty(), Bar::empty()];
    proof {
        assert(bars@ =~= Seq::new(6, |i: int| empty_bar()));
    }
    let mut at: usize = 0;
    while at < 6
        invariant
            original@.len() == 6,
            probed@.len() == 6,
            at <= 7,
            bars@.len() == 6,
            bars_from(original@, probed@, 0, Seq::new(6, |i: int| empty_bar())) == bars_from(original@, probed@, at as int, bars@),
        decreases 7 - at,
    {
        if probed[at] == 0 || original[at] & 1 != 0 {
            at = at + 1;
            continue;
        }
        let sixty_four = (original[at] >> 1u64) & 3 == 2;
        if sixty_four && at + 1 >= 6 {
            at = at + 1;
            continue;
        }
        let mut base = original[at] & !0xFu64;
        let mut mask = probed[at] & !0xFu64;
        if sixty_four {
            base = base | (original[at + 1] << 32u64);
            mask = mask | (probed[at + 1] << 32u64);
        }
        let length = (!mask).wrapping_add(1);
        if length != 0 && base != 0 {
            bars.set(at, Bar { base, length, memory: true });
        }
        at = at + if sixty_four { 2 } else { 1 };
    }
    bars
}

/// The Command register a freshly claimed function is put into: Memory
/// Space Enable and Bus Master Enable clear, whatever the firmware left;
/// `None` when they already are.
pub fn normalised_command(command: u64) -> (r: Option<u64>)
    ensures
        r == (if command & !6u64 != command { Some(command & !6u64) } else { None }),
{
    let cleared = command & !((1u64 << MEMORY_SPACE_BIT) | (1u64 << BUS_MASTER_BIT));
    proof {
        assert((1u64 << 1u64) | (1u64 << 2u64) == 6u64) by (bit_vector);
    }
    if cleared != command {
        Some(cleared)
    } else {
        None
    }
}

/// An MSI-X Message Control word with the enable off and the function mask
/// on, in one write.
pub fn msix_quiesced(control: u64) -> (r: u64)
    ensures
        r == (control & !0x8000u64) | 0x4000u64,
{
    (control & !0x8000u64) | 0x4000u64
}

/// An MSI Message Control word with the enable off.
pub fn msi_quiesced(control: u64) -> (r: u64)
    ensures
        r == control & !1u64,
{
    control & !1u64
}

impl Assignments {
    /// The Mechanism #1 address a configuration read of the named assignment
    /// uses, when the assignment lives, the access is well formed and the
    /// segment is the one the mechanism reaches.
    pub fn config_read(&self, index: u32, generation: u32, offset: u64, width: u64) -> (r: Option<u32>)
        requires
            self.wf(),
        ensures
            r == (match self.named(index, generation) {
                Some(a) => if access_ok(offset, width) && a.segment == 0 {
                    Some(config_address(a.bus, a.device, a.function, offset))
                } else {
                    None
                },
                None => None,
            }),
    {
        let entry = match self.assignment(index, generation) {
            Some(e) => e,
            None => return None,
        };
        if !access_is_valid(offset, width) {
            return None;
        }
        if entry.segment != 0 {
            return None;
        }
        Some(address_of(&entry, offset))
    }

    /// The Mechanism #1 address a configuration write of the named
    /// assignment uses, or why it may not happen, given the bytes of
    /// conventional configuration space as they are now. A refused write
    /// touches nothing.
    pub fn config_write(&self, index: u32, generation: u32, offset: u64, width: u64, value: u64, space: &[u8]) -> (r: Result<u32, WriteRefused>)
        requires
            self.wf(),
            space@.len() == CONVENTIONAL_CONFIG_BYTES,
        ensures
            r == (match self.named(index, generation) {
                Some(a) => if !access_ok(offset, width) || a.segment != 0 {
                    Err(WriteRefused::BadArgument)
                } else if !write_permitted(a, offset, width, value, space@) {
                    Err(WriteRefused::Reserved)
                } else {
                    Ok(config_address(a.bus, a.device, a.function, offset))
                },
                None => Err(WriteRefused::BadArgument),
            }),
    {
        let entry = match self.assignment(index, generation) {
            Some(e) => e,
            None => return Err(WriteRefused::BadArgument),
        };
        if !access_is_valid(offset, width) || entry.segment != 0 {
            return Err(WriteRefused::BadArgument);
        }
        if !write_is_permitted(&entry, offset, width, value, space) {
            return Err(WriteRefused::Reserved);
        }
        Ok(address_of(&entry, offset))
    }
}


/// The end of an assignment's life: when its last name is released and no
/// descendant holds it, the slot is free again under the next generation, so
/// the handle that named it names nothing, and a later claim that reuses the
/// slot hands out a handle the old one can never be mistaken for.
pub proof fn lemma_released_assignment_ends(
    before: &Assignments,
    after: &Assignments,
    index: u32,
    generation: u32,
    r: Result<(), ()>,
)
    requires
        before.wf(),
        before.named(index, generation) matches Some(a) && a.names == 1 && a.descendants == 0,
        r is Ok <==> (before.named(index, generation) matches Some(a) && a.names > 0),
        r is Ok ==> after.slots() == before.slots().update(
            index as int,
            settled(Assignment { names: (before.slots()[index as int].names - 1) as u32, ..before.slots()[index as int] }),
        ),
    ensures
        r is Ok,
        after.named(index, generation) is None,
        !after.slots()[index as int].live,
        after.slots()[index as int].generation == next_generation(generation),
        after.slots()[index as int].generation != generation,
        after.slots()[index as int].generation != 0,
        forall|j: int| 0 <= j < MAX_ASSIGNMENTS && j != index ==> #[trigger] after.slots()[j] == before.slots()[j],
{
}


/// Where a generation that stood at `start` stands after `m` steps of
/// `next_generation`, for `m` below one full turn of the nonzero values.
spec fn generation_ahead(start: int, m: int) -> int {
    if start + m <= u32::MAX {
        start + m
    } else {
        start + m - u32::MAX
    }
}

/// A released generation never resolves again: once an assignment has ended
/// and its slot has moved on to the next generation, then across any later
/// run of calls, each moving the table as every call on it does, the handle
/// `(index, generation)` names nothing, whatever was claimed, retained or
/// released in that slot since, until the slot's generation has come all the
/// way round.
pub proof fn lemma_released_generation_never_resolves(history: Seq<Seq<Assignment>>, index: u32, generation: u32)
    requires
        history.len() >= 1,
        history.len() < u32::MAX,
        index < MAX_ASSIGNMENTS,
        generation != 0,
        history[0].len() == MAX_ASSIGNMENTS,
        history[0][index as int].generation == next_generation(generation),
        forall|k: int| 0 <= k < history.len() - 1 ==> generations_step(#[trigger] history[k], history[k + 1]),
    ensures
        forall|k: int| 0 <= k < history.len() ==> !(#[trigger] history[k][index as int].live
            && history[k][index as int].generation == generation),
{
    assert forall|k: int| 0 <= k < history.len() implies !(#[trigger] history[k][index as int].live
        && history[k][index as int].generation == generation) by {
        lemma_generation_counted(history, index as int, generation as int, k);
        let m = choose|m: int| 1 <= m <= k + 1 && history[k][index as int].generation == #[trigger] generation_ahead(generation as int, m);
        assert(generation_ahead(generation as int, m) != generation);
    }
}

proof fn lemma_generation_counted(history: Seq<Seq<Assignment>>, i: int, g: int, k: int)
    requires
        0 <= k < history.len(),
        history.len() < u32::MAX,
        0 <= i < MAX_ASSIGNMENTS,
        1 <= g <= u32::MAX,
        history[0].len() == MAX_ASSIGNMENTS,
        history[0][i].generation == next_generation(g as u32),
        forall|j: int| 0 <= j < history.len() - 1 ==> generations_step(#[trigger] history[j], history[j + 1]),
    ensures
        history[k].len() == MAX_ASSIGNMENTS,
        exists|m: int| 1 <= m <= k + 1 && history[k][i].generation == #[trigger] generation_ahead(g, m),
    decreases k,
{
    if k == 0 {
        assert(history[0][i].generation == generation_ahead(g, 1));
    } else {
        lemma_generation_counted(history, i, g, k - 1);
        let m = choose|m: int| 1 <= m <= k && history[k - 1][i].generation == #[trigger] generation_ahead(g, m);
        assert(generations_step(history[k - 1], history[k]));
        assert(generation_step(history[k - 1], history[k], i));
        if history[k][i].generation != history[k - 1][i].generation {
            assert(history[k][i].generation == generation_ahead(g, m + 1));
        } else {
            assert(history[k][i].generation == generation_ahead(g, m));
        }
    }
}


/// A well-formed table has one slot per assignment it can hold.
pub proof fn lemma_slots_len(p: &Assignments)
    requires
        p.wf(),
    ensures
        p.slots().len() == MAX_ASSIGNMENTS,
        forall|i: int| 0 <= i < MAX_ASSIGNMENTS ==> #[trigger] p.slots()[i].generation != 0,
{
}

} // verus!
