//! A four-level page-table tree over a model of the frames it is made of.
//!
//! Every table is one 4 KiB frame of 512 entries, taken from a `TableSource`
//! and named by its physical address. The walk the processor performs is
//! stated once, as `leaf_entry`, and every operation here is specified by what
//! it does to that walk: a map changes the translation of exactly one page
//! (or one 2 MiB chunk), and no interior step changes any translation at all.
use vstd::prelude::*;
use crate::dma::Span;

verus! {

/// Page-table entry bits, as the architecture defines them.
pub const PRESENT: u64 = 1;
pub const WRITABLE: u64 = 2;
pub const USER: u64 = 4;
pub const WRITE_THROUGH: u64 = 8;
pub const CACHE_DISABLE: u64 = 16;
pub const HUGE: u64 = 128;
pub const NO_EXECUTE: u64 = 0x8000_0000_0000_0000;
/// The physical-address field of an entry.
pub const ADDRESS: u64 = 0x000f_ffff_ffff_f000;
/// Entries in every table at every level.
pub const ENTRIES: u64 = 512;
/// Bytes one entry of a page directory covers.
pub const HUGE_SIZE: u64 = 0x20_0000;
/// The first virtual address four-level paging cannot express.
pub const VIRTUAL_LIMIT: u64 = 0x1_0000_0000_0000;

/// Why an address space could not be built or changed.
#[derive(Clone, Copy, Debug, PartialEq, Eq, Structural)]
pub enum PagingRefused {
    /// The source had no frame left for a table.
    NoFrame,
    /// The address is above what four-level paging can address.
    AddressTooHigh(u64),
    /// A 2 MiB mapping is where a table must go, or a leaf is already there.
    Granularity(u64),
}

pub open spec fn present(e: u64) -> bool {
    e & PRESENT != 0
}

pub open spec fn huge(e: u64) -> bool {
    e & HUGE != 0
}

/// The table or frame an entry names.
pub open spec fn target(e: u64) -> u64 {
    e & ADDRESS
}

/// A frame address an entry can name exactly.
pub open spec fn aligned_frame(f: u64) -> bool {
    f & ADDRESS == f
}

pub open spec fn l4_of(v: u64) -> u64 {
    (v >> 39u64) & 511
}

pub open spec fn l3_of(v: u64) -> u64 {
    (v >> 30u64) & 511
}

pub open spec fn l2_of(v: u64) -> u64 {
    (v >> 21u64) & 511
}

pub open spec fn l1_of(v: u64) -> u64 {
    (v >> 12u64) & 511
}

/// One entry of one table, as memory holds it; a frame that is not a table
/// of this space reads as zero.
pub open spec fn read_entry(mem: Map<u64, Seq<u64>>, table: u64, index: u64) -> u64 {
    if mem.contains_key(table) && index < mem[table].len() {
        mem[table][index as int]
    } else {
        0
    }
}

/// Whether an entry leads to a table below it.
pub open spec fn descends(e: u64) -> bool {
    present(e) && !huge(e)
}

/// The page directory on `virt`'s path, if the two levels above it lead there.
pub open spec fn directory_of(mem: Map<u64, Seq<u64>>, root: u64, virt: u64) -> Option<u64> {
    let e4 = read_entry(mem, root, l4_of(virt));
    if !descends(e4) {
        None
    } else {
        let e3 = read_entry(mem, target(e4), l3_of(virt));
        if !descends(e3) {
            None
        } else {
            Some(target(e3))
        }
    }
}

/// The page-directory entry covering `virt`, if the path reaches one.
pub open spec fn directory_entry(mem: Map<u64, Seq<u64>>, root: u64, virt: u64) -> Option<u64> {
    match directory_of(mem, root, virt) {
        Some(pd) => Some(read_entry(mem, pd, l2_of(virt))),
        None => None,
    }
}

/// The page table on `virt`'s path, if all three levels above it lead there.
pub open spec fn leaf_table(mem: Map<u64, Seq<u64>>, root: u64, virt: u64) -> Option<u64> {
    match directory_entry(mem, root, virt) {
        Some(e2) => if descends(e2) {
            Some(target(e2))
        } else {
            None
        },
        None => None,
    }
}

/// The 4 KiB leaf entry the processor's walk finds for `virt`, if present.
pub open spec fn leaf_entry(mem: Map<u64, Seq<u64>>, root: u64, virt: u64) -> Option<u64> {
    if virt >= VIRTUAL_LIMIT {
        None
    } else {
        match leaf_table(mem, root, virt) {
            Some(pt) => {
                let e = read_entry(mem, pt, l1_of(virt));
                if present(e) {
                    Some(e)
                } else {
                    None
                }
            },
            None => None,
        }
    }
}

/// The frame a page maps to.
pub open spec fn translation(mem: Map<u64, Seq<u64>>, root: u64, virt: u64) -> Option<u64> {
    match leaf_entry(mem, root, virt) {
        Some(e) => Some(target(e)),
        None => None,
    }
}

/// Whether a mapped page may be written, by its leaf's own bit.
pub open spec fn writability(mem: Map<u64, Seq<u64>>, root: u64, virt: u64) -> Option<bool> {
    match leaf_entry(mem, root, virt) {
        Some(e) => Some(e & WRITABLE != 0),
        None => None,
    }
}

/// The first table on `virt`'s path that holds a 2 MiB or larger leaf where
/// a table must go, before any absent entry.
pub open spec fn path_blocked(mem: Map<u64, Seq<u64>>, root: u64, virt: u64) -> Option<u64> {
    let e4 = read_entry(mem, root, l4_of(virt));
    if !present(e4) {
        None
    } else if huge(e4) {
        Some(root)
    } else {
        let e3 = read_entry(mem, target(e4), l3_of(virt));
        if !present(e3) {
            None
        } else if huge(e3) {
            Some(target(e4))
        } else {
            let e2 = read_entry(mem, target(e3), l2_of(virt));
            if !present(e2) {
                None
            } else if huge(e2) {
                Some(target(e3))
            } else {
                None
            }
        }
    }
}

/// How many tables mapping one 4 KiB page at `virt` must allocate.
pub open spec fn path_needs(mem: Map<u64, Seq<u64>>, root: u64, virt: u64) -> nat {
    let e4 = read_entry(mem, root, l4_of(virt));
    if !present(e4) {
        3
    } else {
        let e3 = read_entry(mem, target(e4), l3_of(virt));
        if !present(e3) {
            2
        } else {
            let e2 = read_entry(mem, target(e3), l2_of(virt));
            if !present(e2) {
                1
            } else {
                0
            }
        }
    }
}

/// How many tables mapping one 2 MiB page at `virt` must allocate.
pub open spec fn huge_path_needs(mem: Map<u64, Seq<u64>>, root: u64, virt: u64) -> nat {
    let e4 = read_entry(mem, root, l4_of(virt));
    if !present(e4) {
        2
    } else {
        let e3 = read_entry(mem, target(e4), l3_of(virt));
        if !present(e3) {
            1
        } else {
            0
        }
    }
}

/// The first table on the way to `virt`'s page directory that holds a large
/// leaf where a table must go.
pub open spec fn huge_path_blocked(mem: Map<u64, Seq<u64>>, root: u64, virt: u64) -> Option<u64> {
    let e4 = read_entry(mem, root, l4_of(virt));
    if !present(e4) {
        None
    } else if huge(e4) {
        Some(root)
    } else {
        let e3 = read_entry(mem, target(e4), l3_of(virt));
        if present(e3) && huge(e3) {
            Some(target(e4))
        } else {
            None
        }
    }
}

/// A 4 KiB leaf for `phys` with `flags`.
pub open spec fn page_leaf(phys: u64, flags: u64) -> u64 {
    (phys & ADDRESS) | flags | PRESENT
}

/// A 2 MiB leaf for `phys` with `flags`.
pub open spec fn huge_leaf(phys: u64, flags: u64) -> u64 {
    (phys & ADDRESS) | flags | HUGE | PRESENT
}

/// What the path to a leaf with these flags must itself allow.
pub open spec fn interior_spec(flags: u64) -> u64 {
    PRESENT | WRITABLE | (flags & USER)
}

/// A table of 512 empty entries.
pub open spec fn empty_table() -> Seq<u64> {
    Seq::new(512, |i: int| 0u64)
}

/// The tree's shape, with a position for every table: its level (4 for the
/// root, 1 for a page table) and which part of the address space it serves.
/// An entry that leads somewhere leads to a table one level down, serving the
/// part its index selects.
pub open spec fn shaped(mem: Map<u64, Seq<u64>>, pos: Map<u64, (int, int)>, root: u64) -> bool {
    &&& mem.dom() == pos.dom()
    &&& mem.contains_key(root)
    &&& pos[root] == (4int, 0int)
    &&& forall|t: u64| #[trigger] mem.contains_key(t) ==> {
        &&& mem[t].len() == 512
        &&& 1 <= pos[t].0 <= 4
        &&& aligned_frame(t)
    }
    &&& forall|t: u64, i: u64|
        mem.contains_key(t) && i < 512 && pos[t].0 >= 2 && #[trigger] descends(mem[t][i as int]) ==> {
            &&& mem.contains_key(target(mem[t][i as int]))
            &&& pos[target(mem[t][i as int])] == (pos[t].0 - 1, pos[t].1 * 512 + i)
        }
}

/// Whether entry `i` of table `t` leads to a table below it.
pub open spec fn linked(mem: Map<u64, Seq<u64>>, pos: Map<u64, (int, int)>, t: u64, i: u64) -> bool {
    mem.contains_key(t) && i < 512 && pos[t].0 >= 2 && descends(mem[t][i as int])
}

/// No table is reached through two entries: the tree is a tree, and a table
/// has exactly the one parent entry that leads to it.
pub open spec fn unshared(mem: Map<u64, Seq<u64>>, pos: Map<u64, (int, int)>) -> bool {
    forall|t1: u64, i1: u64, t2: u64, i2: u64|
        #[trigger] linked(mem, pos, t1, i1) && #[trigger] linked(mem, pos, t2, i2) && target(mem[t1][i1 as int])
            == target(mem[t2][i2 as int]) ==> t1 == t2 && i1 == i2
}

/// Writing one entry keeps the tree a tree when what is written leads
/// nowhere, or leads where the entry already led.
proof fn lemma_unshared_write(
    m1: Map<u64, Seq<u64>>,
    m2: Map<u64, Seq<u64>>,
    pos: Map<u64, (int, int)>,
    table: u64,
    index: u64,
    value: u64,
)
    requires
        unshared(m1, pos),
        m1.contains_key(table),
        index < 512,
        m1[table].len() == 512,
        m2 == m1.insert(table, m1[table].update(index as int, value)),
        pos[table].0 < 2 || !descends(value) || (descends(m1[table][index as int]) && target(value) == target(
            m1[table][index as int],
        )),
    ensures
        unshared(m2, pos),
{
    assert forall|t1: u64, i1: u64, t2: u64, i2: u64|
        #[trigger] linked(m2, pos, t1, i1) && #[trigger] linked(m2, pos, t2, i2) && target(m2[t1][i1 as int]) == target(
            m2[t2][i2 as int],
        ) implies t1 == t2 && i1 == i2 by {
        assert(linked(m1, pos, t1, i1) && target(m1[t1][i1 as int]) == target(m2[t1][i1 as int]));
        assert(linked(m1, pos, t2, i2) && target(m1[t2][i2 as int]) == target(m2[t2][i2 as int]));
    }
}

/// Hanging a cleared table at `frame` from one entry that led nowhere keeps
/// the tree a tree: nothing else can lead to a frame that was not a table.
proof fn lemma_unshared_fresh(
    m1: Map<u64, Seq<u64>>,
    m2: Map<u64, Seq<u64>>,
    pos1: Map<u64, (int, int)>,
    pos2: Map<u64, (int, int)>,
    table: u64,
    index: u64,
    frame: u64,
    value: u64,
)
    requires
        unshared(m1, pos1),
        forall|t: u64, i: u64| #[trigger] linked(m1, pos1, t, i) ==> m1.contains_key(target(m1[t][i as int])),
        !m1.contains_key(frame),
        m1.contains_key(table),
        table != frame,
        index < 512,
        m1[table].len() == 512,
        !descends(m1[table][index as int]),
        target(value) == frame,
        m2 == m1.insert(frame, empty_table()).insert(table, m1[table].update(index as int, value)),
        pos2 == pos1.insert(frame, pos2[frame]),
    ensures
        unshared(m2, pos2),
{
    lemma_entry_bits(0, 0, 0, 0, 0);
    assert forall|t1: u64, i1: u64, t2: u64, i2: u64|
        #[trigger] linked(m2, pos2, t1, i1) && #[trigger] linked(m2, pos2, t2, i2) && target(m2[t1][i1 as int]) == target(
            m2[t2][i2 as int],
        ) implies t1 == t2 && i1 == i2 by {
        assert(t1 != frame);
        assert(t2 != frame);
        if t1 == table && i1 == index {
            if !(t2 == table && i2 == index) {
                assert(linked(m1, pos1, t2, i2));
                assert(m1.contains_key(target(m1[t2][i2 as int])));
            }
        } else if t2 == table && i2 == index {
            assert(linked(m1, pos1, t1, i1));
            assert(m1.contains_key(target(m1[t1][i1 as int])));
        } else {
            assert(linked(m1, pos1, t1, i1));
            assert(linked(m1, pos1, t2, i2));
        }
    }
}


/// Where a page table's frame comes from.
///
/// A tree half-built and then abandoned returns its frames to the same place
/// it took them, so every source is a pool of frames this library can name.
pub trait TableSource {
    /// The frames the source can still hand out.
    spec fn pool(&self) -> Set<u64>;

    /// The source's own well-formedness.
    spec fn valid(&self) -> bool;

    /// A valid source holds finitely many page frames, none of them page zero.
    proof fn lemma_valid(&self)
        requires
            self.valid(),
        ensures
            self.pool().finite(),
            forall|f: u64| #[trigger] self.pool().contains(f) ==> aligned_frame(f) && f != 0,
    ;

    /// Gives one back, to whoever it came from: a tree abandoned returns
    /// its frames to the place it took them.
    fn give_back(&mut self, frame: u64)
        requires
            old(self).valid(),
            aligned_frame(frame),
            frame != 0,
            !old(self).pool().contains(frame),
        ensures
            final(self).valid(),
            final(self).pool() == old(self).pool().insert(frame),
    ;

    /// One cleared frame, or nothing when the source is spent.
    fn take(&mut self) -> (frame: Option<u64>)
        requires
            old(self).valid(),
        ensures
            final(self).valid(),
            match frame {
                Some(f) => old(self).pool().contains(f) && final(self).pool() == old(
                    self,
                ).pool().remove(f),
                None => old(self).pool().is_empty() && final(self).pool() == old(self).pool(),
            },
    ;
}


/// The large (2 MiB) leaf the walk finds in `virt`'s page directory, if any.
pub open spec fn large_leaf(mem: Map<u64, Seq<u64>>, root: u64, virt: u64) -> Option<u64> {
    if virt >= VIRTUAL_LIMIT {
        None
    } else {
        match directory_entry(mem, root, virt) {
            Some(e2) => if present(e2) && huge(e2) {
                Some(e2)
            } else {
                None
            },
            None => None,
        }
    }
}

proof fn lemma_index_bits(v: u64)
    ensures
        l4_of(v) < 512,
        l3_of(v) < 512,
        l2_of(v) < 512,
        l1_of(v) < 512,
        v < VIRTUAL_LIMIT ==> l4_of(v) == v >> 39u64,
        (v >> 39u64) * 512 + l3_of(v) == v >> 30u64,
        (v >> 30u64) * 512 + l2_of(v) == v >> 21u64,
        (v >> 21u64) * 512 + l1_of(v) == v >> 12u64,
{
    assert((v >> 39u64) & 511 < 512 && (v >> 30u64) & 511 < 512 && (v >> 21u64) & 511 < 512 && (v >> 12u64) & 511 < 512 && (v
        < 0x1_0000_0000_0000u64 ==> (v >> 39u64) & 511 == v >> 39u64) && (v >> 39u64) * 512 + ((v >> 30u64) & 511) == v >> 30u64
        && (v >> 30u64) * 512 + ((v >> 21u64) & 511) == v >> 21u64 && (v >> 21u64) * 512 + ((v >> 12u64) & 511) == v >> 12u64)
        by (bit_vector);
}

proof fn lemma_entry_bits(e: u64, f: u64, x: u64, phys: u64, flags: u64)
    ensures
        !present(0),
        present(page_leaf(phys, flags)),
        present(huge_leaf(phys, flags)) && huge(huge_leaf(phys, flags)),
        x < 128 ==> present(e | x) == (present(e) || x & 1 != 0),
        x < 128 ==> huge(e | x) == huge(e),
        x < 128 ==> target(e | x) == target(e),
        (e | x) & x == x,
        aligned_frame(f) && x < 128 ==> present(f | PRESENT | WRITABLE | x) && !huge(
            f | PRESENT | WRITABLE | x,
        ) && target(f | PRESENT | WRITABLE | x) == f,
        interior_spec(flags) < 128,
        interior_spec(flags) & 1 != 0,
{
    assert(0u64 & 1 == 0 && ((phys & 0x000f_ffff_ffff_f000u64) | flags | 1u64) & 1 != 0 && ((phys & 0x000f_ffff_ffff_f000u64)
        | flags | 128u64 | 1u64) & 1 != 0 && ((phys & 0x000f_ffff_ffff_f000u64) | flags | 128u64 | 1u64) & 128 != 0 && (1u64
        | 2u64 | (flags & 4u64)) < 128 && (1u64 | 2u64 | (flags & 4u64)) & 1 != 0) by (bit_vector);
    assert((x < 128 ==> (((e | x) & 1 != 0) == (e & 1 != 0 || x & 1 != 0))) && (x < 128 ==> (((e | x) & 128 != 0) == (e & 128
        != 0))) && (x < 128 ==> (e | x) & 0x000f_ffff_ffff_f000u64 == e & 0x000f_ffff_ffff_f000u64) && (e | x) & x == x)
        by (bit_vector);
    assert(f & 0x000f_ffff_ffff_f000u64 == f && x < 128 ==> (f | 1u64 | 2u64 | x) & 1 != 0
        && (f | 1u64 | 2u64 | x) & 128 == 0 && (f | 1u64 | 2u64 | x) & 0x000f_ffff_ffff_f000u64
        == f) by (bit_vector);
}

/// Where the walk for `virt` finds its tables: each one at the position the
/// tree's shape gives it.
proof fn lemma_walk_positions(mem: Map<u64, Seq<u64>>, pos: Map<u64, (int, int)>, root: u64, virt: u64)
    requires
        shaped(mem, pos, root),
        virt < VIRTUAL_LIMIT,
    ensures
        ({
            let e4 = read_entry(mem, root, l4_of(virt));
            let e3 = read_entry(mem, target(e4), l3_of(virt));
            let e2 = read_entry(mem, target(e3), l2_of(virt));
            &&& descends(e4) ==> mem.contains_key(target(e4)) && pos[target(e4)] == (3int, (virt
                >> 39u64) as int)
            &&& descends(e4) && descends(e3) ==> mem.contains_key(target(e3)) && pos[target(e3)]
                == (2int, (virt >> 30u64) as int)
            &&& descends(e4) && descends(e3) && descends(e2) ==> mem.contains_key(target(e2))
                && pos[target(e2)] == (1int, (virt >> 21u64) as int)
        }),
{
    lemma_index_bits(virt);
    let e4 = read_entry(mem, root, l4_of(virt));
    let e3 = read_entry(mem, target(e4), l3_of(virt));
    let e2 = read_entry(mem, target(e3), l2_of(virt));
    if descends(e4) {
        assert(e4 == mem[root][l4_of(virt) as int]);
        if descends(e3) {
            assert(e3 == mem[target(e4)][l3_of(virt) as int]);
            if descends(e2) {
                assert(e2 == mem[target(e3)][l2_of(virt) as int]);
            }
        }
    }
}

/// A four-level page table tree, named by the physical address of its root.
///
/// The frames it is made of are held here: table `k` is `frames[k]`, and its
/// 512 entries are `entries[512 * k ..]`.
pub struct AddressSpace {
    root: u64,
    frames: Vec<u64>,
    entries: Vec<u64>,
    memory: Ghost<Map<u64, Seq<u64>>>,
    position: Ghost<Map<u64, (int, int)>>,
}

impl AddressSpace {
    /// The tables of this tree, by frame, as memory holds them.
    pub closed spec fn mem(&self) -> Map<u64, Seq<u64>> {
        self.memory@
    }

    /// The frame of the root table.
    pub closed spec fn root_table(&self) -> u64 {
        self.root
    }

    /// Every frame this tree is made of.
    pub open spec fn tables(&self) -> Set<u64> {
        self.mem().dom()
    }

    /// The 4 KiB leaf the walk finds for `virt`.
    pub open spec fn leaf(&self, virt: u64) -> Option<u64> {
        leaf_entry(self.mem(), self.root_table(), virt)
    }

    /// The 2 MiB leaf the walk finds for `virt`.
    pub open spec fn large(&self, virt: u64) -> Option<u64> {
        large_leaf(self.mem(), self.root_table(), virt)
    }

    spec fn stored(&self) -> bool {
        &&& self.entries.len() == 512 * self.frames.len()
        &&& self.frames.len() >= 1
        &&& self.frames@[0] == self.root
        &&& self.frames@.no_duplicates()
        &&& forall|k: int|
            0 <= k < self.frames.len() ==> #[trigger] self.memory@.contains_key(self.frames@[k])
        &&& forall|t: u64| #[trigger] self.memory@.contains_key(t) ==> self.frames@.contains(t)
        &&& forall|k: int|
            0 <= k < self.frames.len() ==> (#[trigger] self.memory@[self.frames@[k]]).len() == 512
        &&& forall|k: int, i: int|
            0 <= k < self.frames.len() && 0 <= i < 512 ==> #[trigger] self.memory@[self.frames@[k]][i]
                == self.entries@[512 * k + i]
    }

    /// The tree is stored faithfully and has the shape a walk relies on.
    pub closed spec fn wf(&self) -> bool {
        &&& self.stored()
        &&& shaped(self.memory@, self.position@, self.root)
        &&& unshared(self.memory@, self.position@)
        &&& !self.memory@.contains_key(0)
    }

    /// Where a table of this tree is stored.
    fn slot(&self, table: u64) -> (k: usize)
        requires
            self.stored(),
            self.memory@.contains_key(table),
        ensures
            k < self.frames.len(),
            self.frames@[k as int] == table,
    {
        let mut k: usize = 0;
        while k < self.frames.len()
            invariant
                k <= self.frames.len(),
                forall|j: int| 0 <= j < k ==> self.frames@[j] != table,
            decreases self.frames.len() - k,
        {
            if self.frames[k] == table {
                return k;
            }
            k = k + 1;
        }
        proof {
            assert(self.frames@.contains(table));
        }
        0
    }

    /// Reads one entry of a table.
    fn entry(&self, table: u64, index: u64) -> (e: u64)
        requires
            self.stored(),
            self.memory@.contains_key(table),
            index < 512,
        ensures
            e == read_entry(self.memory@, table, index),
    {
        let k = self.slot(table);
        self.entries[512 * k + index as usize]
    }

    /// Writes one entry of a table.
    fn write(&mut self, table: u64, index: u64, value: u64)
        requires
            old(self).stored(),
            old(self).memory@.contains_key(table),
            index < 512,
        ensures
            final(self).stored(),
            final(self).root == old(self).root,
            final(self).position == old(self).position,
            final(self).memory@ == old(self).memory@.insert(
                table,
                old(self).memory@[table].update(index as int, value),
            ),
    {
        let k = self.slot(table);
        self.entries.set(512 * k + index as usize, value);
        let ghost old_mem = self.memory@;
        self.memory = Ghost(old_mem.insert(table, old_mem[table].update(index as int, value)));
        proof {
            assert forall|t: u64| #[trigger] self.memory@.contains_key(t) implies self.frames@.contains(t) by {
                assert(old_mem.contains_key(t));
            }
            assert forall|j: int, i: int|
                0 <= j < self.frames.len() && 0 <= i < 512 implies #[trigger] self.memory@[self.frames@[j]][i]
                    == self.entries@[512 * j + i] by {
                if j != k {
                    assert(self.frames@[j] != table);
                    assert(old_mem[self.frames@[j]][i] == old(self).entries@[512 * j + i]);
                } else {
                    if i != index {
                        assert(old_mem[table][i] == old(self).entries@[512 * j + i]);
                    }
                }
            }
            assert forall|j: int| 0 <= j < self.frames.len() implies (#[trigger] self.memory@[self.frames@[j]]).len() == 512 by {
                assert(old_mem[self.frames@[j]].len() == 512);
            }
        }
    }

    /// Adds a cleared table at `frame`, placed at `place` in the tree.
    fn add_table(&mut self, frame: u64, Ghost(place): Ghost<(int, int)>)
        requires
            old(self).stored(),
            !old(self).memory@.contains_key(frame),
        ensures
            final(self).stored(),
            final(self).root == old(self).root,
            final(self).position@ == old(self).position@.insert(frame, place),
            final(self).memory@ == old(self).memory@.insert(frame, empty_table()),
    {
        let ghost old_len = self.entries@.len();
        let ghost old_entries = self.entries@;
        let ghost old_frames = self.frames@;
        let mut i: usize = 0;
        while i < 512
            invariant
                self.entries@.len() == old_len + i,
                i <= 512,
                self.frames@ == old_frames,
                self.memory == old(self).memory,
                self.position == old(self).position,
                self.root == old(self).root,
                forall|j: int| 0 <= j < old_len ==> self.entries@[j] == old_entries[j],
                forall|j: int| old_len <= j < old_len + i ==> self.entries@[j] == 0,
            decreases 512 - i,
        {
            self.entries.push(0);
            i = i + 1;
        }
        self.frames.push(frame);
        self.memory = Ghost(self.memory@.insert(frame, empty_table()));
        self.position = Ghost(self.position@.insert(frame, place));
        proof {
            let n = old_frames.len();
            assert(self.frames@ == old_frames.push(frame));
            assert(!old_frames.contains(frame));
            assert forall|a: int, b: int|
                0 <= a < self.frames.len() && 0 <= b < self.frames.len() && a != b implies self.frames@[a]
                != self.frames@[b] by {
                if a == n {
                    assert(old_frames.contains(old_frames[b]));
                } else if b == n {
                    assert(old_frames.contains(old_frames[a]));
                }
            }
            assert forall|k: int| 0 <= k < self.frames.len() implies #[trigger] self.memory@.contains_key(self.frames@[k]) by {
                if k < n {
                    assert(old(self).memory@.contains_key(old_frames[k]));
                }
            }
            assert forall|t: u64| #[trigger] self.memory@.contains_key(t) implies self.frames@.contains(t) by {
                if t == frame {
                    assert(self.frames@[n as int] == t);
                } else {
                    assert(old_frames.contains(t));
                    let k = choose|k: int| 0 <= k < n && old_frames[k] == t;
                    assert(self.frames@[k] == t);
                }
            }
            assert forall|k: int| 0 <= k < self.frames.len() implies (#[trigger] self.memory@[self.frames@[k]]).len() == 512 by {
                if k < n {
                    assert(old(self).memory@[old_frames[k]].len() == 512);
                }
            }
            assert forall|k: int, j: int|
                0 <= k < self.frames.len() && 0 <= j < 512 implies #[trigger] self.memory@[self.frames@[k]][j]
                    == self.entries@[512 * k + j] by {
                if k < n {
                    assert(old(self).memory@[old_frames[k]][j] == old_entries[512 * k + j]);
                }
            }
        }
    }
}


/// The four table indices of a virtual address, or the refusal for one
/// above what four-level paging can address.
fn indices(virt: u64) -> (r: Result<(u64, u64, u64, u64), PagingRefused>)
    ensures
        virt < VIRTUAL_LIMIT ==> r == Ok::<(u64, u64, u64, u64), PagingRefused>(
            (l4_of(virt), l3_of(virt), l2_of(virt), l1_of(virt)),
        ),
        virt >= VIRTUAL_LIMIT ==> r == Err::<(u64, u64, u64, u64), PagingRefused>(
            PagingRefused::AddressTooHigh(virt),
        ),
{
    if virt >= VIRTUAL_LIMIT {
        return Err(PagingRefused::AddressTooHigh(virt));
    }
    Ok(((virt >> 39) & (ENTRIES - 1), (virt >> 30) & (ENTRIES - 1), (virt >> 21) & (ENTRIES - 1), (virt >> 12) & (ENTRIES - 1)))
}

impl AddressSpace {
    /// The physical address of this tree's root — what `CR3` holds while this
    /// space is the live one.
    pub fn root(&self) -> (r: u64)
        ensures
            r == self.root_table(),
    {
        self.root
    }

    /// An empty space: a cleared root table and nothing mapped.
    pub fn new<S: TableSource>(tables: &mut S) -> (r: Result<AddressSpace, PagingRefused>)
        requires
            old(tables).valid(),
        ensures
            final(tables).valid(),
            match r {
                Ok(space) => {
                    &&& space.wf()
                    &&& old(tables).pool().contains(space.root_table())
                    &&& final(tables).pool() == old(tables).pool().remove(space.root_table())
                    &&& space.tables() == set![space.root_table()]
                    &&& forall|v: u64| space.leaf(v) is None && space.large(v) is None
                },
                Err(e) => {
                    &&& e == PagingRefused::NoFrame
                    &&& old(tables).pool().is_empty()
                    &&& final(tables).pool() == old(tables).pool()
                },
            },
    {
        proof {
            old(tables).lemma_valid();
        }
        let root = match tables.take() {
            Some(f) => f,
            None => return Err(PagingRefused::NoFrame),
        };
        let mut entries: Vec<u64> = Vec::new();
        let mut i: usize = 0;
        while i < 512
            invariant
                entries@.len() == i,
                i <= 512,
                forall|j: int| 0 <= j < i ==> entries@[j] == 0,
            decreases 512 - i,
        {
            entries.push(0);
            i = i + 1;
        }
        let mut frames: Vec<u64> = Vec::new();
        frames.push(root);
        let ghost memory = map![root => empty_table()];
        let ghost position = map![root => (4int, 0int)];
        let space = AddressSpace {
            root,
            frames,
            entries,
            memory: Ghost(memory),
            position: Ghost(position),
        };
        proof {
            assert(space.mem().dom() =~= set![root]);
            assert(space.frames@ =~= seq![root]);
            assert forall|t: u64| #[trigger] space.memory@.contains_key(t) implies space.frames@.contains(t) by {
                assert(space.frames@[0] == t);
            }
            assert forall|t: u64, i: u64|
                space.memory@.contains_key(t) && i < 512 && space.position@[t].0 >= 2
                    && #[trigger] descends(space.memory@[t][i as int]) implies false by {
                lemma_entry_bits(0, 0, 0, 0, 0);
            }
            assert forall|v: u64| space.leaf(v) is None && space.large(v) is None by {
                lemma_index_bits(v);
                lemma_entry_bits(0, 0, 0, 0, 0);
            }
        }
        Ok(space)
    }

    /// The page table on `virt`'s path, when the three levels above it lead
    /// there.
    fn leaf_table_of(&self, virt: u64) -> (t: Option<u64>)
        requires
            self.wf(),
            virt < VIRTUAL_LIMIT,
        ensures
            t == leaf_table(self.mem(), self.root_table(), virt),
            t matches Some(pt) ==> self.mem().contains_key(pt),
    {
        proof {
            lemma_index_bits(virt);
            lemma_walk_positions(self.memory@, self.position@, self.root, virt);
        }
        let e4 = self.entry(self.root, (virt >> 39) & (ENTRIES - 1));
        if e4 & PRESENT == 0 || e4 & HUGE != 0 {
            return None;
        }
        let e3 = self.entry(e4 & ADDRESS, (virt >> 30) & (ENTRIES - 1));
        if e3 & PRESENT == 0 || e3 & HUGE != 0 {
            return None;
        }
        let e2 = self.entry(e3 & ADDRESS, (virt >> 21) & (ENTRIES - 1));
        if e2 & PRESENT == 0 || e2 & HUGE != 0 {
            return None;
        }
        Some(e2 & ADDRESS)
    }

    /// The frame a 4 KiB page maps to, when it maps to one.
    pub fn translate(&self, virt: u64) -> (r: Option<u64>)
        requires
            self.wf(),
        ensures
            r == translation(self.mem(), self.root_table(), virt),
    {
        let (_, _, _, l1) = match indices(virt) {
            Ok(ix) => ix,
            Err(_) => return None,
        };
        match self.leaf_table_of(virt) {
            Some(pt) => {
                proof {
                    lemma_index_bits(virt);
                }
                let leaf = self.entry(pt, l1);
                if leaf & PRESENT != 0 {
                    Some(leaf & ADDRESS)
                } else {
                    None
                }
            },
            None => None,
        }
    }

    /// Whether one mapped page may be written, by its leaf's own bit, if it
    /// is mapped at all.
    pub fn writable(&self, virt: u64) -> (r: Option<bool>)
        requires
            self.wf(),
        ensures
            r == writability(self.mem(), self.root_table(), virt),
    {
        let (_, _, _, l1) = match indices(virt) {
            Ok(ix) => ix,
            Err(_) => return None,
        };
        match self.leaf_table_of(virt) {
            Some(pt) => {
                proof {
                    lemma_index_bits(virt);
                }
                let leaf = self.entry(pt, l1);
                if leaf & PRESENT != 0 {
                    Some(leaf & WRITABLE != 0)
                } else {
                    None
                }
            },
            None => None,
        }
    }
}


/// Two memories that read alike everywhere but one entry.
pub open spec fn agree_except(m1: Map<u64, Seq<u64>>, m2: Map<u64, Seq<u64>>, t0: u64, i0: u64) -> bool {
    forall|t: u64, i: u64|
        !(t == t0 && i == i0) ==> #[trigger] read_entry(m2, t, i) == read_entry(m1, t, i)
}

/// Rewriting an interior entry so that it still leads to the same table, or
/// linking a fresh cleared table where nothing was, changes no walk.
proof fn lemma_interior_step(
    m1: Map<u64, Seq<u64>>,
    m2: Map<u64, Seq<u64>>,
    pos: Map<u64, (int, int)>,
    root: u64,
    t0: u64,
    i0: u64,
    v: u64,
)
    requires
        shaped(m1, pos, root),
        m1.contains_key(t0),
        pos[t0].0 >= 2,
        agree_except(m1, m2, t0, i0),
        ({
            let a = read_entry(m1, t0, i0);
            let b = read_entry(m2, t0, i0);
            ||| descends(a) && descends(b) && target(a) == target(b)
            ||| !present(a) && descends(b) && forall|i: u64| #[trigger] read_entry(m2, target(b), i) == 0
        }),
    ensures
        leaf_entry(m2, root, v) == leaf_entry(m1, root, v),
        large_leaf(m2, root, v) == large_leaf(m1, root, v),
{
    if v < VIRTUAL_LIMIT {
        lemma_index_bits(v);
        lemma_walk_positions(m1, pos, root, v);
        lemma_entry_bits(0, 0, 0, 0, 0);
        let a4 = read_entry(m1, root, l4_of(v));
        let b4 = read_entry(m2, root, l4_of(v));
        if root == t0 && l4_of(v) == i0 {
            if !present(a4) {
                assert(read_entry(m2, target(b4), l3_of(v)) == 0);
            }
        } else {
            assert(b4 == a4);
            if descends(a4) {
                let p3 = target(a4);
                let a3 = read_entry(m1, p3, l3_of(v));
                let b3 = read_entry(m2, p3, l3_of(v));
                if p3 == t0 && l3_of(v) == i0 {
                    if !present(a3) {
                        assert(read_entry(m2, target(b3), l2_of(v)) == 0);
                    }
                } else {
                    assert(b3 == a3);
                    if descends(a3) {
                        let p2 = target(a3);
                        let a2 = read_entry(m1, p2, l2_of(v));
                        let b2 = read_entry(m2, p2, l2_of(v));
                        if p2 == t0 && l2_of(v) == i0 {
                            if !present(a2) {
                                assert(read_entry(m2, target(b2), l1_of(v)) == 0);
                            }
                        } else {
                            assert(b2 == a2);
                            if descends(a2) {
                                let p1 = target(a2);
                                assert(p1 != t0);
                                assert(read_entry(m2, p1, l1_of(v)) == read_entry(m1, p1, l1_of(v)));
                            }
                        }
                    }
                }
            }
        }
    }
}

/// A write that puts no large leaf above a page directory, or that is
/// below the levels such a leaf sits at, leaves every path that had none
/// without one.
proof fn lemma_no_new_large_above(
    m1: Map<u64, Seq<u64>>,
    m2: Map<u64, Seq<u64>>,
    pos: Map<u64, (int, int)>,
    root: u64,
    t0: u64,
    i0: u64,
    v: u64,
)
    requires
        shaped(m1, pos, root),
        m1.contains_key(t0),
        agree_except(m1, m2, t0, i0),
        ({
            let a = read_entry(m1, t0, i0);
            let b = read_entry(m2, t0, i0);
            ||| pos[t0].0 <= 2
            ||| !present(b)
            ||| descends(a) && descends(b) && target(a) == target(b)
            ||| !present(a) && descends(b) && forall|i: u64| #[trigger] read_entry(m2, target(b), i) == 0
        }),
        huge_path_blocked(m1, root, v) is None,
    ensures
        huge_path_blocked(m2, root, v) is None,
{
    lemma_index_bits(v);
    lemma_entry_bits(0, 0, 0, 0, 0);
    let a4 = read_entry(m1, root, l4_of(v));
    let b4 = read_entry(m2, root, l4_of(v));
    if !(root == t0 && l4_of(v) == i0) {
        assert(b4 == a4);
        if descends(a4) {
            assert(a4 == m1[root][l4_of(v) as int]);
            let p3 = target(a4);
            assert(m1.contains_key(p3) && pos[p3].0 == 3);
            let a3 = read_entry(m1, p3, l3_of(v));
            let b3 = read_entry(m2, p3, l3_of(v));
            if !(p3 == t0 && l3_of(v) == i0) {
                assert(b3 == a3);
            }
        }
    } else {
        assert(pos[root].0 == 4);
        if descends(a4) && descends(b4) && target(a4) == target(b4) {
            assert(a4 == m1[root][l4_of(v) as int]);
            let p3 = target(a4);
            assert(m1.contains_key(p3) && pos[p3].0 == 3);
            assert(read_entry(m2, p3, l3_of(v)) == read_entry(m1, p3, l3_of(v)));
        } else if !present(a4) && descends(b4) {
            assert(read_entry(m2, target(b4), l3_of(v)) == 0);
        }
    }
}

/// A write to one entry of a page table changes the walk of that entry's
/// page and of no other.
proof fn lemma_leaf_step(
    m1: Map<u64, Seq<u64>>,
    m2: Map<u64, Seq<u64>>,
    pos: Map<u64, (int, int)>,
    root: u64,
    pt: u64,
    virt: u64,
    w: u64,
)
    requires
        shaped(m1, pos, root),
        m1.contains_key(pt),
        virt < VIRTUAL_LIMIT,
        pos[pt] == (1int, (virt >> 21u64) as int),
        agree_except(m1, m2, pt, l1_of(virt)),
    ensures
        w >> 12u64 != virt >> 12u64 ==> leaf_entry(m2, root, w) == leaf_entry(m1, root, w),
        large_leaf(m2, root, w) == large_leaf(m1, root, w),
{
    if w < VIRTUAL_LIMIT {
        lemma_index_bits(w);
        lemma_index_bits(virt);
        lemma_walk_positions(m1, pos, root, w);
        let a4 = read_entry(m1, root, l4_of(w));
        assert(read_entry(m2, root, l4_of(w)) == a4);
        if descends(a4) {
            let a3 = read_entry(m1, target(a4), l3_of(w));
            assert(read_entry(m2, target(a4), l3_of(w)) == a3);
            if descends(a3) {
                let a2 = read_entry(m1, target(a3), l2_of(w));
                assert(read_entry(m2, target(a3), l2_of(w)) == a2);
                if descends(a2) && w >> 12u64 != virt >> 12u64 {
                    let p1 = target(a2);
                    if p1 == pt {
                        assert(l1_of(w) != l1_of(virt));
                    }
                    assert(read_entry(m2, p1, l1_of(w)) == read_entry(m1, p1, l1_of(w)));
                }
            }
        }
    }
}

/// A write to one entry of a page directory changes the walks of that
/// entry's 2 MiB chunk and of no other.
proof fn lemma_directory_step(
    m1: Map<u64, Seq<u64>>,
    m2: Map<u64, Seq<u64>>,
    pos: Map<u64, (int, int)>,
    root: u64,
    pd: u64,
    virt: u64,
    w: u64,
)
    requires
        shaped(m1, pos, root),
        m1.contains_key(pd),
        virt < VIRTUAL_LIMIT,
        pos[pd] == (2int, (virt >> 30u64) as int),
        agree_except(m1, m2, pd, l2_of(virt)),
        w >> 21u64 != virt >> 21u64,
    ensures
        leaf_entry(m2, root, w) == leaf_entry(m1, root, w),
        large_leaf(m2, root, w) == large_leaf(m1, root, w),
{
    if w < VIRTUAL_LIMIT {
        lemma_index_bits(w);
        lemma_index_bits(virt);
        lemma_walk_positions(m1, pos, root, w);
        let a4 = read_entry(m1, root, l4_of(w));
        assert(read_entry(m2, root, l4_of(w)) == a4);
        if descends(a4) {
            let a3 = read_entry(m1, target(a4), l3_of(w));
            assert(read_entry(m2, target(a4), l3_of(w)) == a3);
            if descends(a3) {
                let p2 = target(a3);
                if p2 == pd {
                    assert(l2_of(w) != l2_of(virt));
                }
                let a2 = read_entry(m1, p2, l2_of(w));
                assert(read_entry(m2, p2, l2_of(w)) == a2);
                if descends(a2) {
                    let p1 = target(a2);
                    assert(read_entry(m2, p1, l1_of(w)) == read_entry(m1, p1, l1_of(w)));
                }
            }
        }
    }
}

impl AddressSpace {
    /// The next table down, allocating it when it is absent and widening the
    /// entry when the leaf below needs more than the path currently allows.
    fn descend<S: TableSource>(&mut self, tables: &mut S, table: u64, index: u64, interior: u64) -> (r: Result<u64, PagingRefused>)
        requires
            old(self).wf(),
            old(self).memory@.contains_key(table),
            index < 512,
            old(self).position@[table].0 >= 2,
            interior < 128,
            interior & 1 != 0,
            old(tables).valid(),
            old(tables).pool().disjoint(old(self).memory@.dom()),
        ensures
            final(self).wf(),
            final(tables).valid(),
            final(self).root == old(self).root,
            forall|v: u64| #[trigger] final(self).leaf(v) == old(self).leaf(v),
            forall|v: u64| #[trigger] final(self).large(v) == old(self).large(v),
            final(tables).pool().subset_of(old(tables).pool()),
            final(self).memory@.dom() == old(self).memory@.dom() + (old(tables).pool() - final(tables).pool()),
            forall|t: u64| #[trigger] old(self).memory@.contains_key(t) ==> final(self).position@[t] == old(self).position@[t],
            forall|t: u64, i: u64|
                old(self).memory@.contains_key(t) && !(t == table && i == index) ==> #[trigger] read_entry(final(self).memory@, t, i)
                    == read_entry(old(self).memory@, t, i),
            forall|w: u64| huge_path_blocked(old(self).memory@, old(self).root, w) is None ==> #[trigger] huge_path_blocked(
                final(self).memory@,
                final(self).root,
                w,
            ) is None,
            ({
                let e = read_entry(old(self).memory@, table, index);
                match r {
                    Ok(next) => {
                        let n = read_entry(final(self).memory@, table, index);
                        &&& descends(n)
                        &&& target(n) == next
                        &&& n & interior == interior
                        &&& final(self).memory@.contains_key(next)
                        &&& final(self).position@[next] == (old(self).position@[table].0 - 1, old(self).position@[table].1 * 512 + index)
                        &&& final(tables).pool().len() + (if present(e) { 0int } else { 1int }) == old(tables).pool().len()
                        &&& present(e) ==> !huge(e) && target(e) == next && final(tables).pool() == old(tables).pool()
                        &&& !present(e) ==> old(tables).pool().contains(next) && final(tables).pool() == old(tables).pool().remove(next)
                            && final(self).memory@[next] == empty_table()
                    },
                    Err(err) => {
                        &&& final(self).memory@ == old(self).memory@
                        &&& final(tables).pool() == old(tables).pool()
                        &&& ((present(e) && huge(e) && err == PagingRefused::Granularity(table))
                            || (!present(e) && old(tables).pool().len() == 0 && err == PagingRefused::NoFrame))
                    },
                }
            }),
    {
        proof {
            old(tables).lemma_valid();
            lemma_entry_bits(0, 0, interior, 0, 0);
        }
        let ghost m1 = self.memory@;
        let ghost pos = self.position@;
        let existing = self.entry(table, index);
        proof {
            lemma_entry_bits(existing, 0, interior, 0, 0);
        }
        if existing & PRESENT != 0 {
            if existing & HUGE != 0 {
                return Err(PagingRefused::Granularity(table));
            }
            proof {
                assert(existing == m1[table][index as int]);
                assert(descends(m1[table][index as int]));
                assert(m1.contains_key(target(existing)));
            }
            if existing & interior != interior {
                self.write(table, index, existing | interior);
                proof {
                    let m2 = self.memory@;
                    lemma_unshared_write(m1, m2, pos, table, index, existing | interior);
                    assert(read_entry(m2, table, index) == existing | interior);
                    assert(agree_except(m1, m2, table, index));
                    assert forall|t: u64, i: u64|
                        m2.contains_key(t) && i < 512 && pos[t].0 >= 2 && #[trigger] descends(m2[t][i as int]) implies
                        m2.contains_key(target(m2[t][i as int])) && pos[target(m2[t][i as int])] == (pos[t].0 - 1, pos[t].1 * 512 + i) by {
                        assert(read_entry(m2, t, i) == m2[t][i as int]);
                        assert(read_entry(m1, t, i) == m1[t][i as int]);
                        if t == table && i == index {
                            assert(target(m2[t][i as int]) == target(existing));
                        } else {
                            assert(m1[t][i as int] == m2[t][i as int]);
                            assert(descends(m1[t][i as int]));
                        }
                    }
                    assert forall|t: u64| #[trigger] m2.contains_key(t) implies m2[t].len() == 512 && 1 <= pos[t].0 <= 4 && aligned_frame(t) by {
                        assert(m1.contains_key(t));
                    }
                    assert(m2.dom() =~= pos.dom());
                    assert forall|v: u64| #[trigger] self.leaf(v) == old(self).leaf(v) && self.large(v) == old(self).large(v) by {
                        lemma_interior_step(m1, m2, pos, self.root, table, index, v);
                    }
                    assert forall|w: u64| huge_path_blocked(m1, self.root, w) is None implies #[trigger] huge_path_blocked(
                        m2,
                        self.root,
                        w,
                    ) is None by {
                        lemma_no_new_large_above(m1, m2, pos, self.root, table, index, w);
                    }
                    assert(self.memory@.dom() =~= old(self).memory@.dom() + (old(tables).pool() - tables.pool()));
                }
            } else {
                proof {
                    assert(self.memory@.dom() =~= old(self).memory@.dom() + (old(tables).pool() - tables.pool()));
                }
            }
            return Ok(existing & ADDRESS);
        }
        let frame = match tables.take() {
            Some(f) => f,
            None => {
                proof {
                    broadcast use vstd::set::axiom_set_empty_len;
                    assert(old(tables).pool() =~= Set::<u64>::empty());
                }
                return Err(PagingRefused::NoFrame);
            },
        };
        proof {
            vstd::set::axiom_set_remove_len(old(tables).pool(), frame);
            lemma_entry_bits(0, frame, interior, 0, 0);
            lemma_entry_bits(frame | PRESENT | WRITABLE, frame, interior, 0, 0);
            assert(!m1.contains_key(frame));
            assert(table != frame);
        }
        self.add_table(frame, Ghost((pos[table].0 - 1, pos[table].1 * 512 + index)));
        let ghost m_mid = self.memory@;
        self.write(table, index, frame | PRESENT | WRITABLE | interior);
        proof {
            let m2 = self.memory@;
            let pos2 = self.position@;
            assert forall|t: u64, i: u64| #[trigger] linked(m1, pos, t, i) implies m1.contains_key(target(m1[t][i as int])) by {}
            assert(m2 == m1.insert(frame, empty_table()).insert(table, m1[table].update(index as int, frame | PRESENT | WRITABLE | interior)));
            lemma_unshared_fresh(m1, m2, pos, pos2, table, index, frame, frame | PRESENT | WRITABLE | interior);
            assert(read_entry(m2, table, index) == frame | PRESENT | WRITABLE | interior);
            assert forall|i: u64| #[trigger] read_entry(m2, frame, i) == 0 by {
                if i < 512 {
                    assert(m2[frame] == empty_table());
                }
            }
            assert forall|t: u64, i: u64| !(t == table && i == index) implies #[trigger] read_entry(m2, t, i) == read_entry(m1, t, i) by {
                if t != frame {
                    if m2.contains_key(t) {
                        assert(m1.contains_key(t));
                    }
                }
            }
            assert forall|t: u64, i: u64|
                m2.contains_key(t) && i < 512 && pos2[t].0 >= 2 && #[trigger] descends(m2[t][i as int]) implies
                m2.contains_key(target(m2[t][i as int])) && pos2[target(m2[t][i as int])] == (pos2[t].0 - 1, pos2[t].1 * 512 + i) by {
                assert(read_entry(m2, t, i) == m2[t][i as int]);
                if t == frame {
                    assert(m2[t][i as int] == 0);
                } else if t == table && i == index {
                } else {
                    assert(m1.contains_key(t));
                    assert(read_entry(m1, t, i) == m1[t][i as int]);
                    assert(m1.contains_key(target(m1[t][i as int])));
                }
            }
            assert forall|t: u64| #[trigger] m2.contains_key(t) implies m2[t].len() == 512 && 1 <= pos2[t].0 <= 4 && aligned_frame(t) by {
                if t != frame {
                    assert(m1.contains_key(t));
                }
            }
            assert(m2.dom() =~= pos2.dom());
            assert forall|v: u64| #[trigger] self.leaf(v) == old(self).leaf(v) && self.large(v) == old(self).large(v) by {
                lemma_interior_step(m1, m2, pos, self.root, table, index, v);
            }
            assert forall|w: u64| huge_path_blocked(m1, self.root, w) is None implies #[trigger] huge_path_blocked(
                m2,
                self.root,
                w,
            ) is None by {
                lemma_no_new_large_above(m1, m2, pos, self.root, table, index, w);
            }
            assert(self.memory@.dom() =~= old(self).memory@.dom() + (old(tables).pool() - tables.pool()));
            assert(m2[frame] == empty_table());
            assert(pos2[frame] == (pos[table].0 - 1, pos[table].1 * 512 + index));
            assert(read_entry(m2, table, index) & interior == interior);
        }
        Ok(frame)
    }
}


/// Why mapping one 4 KiB page at `virt` is refused, with `available` frames
/// for tables, if it is.
pub open spec fn page_refusal(mem: Map<u64, Seq<u64>>, root: u64, virt: u64, available: nat) -> Option<PagingRefused> {
    if virt >= VIRTUAL_LIMIT {
        Some(PagingRefused::AddressTooHigh(virt))
    } else {
        match path_blocked(mem, root, virt) {
            Some(t) => Some(PagingRefused::Granularity(t)),
            None => if available < path_needs(mem, root, virt) {
                Some(PagingRefused::NoFrame)
            } else {
                None
            },
        }
    }
}

/// Why mapping one 4 KiB page at `virt` where nothing is mapped is refused.
pub open spec fn empty_page_refusal(mem: Map<u64, Seq<u64>>, root: u64, virt: u64, available: nat) -> Option<PagingRefused> {
    match page_refusal(mem, root, virt, available) {
        Some(e) => Some(e),
        None => if leaf_entry(mem, root, virt) is Some {
            Some(PagingRefused::Granularity(virt))
        } else {
            None
        },
    }
}

/// Why mapping one 2 MiB page at `virt` is refused.
pub open spec fn huge_refusal(mem: Map<u64, Seq<u64>>, root: u64, virt: u64, available: nat) -> Option<PagingRefused> {
    if virt >= VIRTUAL_LIMIT {
        Some(PagingRefused::AddressTooHigh(virt))
    } else {
        match huge_path_blocked(mem, root, virt) {
            Some(t) => Some(PagingRefused::Granularity(t)),
            None => if available < huge_path_needs(mem, root, virt) {
                Some(PagingRefused::NoFrame)
            } else {
                None
            },
        }
    }
}

/// Every interior entry on `virt`'s path down to its page directory allows
/// at least `bits`.
pub open spec fn directory_path_allows(mem: Map<u64, Seq<u64>>, root: u64, virt: u64, bits: u64) -> bool {
    let e4 = read_entry(mem, root, l4_of(virt));
    let e3 = read_entry(mem, target(e4), l3_of(virt));
    e4 & bits == bits && e3 & bits == bits
}

/// Every interior entry on `virt`'s path down to its page table allows at
/// least `bits`.
pub open spec fn path_allows(mem: Map<u64, Seq<u64>>, root: u64, virt: u64, bits: u64) -> bool {
    let e4 = read_entry(mem, root, l4_of(virt));
    let e3 = read_entry(mem, target(e4), l3_of(virt));
    let e2 = read_entry(mem, target(e3), l2_of(virt));
    directory_path_allows(mem, root, virt, bits) && e2 & bits == bits
}

impl AddressSpace {
    /// What the path to a leaf with these flags must itself allow.
    fn interior_for(flags: u64) -> (r: u64)
        ensures
            r == interior_spec(flags),
    {
        PRESENT | WRITABLE | (flags & USER)
    }

    /// Walks, and builds where absent, the path from the root to `virt`'s
    /// page directory.
    fn directory_for<S: TableSource>(&mut self, tables: &mut S, virt: u64, interior: u64) -> (r: Result<u64, PagingRefused>)
        requires
            old(self).wf(),
            virt < VIRTUAL_LIMIT,
            interior < 128,
            interior & 1 != 0,
            old(tables).valid(),
            old(tables).pool().disjoint(old(self).memory@.dom()),
        ensures
            final(self).wf(),
            final(tables).valid(),
            final(self).root == old(self).root,
            forall|v: u64| #[trigger] final(self).leaf(v) == old(self).leaf(v),
            forall|v: u64| #[trigger] final(self).large(v) == old(self).large(v),
            final(tables).pool().subset_of(old(tables).pool()),
            final(self).memory@.dom() == old(self).memory@.dom() + (old(tables).pool() - final(tables).pool()),
            final(tables).pool().disjoint(final(self).memory@.dom()),
            forall|w: u64| huge_path_blocked(old(self).memory@, old(self).root, w) is None ==> #[trigger] huge_path_blocked(
                final(self).memory@,
                final(self).root,
                w,
            ) is None,
            match r {
                Ok(pd) => {
                    &&& directory_of(final(self).memory@, final(self).root, virt) == Some(pd)
                    &&& final(self).memory@.contains_key(pd)
                    &&& final(self).position@[pd] == (2int, (virt >> 30u64) as int)
                    &&& directory_path_allows(final(self).memory@, final(self).root, virt, interior)
                    &&& huge_path_blocked(old(self).memory@, old(self).root, virt) is None
                    &&& old(tables).pool().len() == final(tables).pool().len() + huge_path_needs(old(self).memory@, old(self).root, virt)
                    &&& read_entry(final(self).memory@, pd, l2_of(virt)) == (if huge_path_needs(old(self).memory@, old(self).root, virt) == 0 {
                        read_entry(old(self).memory@, pd, l2_of(virt))
                    } else {
                        0
                    })
                    &&& huge_path_needs(old(self).memory@, old(self).root, virt) == 0 ==> directory_of(old(self).memory@, old(self).root, virt) == Some(pd)
                },
                Err(e) => {
                    &&& huge_path_blocked(old(self).memory@, old(self).root, virt) matches Some(t) ==> e == PagingRefused::Granularity(t)
                    &&& huge_path_blocked(old(self).memory@, old(self).root, virt) is None ==> e == PagingRefused::NoFrame
                        && old(tables).pool().len() < huge_path_needs(old(self).memory@, old(self).root, virt)
                },
            },
    {
        proof {
            lemma_index_bits(virt);
            lemma_walk_positions(self.memory@, self.position@, self.root, virt);
            lemma_entry_bits(0, 0, interior, 0, 0);
            old(tables).lemma_valid();
        }
        let ghost m0 = self.memory@;
        let ghost pos0 = self.position@;
        let ghost pool0 = tables.pool();
        let ghost e4 = read_entry(m0, self.root, l4_of(virt));
        let ghost e3 = read_entry(m0, target(e4), l3_of(virt));
        let root = self.root;
        let pdpt = match self.descend(tables, root, (virt >> 39) & (ENTRIES - 1), interior) {
            Ok(t) => t,
            Err(e) => return Err(e),
        };
        let ghost m1 = self.memory@;
        let ghost pos1 = self.position@;
        let ghost pool1 = tables.pool();
        proof {
            tables.lemma_valid();
            assert(pool1.disjoint(m1.dom()));
            assert(pos1[pdpt] == (3int, (virt >> 39u64) as int));
            assert(pdpt != root);
            if present(e4) {
                assert(read_entry(m1, pdpt, l3_of(virt)) == e3);
            } else {
                assert(read_entry(m1, pdpt, l3_of(virt)) == 0);
            }
        }
        let pd = match self.descend(tables, pdpt, (virt >> 30) & (ENTRIES - 1), interior) {
            Ok(t) => t,
            Err(e) => return Err(e),
        };
        proof {
            let m2 = self.memory@;
            let pos2 = self.position@;
            tables.lemma_valid();
            assert(pos2[pdpt] == pos1[pdpt]);
            assert(pos2[root] == pos1[root]);
            assert(read_entry(m2, root, l4_of(virt)) == read_entry(m1, root, l4_of(virt)));
            assert(pos2[pd] == (2int, (virt >> 30u64) as int));
            assert(pd != root && pd != pdpt);
            if present(e4) && present(e3) {
                assert(read_entry(m2, pd, l2_of(virt)) == read_entry(m0, pd, l2_of(virt))) by {
                    assert(m0.contains_key(pd));
                }
            } else {
                assert(read_entry(m2, pd, l2_of(virt)) == 0);
            }
            assert(tables.pool().disjoint(m2.dom()));
        }
        Ok(pd)
    }
}


impl AddressSpace {
    /// Writes one entry of a page table, which moves only that entry's page.
    fn write_leaf(&mut self, pt: u64, value: u64, virt: u64)
        requires
            old(self).wf(),
            old(self).memory@.contains_key(pt),
            virt < VIRTUAL_LIMIT,
            old(self).position@[pt] == (1int, (virt >> 21u64) as int),
        ensures
            final(self).wf(),
            final(self).root == old(self).root,
            final(self).position == old(self).position,
            final(self).memory@ == old(self).memory@.insert(pt, old(self).memory@[pt].update(l1_of(virt) as int, value)),
            forall|w: u64| #[trigger] final(self).large(w) == old(self).large(w),
            forall|w: u64| w >> 12u64 != virt >> 12u64 ==> #[trigger] final(self).leaf(w) == old(self).leaf(w),
    {
        proof {
            lemma_index_bits(virt);
        }
        let ghost m1 = self.memory@;
        let ghost pos = self.position@;
        let index = (virt >> 12) & (ENTRIES - 1);
        self.write(pt, index, value);
        proof {
            let m2 = self.memory@;
            lemma_unshared_write(m1, m2, pos, pt, index, value);
            assert forall|t: u64, i: u64| !(t == pt && i == index) implies #[trigger] read_entry(m2, t, i) == read_entry(m1, t, i) by {}
            assert forall|t: u64, i: u64|
                m2.contains_key(t) && i < 512 && pos[t].0 >= 2 && #[trigger] descends(m2[t][i as int]) implies
                m2.contains_key(target(m2[t][i as int])) && pos[target(m2[t][i as int])] == (pos[t].0 - 1, pos[t].1 * 512 + i) by {
                assert(t != pt);
                assert(m2[t] == m1[t]);
                assert(descends(m1[t][i as int]));
            }
            assert forall|t: u64| #[trigger] m2.contains_key(t) implies m2[t].len() == 512 && 1 <= pos[t].0 <= 4 && aligned_frame(t) by {
                assert(m1.contains_key(t));
            }
            assert(m2.dom() =~= pos.dom());
            assert forall|w: u64| #[trigger] self.large(w) == old(self).large(w) by {
                lemma_leaf_step(m1, m2, pos, self.root, pt, virt, w);
            }
            assert forall|w: u64| w >> 12u64 != virt >> 12u64 implies #[trigger] self.leaf(w) == old(self).leaf(w) by {
                lemma_leaf_step(m1, m2, pos, self.root, pt, virt, w);
            }
        }
    }

    /// Writes one entry of a page directory with something that is not a
    /// table, which moves only that entry's 2 MiB chunk.
    fn write_directory(&mut self, pd: u64, value: u64, virt: u64)
        requires
            old(self).wf(),
            old(self).memory@.contains_key(pd),
            virt < VIRTUAL_LIMIT,
            old(self).position@[pd] == (2int, (virt >> 30u64) as int),
            !descends(value),
        ensures
            final(self).wf(),
            final(self).root == old(self).root,
            final(self).position == old(self).position,
            final(self).memory@ == old(self).memory@.insert(pd, old(self).memory@[pd].update(l2_of(virt) as int, value)),
            forall|w: u64| w >> 21u64 != virt >> 21u64 ==> #[trigger] final(self).leaf(w) == old(self).leaf(w),
            forall|w: u64| w >> 21u64 != virt >> 21u64 ==> #[trigger] final(self).large(w) == old(self).large(w),
    {
        proof {
            lemma_index_bits(virt);
        }
        let ghost m1 = self.memory@;
        let ghost pos = self.position@;
        let index = (virt >> 21) & (ENTRIES - 1);
        self.write(pd, index, value);
        proof {
            let m2 = self.memory@;
            lemma_unshared_write(m1, m2, pos, pd, index, value);
            assert forall|t: u64, i: u64| !(t == pd && i == index) implies #[trigger] read_entry(m2, t, i) == read_entry(m1, t, i) by {}
            assert forall|t: u64, i: u64|
                m2.contains_key(t) && i < 512 && pos[t].0 >= 2 && #[trigger] descends(m2[t][i as int]) implies
                m2.contains_key(target(m2[t][i as int])) && pos[target(m2[t][i as int])] == (pos[t].0 - 1, pos[t].1 * 512 + i) by {
                if t == pd && i == index {
                    assert(m2[t][i as int] == value);
                } else {
                    assert(m2[t][i as int] == m1[t][i as int]);
                    assert(descends(m1[t][i as int]));
                }
            }
            assert forall|t: u64| #[trigger] m2.contains_key(t) implies m2[t].len() == 512 && 1 <= pos[t].0 <= 4 && aligned_frame(t) by {
                assert(m1.contains_key(t));
            }
            assert(m2.dom() =~= pos.dom());
            assert forall|w: u64| w >> 21u64 != virt >> 21u64 implies #[trigger] self.leaf(w) == old(self).leaf(w) by {
                lemma_directory_step(m1, m2, pos, self.root, pd, virt, w);
            }
            assert forall|w: u64| w >> 21u64 != virt >> 21u64 implies #[trigger] self.large(w) == old(self).large(w) by {
                lemma_directory_step(m1, m2, pos, self.root, pd, virt, w);
            }
        }
    }

    /// Builds the path to `virt`'s page table, for the leaf `leaf_flags`
    /// will be written with.
    fn table_for<S: TableSource>(&mut self, tables: &mut S, virt: u64, flags: u64) -> (r: Result<u64, PagingRefused>)
        requires
            old(self).wf(),
            old(tables).valid(),
            old(tables).pool().disjoint(old(self).memory@.dom()),
        ensures
            final(self).wf(),
            final(tables).valid(),
            final(self).root == old(self).root,
            forall|v: u64| #[trigger] final(self).leaf(v) == old(self).leaf(v),
            forall|v: u64| #[trigger] final(self).large(v) == old(self).large(v),
            final(tables).pool().subset_of(old(tables).pool()),
            final(self).memory@.dom() == old(self).memory@.dom() + (old(tables).pool() - final(tables).pool()),
            final(tables).pool().disjoint(final(self).memory@.dom()),
            forall|w: u64| huge_path_blocked(old(self).memory@, old(self).root, w) is None ==> #[trigger] huge_path_blocked(
                final(self).memory@,
                final(self).root,
                w,
            ) is None,
            virt >= VIRTUAL_LIMIT ==> final(tables).pool() == old(tables).pool() && final(self).memory@ == old(self).memory@,
            match r {
                Ok(pt) => {
                    &&& page_refusal(old(self).memory@, old(self).root, virt, old(tables).pool().len()) is None
                    &&& old(tables).pool().len() == final(tables).pool().len() + path_needs(old(self).memory@, old(self).root, virt)
                    &&& virt < VIRTUAL_LIMIT
                    &&& leaf_table(final(self).memory@, final(self).root, virt) == Some(pt)
                    &&& final(self).memory@.contains_key(pt)
                    &&& final(self).position@[pt] == (1int, (virt >> 21u64) as int)
                    &&& path_allows(final(self).memory@, final(self).root, virt, interior_spec(flags))
                },
                Err(e) => page_refusal(old(self).memory@, old(self).root, virt, old(tables).pool().len()) == Some(e),
            },
    {
        if virt >= VIRTUAL_LIMIT {
            return Err(PagingRefused::AddressTooHigh(virt));
        }
        let interior = Self::interior_for(flags);
        proof {
            lemma_entry_bits(0, 0, 0, 0, flags);
            lemma_index_bits(virt);
            lemma_walk_positions(self.memory@, self.position@, self.root, virt);
            old(tables).lemma_valid();
        }
        let ghost m0 = self.memory@;
        let pd = match self.directory_for(tables, virt, interior) {
            Ok(t) => t,
            Err(e) => return Err(e),
        };
        let ghost m1 = self.memory@;
        let ghost pos1 = self.position@;
        proof {
            tables.lemma_valid();
            lemma_walk_positions(m1, pos1, self.root, virt);
        }
        let pt = match self.descend(tables, pd, (virt >> 21) & (ENTRIES - 1), interior) {
            Ok(t) => t,
            Err(e) => return Err(e),
        };
        proof {
            let m2 = self.memory@;
            let e4 = read_entry(m1, self.root, l4_of(virt));
            assert(pos1[self.root] == (4int, 0int));
            assert(pos1[target(e4)].0 == 3);
            assert(read_entry(m2, self.root, l4_of(virt)) == e4);
            assert(read_entry(m2, target(e4), l3_of(virt)) == read_entry(m1, target(e4), l3_of(virt)));
            assert(self.position@[pt] == (1int, (virt >> 21u64) as int));
        }
        Ok(pt)
    }

    /// Maps one 4 KiB page, identity or otherwise, over whatever leaf is
    /// there.
    pub fn map_page<S: TableSource>(&mut self, tables: &mut S, virt: u64, phys: u64, flags: u64) -> (r: Result<(), PagingRefused>)
        requires
            old(self).wf(),
            old(tables).valid(),
            old(tables).pool().disjoint(old(self).tables()),
        ensures
            final(self).wf(),
            final(tables).valid(),
            final(self).root_table() == old(self).root_table(),
            final(tables).pool().subset_of(old(tables).pool()),
            final(self).tables() == old(self).tables() + (old(tables).pool() - final(tables).pool()),
            final(tables).pool().disjoint(final(self).tables()),
            r == (match page_refusal(old(self).mem(), old(self).root_table(), virt, old(tables).pool().len()) {
                Some(e) => Err(e),
                None => Ok(()),
            }),
            r is Ok ==> final(self).leaf(virt) == Some(page_leaf(phys, flags))
                && path_allows(final(self).mem(), final(self).root_table(), virt, interior_spec(flags)),
            r is Ok ==> old(tables).pool().len() == final(tables).pool().len() + path_needs(old(self).mem(), old(self).root_table(), virt),
            virt >= VIRTUAL_LIMIT ==> final(tables).pool() == old(tables).pool() && final(self).mem() == old(self).mem(),
            r is Err ==> final(self).leaf(virt) == old(self).leaf(virt),
            forall|w: u64| w >> 12u64 != virt >> 12u64 ==> #[trigger] final(self).leaf(w) == old(self).leaf(w),
            forall|w: u64| #[trigger] final(self).large(w) == old(self).large(w),
            forall|w: u64| huge_path_blocked(old(self).mem(), old(self).root_table(), w) is None ==> #[trigger] huge_path_blocked(
                final(self).mem(),
                final(self).root_table(),
                w,
            ) is None,
    {
        let pt = match self.table_for(tables, virt, flags) {
            Ok(t) => t,
            Err(e) => return Err(e),
        };
        let ghost m1 = self.memory@;
        proof {
            lemma_entry_bits(0, 0, 0, phys, flags);
            lemma_index_bits(virt);
            lemma_walk_positions(m1, self.position@, self.root, virt);
        }
        let ghost pos1 = self.position@;
        self.write_leaf(pt, (phys & ADDRESS) | flags | PRESENT, virt);
        proof {
            let m2 = self.memory@;
            assert(agree_except(m1, m2, pt, l1_of(virt)));
            assert forall|w: u64| huge_path_blocked(m1, self.root, w) is None implies #[trigger] huge_path_blocked(
                m2,
                self.root,
                w,
            ) is None by {
                lemma_no_new_large_above(m1, m2, pos1, self.root, pt, l1_of(virt), w);
            }
            let e4 = read_entry(m1, self.root, l4_of(virt));
            let e3 = read_entry(m1, target(e4), l3_of(virt));
            assert(read_entry(m2, self.root, l4_of(virt)) == e4);
            assert(read_entry(m2, target(e4), l3_of(virt)) == e3);
            assert(read_entry(m2, target(e3), l2_of(virt)) == read_entry(m1, target(e3), l2_of(virt)));
            assert(read_entry(m2, pt, l1_of(virt)) == page_leaf(phys, flags));
        }
        Ok(())
    }
}


/// The page tables the first `n` entries of page directory `dir` lead to, in
/// entry order.
pub open spec fn pages_under(mem: Map<u64, Seq<u64>>, dir: u64, n: int) -> Seq<u64>
    decreases n,
{
    if n <= 0 {
        Seq::empty()
    } else {
        let rest = pages_under(mem, dir, n - 1);
        let e = read_entry(mem, dir, (n - 1) as u64);
        if descends(e) {
            rest.push(target(e))
        } else {
            rest
        }
    }
}

/// The page directories the first `n` entries of `pdpt` lead to, each
/// followed by the page tables under it.
pub open spec fn directories_under(mem: Map<u64, Seq<u64>>, pdpt: u64, n: int) -> Seq<u64>
    decreases n,
{
    if n <= 0 {
        Seq::empty()
    } else {
        let rest = directories_under(mem, pdpt, n - 1);
        let e = read_entry(mem, pdpt, (n - 1) as u64);
        if descends(e) {
            rest.push(target(e)) + pages_under(mem, target(e), 512)
        } else {
            rest
        }
    }
}

/// Every table under top-level entry `lane` of the root: the table that
/// entry leads to, then each directory below it followed by its page tables.
pub open spec fn branch_tables(mem: Map<u64, Seq<u64>>, root: u64, lane: u64) -> Seq<u64> {
    let e4 = read_entry(mem, root, lane);
    if descends(e4) {
        seq![target(e4)] + directories_under(mem, target(e4), 512)
    } else {
        Seq::empty()
    }
}

/// Each table of `s` is reached through an entry of table `up` or of a
/// table of `s`.
pub open spec fn reached_from(mem: Map<u64, Seq<u64>>, pos: Map<u64, (int, int)>, s: Seq<u64>, up: u64) -> bool {
    forall|k: int|
        #![trigger s[k]]
        0 <= k < s.len() ==> exists|t: u64, j: u64|
            #[trigger] linked(mem, pos, t, j) && target(mem[t][j as int]) == s[k] && (t == up || s.contains(t))
}

/// The page tables under one directory: tables of this tree, one level
/// down, in increasing position, each reached from the directory.
proof fn lemma_pages_under(mem: Map<u64, Seq<u64>>, pos: Map<u64, (int, int)>, root: u64, dir: u64, n: int)
    requires
        shaped(mem, pos, root),
        mem.contains_key(dir),
        pos[dir].0 == 2,
        0 <= n <= 512,
    ensures
        ({
            let s = pages_under(mem, dir, n);
            &&& forall|k: int| 0 <= k < s.len() ==> {
                &&& mem.contains_key(#[trigger] s[k])
                &&& pos[s[k]].0 == 1
                &&& pos[dir].1 * 512 <= pos[s[k]].1 < pos[dir].1 * 512 + n
                &&& exists|j: u64| #[trigger] linked(mem, pos, dir, j) && target(mem[dir][j as int]) == s[k]
            }
            &&& forall|k1: int, k2: int| 0 <= k1 < k2 < s.len() ==> pos[#[trigger] s[k1]].1 < pos[#[trigger] s[k2]].1
        }),
    decreases n,
{
    if n > 0 {
        lemma_pages_under(mem, pos, root, dir, n - 1);
        let rest = pages_under(mem, dir, n - 1);
        let e = read_entry(mem, dir, (n - 1) as u64);
        if descends(e) {
            assert(e == mem[dir][n - 1]);
            assert(linked(mem, pos, dir, (n - 1) as u64));
            let s = rest.push(target(e));
            assert forall|k: int| 0 <= k < s.len() implies {
                &&& mem.contains_key(#[trigger] s[k])
                &&& pos[s[k]].0 == 1
                &&& pos[dir].1 * 512 <= pos[s[k]].1 < pos[dir].1 * 512 + n
                &&& exists|j: u64| #[trigger] linked(mem, pos, dir, j) && target(mem[dir][j as int]) == s[k]
            } by {
                if k < rest.len() {
                    assert(s[k] == rest[k]);
                    let j = choose|j: u64| #[trigger] linked(mem, pos, dir, j) && target(mem[dir][j as int]) == rest[k];
                    assert(linked(mem, pos, dir, j) && target(mem[dir][j as int]) == s[k]);
                } else {
                    assert(s[k] == target(e));
                    assert(linked(mem, pos, dir, (n - 1) as u64) && target(mem[dir][n - 1]) == s[k]);
                }
            }
            assert forall|k1: int, k2: int| 0 <= k1 < k2 < s.len() implies pos[#[trigger] s[k1]].1 < pos[#[trigger] s[k2]].1 by {
                assert(s[k1] == rest[k1]);
                if k2 < rest.len() {
                    assert(s[k2] == rest[k2]);
                }
            }
        }
    }
}

/// The directories under one `pdpt`, each followed by its page tables:
/// tables of this tree, at increasing positions level by level, each
/// reached from `pdpt` or from a table of the sequence.
proof fn lemma_directories_under(mem: Map<u64, Seq<u64>>, pos: Map<u64, (int, int)>, root: u64, pdpt: u64, n: int)
    requires
        shaped(mem, pos, root),
        mem.contains_key(pdpt),
        pos[pdpt].0 == 3,
        0 <= n <= 512,
    ensures
        ({
            let s = directories_under(mem, pdpt, n);
            let p = pos[pdpt].1;
            &&& forall|k: int| 0 <= k < s.len() ==> {
                &&& mem.contains_key(#[trigger] s[k])
                &&& (pos[s[k]].0 == 2 && p * 512 <= pos[s[k]].1 < p * 512 + n) || (pos[s[k]].0 == 1 && p * 512 * 512
                    <= pos[s[k]].1 < (p * 512 + n) * 512)
            }
            &&& forall|k1: int, k2: int|
                0 <= k1 < k2 < s.len() && pos[#[trigger] s[k1]].0 == pos[#[trigger] s[k2]].0 ==> pos[s[k1]].1 < pos[s[k2]].1
            &&& reached_from(mem, pos, s, pdpt)
        }),
    decreases n,
{
    if n > 0 {
        lemma_directories_under(mem, pos, root, pdpt, n - 1);
        let rest = directories_under(mem, pdpt, n - 1);
        let e = read_entry(mem, pdpt, (n - 1) as u64);
        let p = pos[pdpt].1;
        if descends(e) {
            assert(e == mem[pdpt][n - 1]);
            assert(linked(mem, pos, pdpt, (n - 1) as u64));
            let d = target(e);
            assert(mem.contains_key(d) && pos[d] == (2int, p * 512 + n - 1));
            lemma_pages_under(mem, pos, root, d, 512);
            let pages = pages_under(mem, d, 512);
            let s = rest.push(d) + pages;
            assert forall|k: int| 0 <= k < s.len() implies {
                &&& mem.contains_key(#[trigger] s[k])
                &&& (pos[s[k]].0 == 2 && p * 512 <= pos[s[k]].1 < p * 512 + n) || (pos[s[k]].0 == 1 && p * 512 * 512
                    <= pos[s[k]].1 < (p * 512 + n) * 512)
            } by {
                if k >= rest.len() + 1 {
                    assert(s[k] == pages[k - rest.len() - 1]);
                } else if k < rest.len() {
                    assert(s[k] == rest[k]);
                }
            }
            assert forall|k1: int, k2: int|
                0 <= k1 < k2 < s.len() && pos[#[trigger] s[k1]].0 == pos[#[trigger] s[k2]].0 implies pos[s[k1]].1
                < pos[s[k2]].1 by {
                if k2 < rest.len() {
                    assert(s[k1] == rest[k1] && s[k2] == rest[k2]);
                } else if k2 == rest.len() {
                    assert(s[k1] == rest[k1]);
                } else if k1 > rest.len() {
                    assert(s[k1] == pages[k1 - rest.len() - 1] && s[k2] == pages[k2 - rest.len() - 1]);
                } else if k1 == rest.len() {
                    assert(s[k2] == pages[k2 - rest.len() - 1]);
                } else {
                    assert(s[k1] == rest[k1] && s[k2] == pages[k2 - rest.len() - 1]);
                }
            }
            assert forall|k: int| #![trigger s[k]] 0 <= k < s.len() implies exists|t: u64, j: u64|
                #[trigger] linked(mem, pos, t, j) && target(mem[t][j as int]) == s[k] && (t == pdpt || s.contains(t)) by {
                if k < rest.len() {
                    assert(s[k] == rest[k]);
                    let (t, j) = choose|t: u64, j: u64|
                        #[trigger] linked(mem, pos, t, j) && target(mem[t][j as int]) == rest[k] && (t == pdpt
                            || rest.contains(t));
                    if rest.contains(t) {
                        let i = choose|i: int| 0 <= i < rest.len() && rest[i] == t;
                        assert(s[i] == t);
                    }
                    assert(linked(mem, pos, t, j) && target(mem[t][j as int]) == s[k]);
                } else if k == rest.len() {
                    assert(s[k] == d);
                    assert(linked(mem, pos, pdpt, (n - 1) as u64) && target(mem[pdpt][n - 1]) == s[k]);
                } else {
                    let q = pages[k - rest.len() - 1];
                    assert(s[k] == q);
                    assert(s[rest.len() as int] == d);
                    assert(s.contains(d));
                    let j = choose|j: u64| #[trigger] linked(mem, pos, d, j) && target(mem[d][j as int]) == q;
                    assert(linked(mem, pos, d, j) && target(mem[d][j as int]) == s[k]);
                }
            }
        }
    }
}

/// The tables under one top-level entry are tables of this tree, none twice
/// and never the root, and nothing leads into them but that entry and
/// entries of the tables among them: taken away together, they leave
/// nothing behind that still leads to one of them.
proof fn lemma_branch(mem: Map<u64, Seq<u64>>, pos: Map<u64, (int, int)>, root: u64, lane: u64)
    requires
        shaped(mem, pos, root),
        unshared(mem, pos),
        lane < 512,
    ensures
        ({
            let s = branch_tables(mem, root, lane);
            &&& s.no_duplicates()
            &&& forall|k: int| 0 <= k < s.len() ==> mem.contains_key(#[trigger] s[k]) && s[k] != root
            &&& forall|t: u64, j: u64|
                #[trigger] linked(mem, pos, t, j) && s.contains(target(mem[t][j as int])) ==> s.contains(t) || (t
                    == root && j == lane)
        }),
{
    let e4 = read_entry(mem, root, lane);
    let s = branch_tables(mem, root, lane);
    if descends(e4) {
        assert(e4 == mem[root][lane as int]);
        assert(linked(mem, pos, root, lane));
        let pdpt = target(e4);
        assert(mem.contains_key(pdpt) && pos[pdpt] == (3int, lane as int));
        lemma_directories_under(mem, pos, root, pdpt, 512);
        let dirs = directories_under(mem, pdpt, 512);
        assert(s == seq![pdpt] + dirs);
        assert forall|k: int| 0 <= k < s.len() implies mem.contains_key(#[trigger] s[k]) && s[k] != root && 1 <= pos[s[k]].0 <= 3 by {
            if k > 0 {
                assert(s[k] == dirs[k - 1]);
            }
        }
        assert forall|k1: int, k2: int| 0 <= k1 < s.len() && 0 <= k2 < s.len() && k1 != k2 implies s[k1] != s[k2] by {
            if k1 == 0 {
                assert(s[k2] == dirs[k2 - 1]);
            } else if k2 == 0 {
                assert(s[k1] == dirs[k1 - 1]);
            } else {
                assert(s[k1] == dirs[k1 - 1] && s[k2] == dirs[k2 - 1]);
                if s[k1] == s[k2] {
                    if k1 < k2 {
                        assert(pos[dirs[k1 - 1]].1 < pos[dirs[k2 - 1]].1);
                    } else {
                        assert(pos[dirs[k2 - 1]].1 < pos[dirs[k1 - 1]].1);
                    }
                }
            }
        }
        assert forall|t: u64, j: u64|
            #[trigger] linked(mem, pos, t, j) && s.contains(target(mem[t][j as int])) implies s.contains(t) || (t == root
                && j == lane) by {
            let r = target(mem[t][j as int]);
            let k = choose|k: int| 0 <= k < s.len() && s[k] == r;
            if k == 0 {
                assert(target(mem[root][lane as int]) == r);
            } else {
                assert(dirs[k - 1] == r);
                let (t2, j2) = choose|t2: u64, j2: u64|
                    #[trigger] linked(mem, pos, t2, j2) && target(mem[t2][j2 as int]) == dirs[k - 1] && (t2 == pdpt
                        || dirs.contains(t2));
                assert(t == t2);
                if t2 == pdpt {
                    assert(s[0] == pdpt);
                } else {
                    let i = choose|i: int| 0 <= i < dirs.len() && dirs[i] == t2;
                    assert(s[i + 1] == t2);
                }
            }
        }
    } else {
        assert(s =~= Seq::<u64>::empty());
    }
}

/// Outside the lane that was taken away, every walk finds what it found
/// before: the tables it passes through are not among those removed, and
/// their entries are as they were.
proof fn lemma_walk_outside_branch(
    m0: Map<u64, Seq<u64>>,
    m2: Map<u64, Seq<u64>>,
    pos: Map<u64, (int, int)>,
    root: u64,
    lane: u64,
    w: u64,
)
    requires
        shaped(m0, pos, root),
        unshared(m0, pos),
        lane < 512,
        m2 == m0.insert(root, m0[root].update(lane as int, 0)).remove_keys(
            branch_tables(m0, root, lane).to_set(),
        ),
        w < VIRTUAL_LIMIT ==> l4_of(w) != lane,
    ensures
        leaf_entry(m2, root, w) == leaf_entry(m0, root, w),
        large_leaf(m2, root, w) == large_leaf(m0, root, w),
{
    if w < VIRTUAL_LIMIT {
        lemma_branch(m0, pos, root, lane);
        lemma_walk_positions(m0, pos, root, w);
        lemma_index_bits(w);
        let b = branch_tables(m0, root, lane);
        assert(!b.contains(root)) by {
            if b.contains(root) {
                let k = choose|k: int| 0 <= k < b.len() && b[k] == root;
            }
        }
        let e4 = read_entry(m0, root, l4_of(w));
        assert(read_entry(m2, root, l4_of(w)) == e4);
        if descends(e4) {
            assert(e4 == m0[root][l4_of(w) as int]);
            assert(linked(m0, pos, root, l4_of(w)));
            let t3 = target(e4);
            assert(!b.contains(t3));
            assert(!b.to_set().contains(t3));
            assert(t3 != root);
            assert(m2[t3] == m0[t3]);
            let e3 = read_entry(m0, t3, l3_of(w));
            assert(read_entry(m2, t3, l3_of(w)) == e3);
            if descends(e3) {
                assert(e3 == m0[t3][l3_of(w) as int]);
                assert(linked(m0, pos, t3, l3_of(w)));
                let t2 = target(e3);
                assert(!b.contains(t2));
                assert(!b.to_set().contains(t2));
                assert(t2 != root);
                assert(m2[t2] == m0[t2]);
                let e2 = read_entry(m0, t2, l2_of(w));
                assert(read_entry(m2, t2, l2_of(w)) == e2);
                if descends(e2) {
                    assert(e2 == m0[t2][l2_of(w) as int]);
                    assert(linked(m0, pos, t2, l2_of(w)));
                    let t1 = target(e2);
                    assert(!b.contains(t1));
                    assert(!b.to_set().contains(t1));
                    assert(t1 != root);
                    assert(m2[t1] == m0[t1]);
                    assert(read_entry(m2, t1, l1_of(w)) == read_entry(m0, t1, l1_of(w)));
                }
            }
        }
    }
}

impl AddressSpace {
    /// The table `pdpt`, then each directory under it followed by the page
    /// tables under that directory, in entry order.
    fn collect_branch(&self, pdpt: u64) -> (v: Vec<u64>)
        requires
            self.wf(),
            self.memory@.contains_key(pdpt),
            self.position@[pdpt].0 == 3,
        ensures
            v@ == seq![pdpt] + directories_under(self.memory@, pdpt, 512),
    {
        let ghost mem = self.memory@;
        let ghost pos = self.position@;
        let mut v: Vec<u64> = Vec::new();
        v.push(pdpt);
        let mut l3: u64 = 0;
        while l3 < 512
            invariant
                self.wf(),
                mem == self.memory@,
                pos == self.position@,
                mem.contains_key(pdpt),
                pos[pdpt].0 == 3,
                l3 <= 512,
                v@ == seq![pdpt] + directories_under(mem, pdpt, l3 as int),
            decreases 512 - l3,
        {
            let e3 = self.entry(pdpt, l3);
            if e3 & PRESENT != 0 && e3 & HUGE == 0 {
                let dir = e3 & ADDRESS;
                proof {
                    assert(e3 == mem[pdpt][l3 as int]);
                    assert(descends(mem[pdpt][l3 as int]));
                }
                v.push(dir);
                let ghost before = v@;
                let mut l2: u64 = 0;
                while l2 < 512
                    invariant
                        self.wf(),
                        mem == self.memory@,
                        mem.contains_key(dir),
                        pos == self.position@,
                        l2 <= 512,
                        v@ == before + pages_under(mem, dir, l2 as int),
                    decreases 512 - l2,
                {
                    let e2 = self.entry(dir, l2);
                    if e2 & PRESENT != 0 && e2 & HUGE == 0 {
                        v.push(e2 & ADDRESS);
                    }
                    proof {
                        assert(v@ =~= before + pages_under(mem, dir, l2 + 1));
                    }
                    l2 = l2 + 1;
                }
                proof {
                    assert(v@ =~= seq![pdpt] + directories_under(mem, pdpt, l3 + 1));
                }
            } else {
                proof {
                    assert(v@ =~= seq![pdpt] + directories_under(mem, pdpt, l3 + 1));
                }
            }
            l3 = l3 + 1;
        }
        v
    }
}

/// Whether a list of frames names `frame`.
fn names_frame(v: &Vec<u64>, frame: u64) -> (b: bool)
    ensures
        b == v@.contains(frame),
{
    let mut k: usize = 0;
    while k < v.len()
        invariant
            k <= v.len(),
            forall|j: int| 0 <= j < k ==> v@[j] != frame,
        decreases v.len() - k,
    {
        if v[k] == frame {
            assert(v@[k as int] == frame);
            return true;
        }
        k = k + 1;
    }
    false
}

impl AddressSpace {
    /// Forgets the tables in `gone`, entries and all.
    fn remove_tables(&mut self, gone: &Vec<u64>)
        requires
            old(self).stored(),
            !gone@.contains(old(self).root),
        ensures
            final(self).stored(),
            final(self).root == old(self).root,
            final(self).position == old(self).position,
            final(self).memory@ == old(self).memory@.remove_keys(gone@.to_set()),
    {
        let ghost mem = self.memory@;
        let ghost gone_set = gone@.to_set();
        let mut frames: Vec<u64> = Vec::new();
        let mut entries: Vec<u64> = Vec::new();
        let ghost mut idx: Seq<int> = Seq::empty();
        let mut k: usize = 0;
        while k < self.frames.len()
            invariant
                self.stored(),
                self.memory@ == mem,
                self.root == old(self).root,
                self.position == old(self).position,
                self.frames == old(self).frames,
                self.entries == old(self).entries,
                !gone@.contains(self.root),
                gone_set == gone@.to_set(),
                k <= self.frames.len(),
                entries.len() == 512 * frames.len(),
                idx.len() == frames.len(),
                frames.len() <= k,
                k > 0 ==> frames.len() >= 1 && frames@[0] == self.root,
                forall|j: int| 0 <= j < frames.len() ==> 0 <= #[trigger] idx[j] < k && frames@[j] == self.frames@[idx[j]],
                forall|a: int, b: int| 0 <= a < b < frames.len() ==> #[trigger] idx[a] < #[trigger] idx[b],
                forall|j: int| 0 <= j < frames.len() ==> !gone_set.contains(#[trigger] frames@[j]),
                forall|j: int| 0 <= j < k && !gone_set.contains(self.frames@[j]) ==> frames@.contains(#[trigger] self.frames@[j]),
                forall|j: int, i: int|
                    0 <= j < frames.len() && 0 <= i < 512 ==> #[trigger] mem[frames@[j]][i] == entries@[512 * j + i],
            decreases self.frames.len() - k,
        {
            let f = self.frames[k];
            let ghost frames_pre = frames@;
            let ghost idx_pre = idx;
            proof {
                assert(gone_set.contains(f) == gone@.contains(f));
            }
            if !names_frame(gone, f) {
                proof {
                    assert(mem.contains_key(f));
                }
                let ghost base = entries@;
                let ghost n = frames.len();
                let mut i: usize = 0;
                while i < 512
                    invariant
                        self.stored(),
                        self.memory@ == mem,
                        self.frames == old(self).frames,
                        self.entries == old(self).entries,
                        k < self.frames.len(),
                        f == self.frames@[k as int],
                        i <= 512,
                        entries@.len() == base.len() + i,
                        base.len() == 512 * n,
                        forall|j: int| 0 <= j < base.len() ==> entries@[j] == base[j],
                        forall|j: int| 0 <= j < i ==> entries@[base.len() + j] == mem[f][j],
                    decreases 512 - i,
                {
                    proof {
                        assert(self.memory@[self.frames@[k as int]][i as int] == self.entries@[512 * k + i]);
                    }
                    entries.push(self.entries[512 * k + i]);
                    i = i + 1;
                }
                frames.push(f);
                proof {
                    idx = idx.push(k as int);
                    assert forall|j: int, i2: int|
                        0 <= j < frames.len() && 0 <= i2 < 512 implies #[trigger] mem[frames@[j]][i2] == entries@[512 * j + i2] by {
                        if j < n {
                            assert(frames@[j] == frames_pre[j]);
                        }
                    }
                }
            }
            proof {
                if k == 0 {
                    assert(f == self.root);
                    assert(frames@[0] == f);
                } else {
                    assert(frames@[0] == frames_pre[0]);
                }
                assert forall|j: int| 0 <= j < frames.len() implies 0 <= #[trigger] idx[j] < k + 1 && frames@[j] == self.frames@[idx[j]] by {
                    if j < frames_pre.len() {
                        assert(idx[j] == idx_pre[j]);
                        assert(frames@[j] == frames_pre[j]);
                    }
                }
                assert forall|a: int, b: int| 0 <= a < b < frames.len() implies #[trigger] idx[a] < #[trigger] idx[b] by {
                    if b < frames_pre.len() {
                        assert(idx[a] == idx_pre[a] && idx[b] == idx_pre[b]);
                    } else {
                        assert(idx[a] == idx_pre[a]);
                        assert(0 <= idx_pre[a] < k);
                    }
                }
                assert forall|j: int| 0 <= j < frames.len() implies !gone_set.contains(#[trigger] frames@[j]) by {
                    if j < frames_pre.len() {
                        assert(frames@[j] == frames_pre[j]);
                    }
                }
                assert forall|j: int| 0 <= j < k + 1 && !gone_set.contains(self.frames@[j]) implies frames@.contains(
                    #[trigger] self.frames@[j],
                ) by {
                    if j < k {
                        assert(frames_pre.contains(self.frames@[j]));
                        let i = choose|i: int| 0 <= i < frames_pre.len() && frames_pre[i] == self.frames@[j];
                        assert(frames@[i] == frames_pre[i]);
                    } else {
                        assert(frames@[frames.len() - 1] == f);
                    }
                }
            }
            k = k + 1;
        }
        let ghost old_frames = self.frames@;
        proof {
            assert forall|a: int, b: int| 0 <= a < frames.len() && 0 <= b < frames.len() && a != b implies frames@[a] != frames@[b] by {
                if a < b {
                    assert(idx[a] < idx[b]);
                } else {
                    assert(idx[b] < idx[a]);
                }
            }
        }
        self.frames = frames;
        self.entries = entries;
        self.memory = Ghost(mem.remove_keys(gone_set));
        proof {
            assert forall|t: u64| #[trigger] self.memory@.contains_key(t) implies self.frames@.contains(t) by {
                assert(old_frames.contains(t));
                let j = choose|j: int| 0 <= j < old_frames.len() && old_frames[j] == t;
            }
            assert forall|j: int| 0 <= j < self.frames.len() implies #[trigger] self.memory@.contains_key(self.frames@[j]) by {
                assert(idx[j] < old_frames.len());
                assert(mem.contains_key(old_frames[idx[j]]));
            }
            assert forall|j: int| 0 <= j < self.frames.len() implies (#[trigger] self.memory@[self.frames@[j]]).len() == 512 by {
                assert(idx[j] < old_frames.len());
                assert(mem.contains_key(old_frames[idx[j]]));
                assert(mem[old_frames[idx[j]]].len() == 512);
            }
            assert forall|j: int, i: int|
                0 <= j < self.frames.len() && 0 <= i < 512 implies #[trigger] self.memory@[self.frames@[j]][i]
                    == self.entries@[512 * j + i] by {
                assert(!gone_set.contains(self.frames@[j]));
                assert(idx[j] < old_frames.len());
                assert(mem.contains_key(old_frames[idx[j]]));
                assert(self.memory@[self.frames@[j]] == mem[self.frames@[j]]);
                assert(mem[self.frames@[j]][i] == self.entries@[512 * j + i]);
            }
            assert(self.frames@.no_duplicates());
            assert(self.frames@[0] == self.root);
        }
    }
}

impl AddressSpace {
    /// Returns the page tables under one top-level entry, and the entry
    /// itself, to the source they came from. One region lane is exactly one
    /// top-level entry, so clearing it detaches the whole branch at once and
    /// every table beneath it is unreachable; leaves are not touched, for what
    /// they name is somebody else's. Answers whether a branch was there: an
    /// address above what four-level paging can address, or a lane with
    /// nothing under it, releases nothing and changes nothing.
    pub fn release_branch<S: TableSource>(&mut self, tables: &mut S, virt: u64) -> (released: bool)
        requires
            old(self).wf(),
            old(tables).valid(),
            old(tables).pool().disjoint(old(self).tables()),
        ensures
            final(self).wf(),
            final(tables).valid(),
            final(self).root_table() == old(self).root_table(),
            released == (virt < VIRTUAL_LIMIT && descends(read_entry(old(self).mem(), old(self).root_table(), l4_of(virt)))),
            !released ==> final(self).mem() == old(self).mem() && final(tables).pool() == old(tables).pool(),
            released ==> final(self).tables() == old(self).tables() - branch_tables(old(self).mem(), old(self).root_table(), l4_of(virt)).to_set(),
            released ==> final(tables).pool() == old(tables).pool() + branch_tables(old(self).mem(), old(self).root_table(), l4_of(virt)).to_set(),
            final(self).tables().subset_of(old(self).tables()),
            final(tables).pool() == old(tables).pool() + (old(self).tables() - final(self).tables()),
            final(tables).pool().disjoint(final(self).tables()),
            forall|w: u64| !(w < VIRTUAL_LIMIT && l4_of(w) == l4_of(virt)) ==> #[trigger] final(self).leaf(w) == old(self).leaf(w)
                && final(self).large(w) == old(self).large(w),
            released ==> forall|w: u64| w < VIRTUAL_LIMIT && l4_of(w) == l4_of(virt) ==> #[trigger] final(self).leaf(w) is None
                && final(self).large(w) is None,
    {
        if virt >= VIRTUAL_LIMIT {
            return false;
        }
        proof {
            lemma_index_bits(virt);
        }
        let lane = (virt >> 39) & (ENTRIES - 1);
        let root = self.root;
        let e4 = self.entry(root, lane);
        if e4 & PRESENT == 0 || e4 & HUGE != 0 {
            return false;
        }
        let pdpt = e4 & ADDRESS;
        let ghost m0 = self.memory@;
        let ghost pos = self.position@;
        let ghost pool0 = tables.pool();
        proof {
            assert(e4 == m0[root][lane as int]);
            assert(linked(m0, pos, root, lane));
            assert(m0.contains_key(pdpt) && pos[pdpt] == (3int, lane as int));
            lemma_branch(m0, pos, root, lane);
            old(tables).lemma_valid();
        }
        let gone = self.collect_branch(pdpt);
        let ghost b = branch_tables(m0, root, lane);
        let ghost gone_set = b.to_set();
        proof {
            assert(gone@ == b);
            assert(!gone@.contains(root)) by {
                if gone@.contains(root) {
                    let k = choose|k: int| 0 <= k < b.len() && b[k] == root;
                }
            }
        }
        self.write(root, lane, 0);
        let ghost m1 = self.memory@;
        proof {
            lemma_entry_bits(0, 0, 0, 0, 0);
            lemma_unshared_write(m0, m1, pos, root, lane, 0);
        }
        self.remove_tables(&gone);
        self.position = Ghost(pos.remove_keys(gone_set));
        let ghost m2 = self.memory@;
        let ghost pos2 = self.position@;
        proof {
            assert(m2 == m1.remove_keys(gone_set));
            assert(m2.dom() =~= pos2.dom());
            assert forall|t: u64| #[trigger] m2.contains_key(t) implies m2[t].len() == 512 && 1 <= pos2[t].0 <= 4 && aligned_frame(t) by {
                assert(m0.contains_key(t));
            }
            assert forall|t: u64, i: u64|
                m2.contains_key(t) && i < 512 && pos2[t].0 >= 2 && #[trigger] descends(m2[t][i as int]) implies
                m2.contains_key(target(m2[t][i as int])) && pos2[target(m2[t][i as int])] == (pos2[t].0 - 1, pos2[t].1 * 512 + i) by {
                assert(!(t == root && i == lane));
                assert(m2[t][i as int] == m0[t][i as int]);
                assert(linked(m0, pos, t, i));
                assert(!b.contains(t));
                assert(!b.contains(target(m0[t][i as int])));
            }
            assert forall|t1: u64, i1: u64, t2: u64, i2: u64|
                #[trigger] linked(m2, pos2, t1, i1) && #[trigger] linked(m2, pos2, t2, i2) && target(m2[t1][i1 as int]) == target(
                    m2[t2][i2 as int],
                ) implies t1 == t2 && i1 == i2 by {
                assert(linked(m1, pos, t1, i1) && m1[t1][i1 as int] == m2[t1][i1 as int]);
                assert(linked(m1, pos, t2, i2) && m1[t2][i2 as int] == m2[t2][i2 as int]);
            }
            assert(self.wf());
        }
        let mut k: usize = 0;
        while k < gone.len()
            invariant
                self.wf(),
                self.memory@ == m2,
                tables.valid(),
                gone@ == b,
                b.no_duplicates(),
                forall|j: int| 0 <= j < b.len() ==> m0.contains_key(#[trigger] b[j]),
                !m0.contains_key(0),
                forall|t: u64| #[trigger] m0.contains_key(t) ==> aligned_frame(t),
                pool0.disjoint(m0.dom()),
                k <= gone.len(),
                tables.pool() == pool0 + b.take(k as int).to_set(),
            decreases gone.len() - k,
        {
            let frame = gone[k];
            proof {
                assert(m0.contains_key(frame));
                assert(!b.take(k as int).contains(frame)) by {
                    if b.take(k as int).contains(frame) {
                        let j = choose|j: int| 0 <= j < k && b.take(k as int)[j] == frame;
                        assert(b[j] == b[k as int]);
                    }
                }
                assert(!pool0.contains(frame));
            }
            tables.give_back(frame);
            proof {
                assert(b.take(k as int + 1) =~= b.take(k as int).push(frame));
                assert(b.take(k as int + 1).to_set() =~= b.take(k as int).to_set().insert(frame)) by {
                    let x = b.take(k as int);
                    let y = b.take(k as int + 1);
                    assert forall|f: u64| y.to_set().contains(f) implies x.to_set().insert(frame).contains(f) by {
                        let j = choose|j: int| 0 <= j < y.len() && y[j] == f;
                        if j < k {
                            assert(x[j] == f);
                            assert(x.contains(f));
                        }
                    }
                    assert forall|f: u64| x.to_set().insert(frame).contains(f) implies y.to_set().contains(f) by {
                        if f == frame {
                            assert(y[k as int] == frame);
                            assert(y.contains(f));
                        } else {
                            let j = choose|j: int| 0 <= j < x.len() && x[j] == f;
                            assert(y[j] == f);
                            assert(y.contains(f));
                        }
                    }
                }
            }
            k = k + 1;
        }
        proof {
            assert(b.take(b.len() as int) =~= b);
            assert(tables.pool() == pool0 + gone_set);
            assert(self.tables() =~= old(self).tables() - gone_set);
            assert(gone_set.subset_of(old(self).tables())) by {
                assert forall|t: u64| gone_set.contains(t) implies old(self).tables().contains(t) by {
                    let j = choose|j: int| 0 <= j < b.len() && b[j] == t;
                }
            }
            assert(old(self).tables() - self.tables() =~= gone_set);
            assert(tables.pool().disjoint(self.tables()));
            assert forall|w: u64| !(w < VIRTUAL_LIMIT && l4_of(w) == l4_of(virt)) implies #[trigger] self.leaf(w) == old(self).leaf(w)
                && self.large(w) == old(self).large(w) by {
                lemma_walk_outside_branch(m0, m2, pos, root, lane, w);
            }
            assert forall|w: u64| w < VIRTUAL_LIMIT && l4_of(w) == l4_of(virt) implies #[trigger] self.leaf(w) is None
                && self.large(w) is None by {
                assert(read_entry(m2, root, l4_of(w)) == 0);
            }
        }
        true
    }
}

/// Two addresses in one 2 MiB chunk share their first three indices.
proof fn lemma_same_chunk(v: u64, w: u64)
    requires
        w >> 21u64 == v >> 21u64,
    ensures
        l4_of(w) == l4_of(v),
        l3_of(w) == l3_of(v),
        l2_of(w) == l2_of(v),
        (w < VIRTUAL_LIMIT) == (v < VIRTUAL_LIMIT),
        w >> 30u64 == v >> 30u64,
{
    assert(w >> 21u64 == v >> 21u64 ==> (w >> 39u64) & 511 == (v >> 39u64) & 511 && (w >> 30u64) & 511 == (v >> 30u64) & 511
        && (w >> 21u64) & 511 == (v >> 21u64) & 511 && (w < 0x1_0000_0000_0000u64) == (v < 0x1_0000_0000_0000u64) && w >> 30u64
        == v >> 30u64) by (bit_vector);
}

/// A page whose leaf is present has its whole path in place: mapping it
/// takes no table.
proof fn lemma_occupied_path_complete(mem: Map<u64, Seq<u64>>, root: u64, virt: u64)
    requires
        leaf_entry(mem, root, virt) is Some,
    ensures
        virt < VIRTUAL_LIMIT,
        path_blocked(mem, root, virt) is None,
        path_needs(mem, root, virt) == 0,
{
}

/// A subset as large as a finite set is that set.
proof fn lemma_subset_same_len(small: Set<u64>, big: Set<u64>)
    requires
        big.finite(),
        small.subset_of(big),
        small.len() == big.len(),
    ensures
        small == big,
{
    if small != big {
        let a = choose|a: u64| big.contains(a) && !small.contains(a);
        assert(exists|a: u64| big.contains(a) && !small.contains(a)) by {
            assert(!(small =~= big));
        }
        vstd::set_lib::lemma_len_subset(small, big.remove(a));
    }
}

impl AddressSpace {
    /// Maps one 4 KiB page where nothing is mapped, and refuses where
    /// something is: an occupied leaf would mean a frame the caller has lost
    /// track of.
    pub fn map_empty_page<S: TableSource>(&mut self, tables: &mut S, virt: u64, phys: u64, flags: u64) -> (r: Result<(), PagingRefused>)
        requires
            old(self).wf(),
            old(tables).valid(),
            old(tables).pool().disjoint(old(self).tables()),
        ensures
            final(self).wf(),
            final(tables).valid(),
            final(self).root_table() == old(self).root_table(),
            final(tables).pool().subset_of(old(tables).pool()),
            final(self).tables() == old(self).tables() + (old(tables).pool() - final(tables).pool()),
            final(tables).pool().disjoint(final(self).tables()),
            r == (match empty_page_refusal(old(self).mem(), old(self).root_table(), virt, old(tables).pool().len()) {
                Some(e) => Err(e),
                None => Ok(()),
            }),
            r is Ok ==> final(self).leaf(virt) == Some(page_leaf(phys, flags))
                && path_allows(final(self).mem(), final(self).root_table(), virt, interior_spec(flags)),
            r is Err ==> final(self).leaf(virt) == old(self).leaf(virt),
            virt >= VIRTUAL_LIMIT ==> final(tables).pool() == old(tables).pool() && final(self).mem() == old(self).mem(),
            old(self).leaf(virt) is Some ==> r == Err::<(), PagingRefused>(PagingRefused::Granularity(virt))
                && final(tables).pool() == old(tables).pool(),
            forall|w: u64| w >> 12u64 != virt >> 12u64 ==> #[trigger] final(self).leaf(w) == old(self).leaf(w),
            forall|w: u64| #[trigger] final(self).large(w) == old(self).large(w),
    {
        let ghost occupied = old(self).leaf(virt) is Some;
        let pt = match self.table_for(tables, virt, flags) {
            Ok(t) => t,
            Err(e) => return Err(e),
        };
        let ghost m1 = self.memory@;
        proof {
            lemma_entry_bits(0, 0, 0, phys, flags);
            lemma_index_bits(virt);
            lemma_walk_positions(m1, self.position@, self.root, virt);
            assert(self.leaf(virt) == old(self).leaf(virt));
            if occupied {
                lemma_occupied_path_complete(old(self).memory@, old(self).root, virt);
                old(tables).lemma_valid();
                lemma_subset_same_len(tables.pool(), old(tables).pool());
            }
        }
        if self.entry(pt, (virt >> 12) & (ENTRIES - 1)) & PRESENT != 0 {
            return Err(PagingRefused::Granularity(virt));
        }
        self.write_leaf(pt, (phys & ADDRESS) | flags | PRESENT, virt);
        proof {
            let m2 = self.memory@;
            let e4 = read_entry(m1, self.root, l4_of(virt));
            let e3 = read_entry(m1, target(e4), l3_of(virt));
            assert(read_entry(m2, self.root, l4_of(virt)) == e4);
            assert(read_entry(m2, target(e4), l3_of(virt)) == e3);
            assert(read_entry(m2, target(e3), l2_of(virt)) == read_entry(m1, target(e3), l2_of(virt)));
            assert(read_entry(m2, pt, l1_of(virt)) == page_leaf(phys, flags));
        }
        Ok(())
    }

    /// Maps one 2 MiB page, over whatever the directory entry held.
    pub fn map_huge<S: TableSource>(&mut self, tables: &mut S, virt: u64, phys: u64, flags: u64) -> (r: Result<(), PagingRefused>)
        requires
            old(self).wf(),
            old(tables).valid(),
            old(tables).pool().disjoint(old(self).tables()),
        ensures
            final(self).wf(),
            final(tables).valid(),
            final(self).root_table() == old(self).root_table(),
            final(tables).pool().subset_of(old(tables).pool()),
            final(self).tables() == old(self).tables() + (old(tables).pool() - final(tables).pool()),
            final(tables).pool().disjoint(final(self).tables()),
            r == (match huge_refusal(old(self).mem(), old(self).root_table(), virt, old(tables).pool().len()) {
                Some(e) => Err(e),
                None => Ok(()),
            }),
            r is Ok ==> directory_path_allows(final(self).mem(), final(self).root_table(), virt, interior_spec(flags)),
            r is Ok ==> forall|w: u64| w >> 21u64 == virt >> 21u64 ==> #[trigger] final(self).leaf(w) is None
                && final(self).large(w) == Some(huge_leaf(phys, flags)),
            r is Err ==> forall|w: u64| #[trigger] final(self).leaf(w) == old(self).leaf(w) && final(self).large(w) == old(self).large(w),
            forall|w: u64| w >> 21u64 != virt >> 21u64 ==> #[trigger] final(self).leaf(w) == old(self).leaf(w),
            forall|w: u64| w >> 21u64 != virt >> 21u64 ==> #[trigger] final(self).large(w) == old(self).large(w),
    {
        if virt >= VIRTUAL_LIMIT {
            return Err(PagingRefused::AddressTooHigh(virt));
        }
        let interior = Self::interior_for(flags);
        proof {
            lemma_entry_bits(0, 0, 0, phys, flags);
            lemma_index_bits(virt);
        }
        let pd = match self.directory_for(tables, virt, interior) {
            Ok(t) => t,
            Err(e) => return Err(e),
        };
        let ghost m1 = self.memory@;
        proof {
            lemma_walk_positions(m1, self.position@, self.root, virt);
            assert(!descends(huge_leaf(phys, flags)));
        }
        self.write_directory(pd, (phys & ADDRESS) | flags | HUGE | PRESENT, virt);
        proof {
            let m2 = self.memory@;
            let e4 = read_entry(m1, self.root, l4_of(virt));
            assert(read_entry(m2, self.root, l4_of(virt)) == e4);
            assert(read_entry(m2, target(e4), l3_of(virt)) == read_entry(m1, target(e4), l3_of(virt)));
            assert(read_entry(m2, pd, l2_of(virt)) == huge_leaf(phys, flags));
            assert forall|w: u64| w >> 21u64 == virt >> 21u64 implies #[trigger] self.leaf(w) is None
                && self.large(w) == Some(huge_leaf(phys, flags)) by {
                lemma_same_chunk(virt, w);
            }
        }
        Ok(())
    }

    /// Returns every page table this space is made of to the source it came
    /// from, and never what the tables map: a leaf points at memory that is
    /// somebody else's. Nothing uses the space afterwards.
    pub fn release_tables<S: TableSource>(self, tables: &mut S)
        requires
            self.wf(),
            old(tables).valid(),
            old(tables).pool().disjoint(self.tables()),
        ensures
            final(tables).valid(),
            final(tables).pool() == old(tables).pool() + self.tables(),
    {
        let mut k: usize = 0;
        while k < self.frames.len()
            invariant
                self.wf(),
                tables.valid(),
                old(tables).pool().disjoint(self.tables()),
                k <= self.frames.len(),
                tables.pool() == old(tables).pool() + self.frames@.take(k as int).to_set(),
            decreases self.frames.len() - k,
        {
            let frame = self.frames[k];
            proof {
                assert(self.memory@.contains_key(frame));
                assert(aligned_frame(frame));
                assert(frame != 0);
                assert(!self.frames@.take(k as int).contains(frame)) by {
                    if self.frames@.take(k as int).contains(frame) {
                        let j = choose|j: int| 0 <= j < k && self.frames@.take(k as int)[j] == frame;
                        assert(self.frames@[j] == self.frames@[k as int]);
                    }
                }
                assert(!old(tables).pool().contains(frame));
            }
            tables.give_back(frame);
            proof {
                assert(self.frames@.take(k as int + 1) =~= self.frames@.take(k as int).push(frame));
                assert(self.frames@.take(k as int + 1).to_set() =~= self.frames@.take(k as int).to_set().insert(frame)) by {
                    let a = self.frames@.take(k as int);
                    let b = self.frames@.take(k as int + 1);
                    assert forall|x: u64| b.to_set().contains(x) implies a.to_set().insert(frame).contains(x) by {
                        let j = choose|j: int| 0 <= j < b.len() && b[j] == x;
                        if j < k {
                            assert(a[j] == x);
                            assert(a.contains(x));
                        }
                    }
                    assert forall|x: u64| a.to_set().insert(frame).contains(x) implies b.to_set().contains(x) by {
                        if x == frame {
                            assert(b[k as int] == frame);
                            assert(b.contains(x));
                        } else {
                            let j = choose|j: int| 0 <= j < a.len() && a[j] == x;
                            assert(b[j] == x);
                            assert(b.contains(x));
                        }
                    }
                }
                assert(tables.pool() =~= old(tables).pool() + self.frames@.take(k as int + 1).to_set());
            }
            k = k + 1;
        }
        proof {
            assert(self.frames@.take(self.frames.len() as int) =~= self.frames@);
            assert(self.frames@.to_set() =~= self.tables()) by {
                assert forall|t: u64| self.frames@.to_set().contains(t) implies self.tables().contains(t) by {
                    let j = choose|j: int| 0 <= j < self.frames@.len() && self.frames@[j] == t;
                    assert(self.memory@.contains_key(self.frames@[j]));
                }
                assert forall|t: u64| self.tables().contains(t) implies self.frames@.to_set().contains(t) by {
                    assert(self.frames@.contains(t));
                }
            }
        }
    }

    /// Removes one 4 KiB mapping, if the path to it exists. The tables on
    /// the path are kept: they will be needed again at the same address.
    pub fn unmap_page(&mut self, virt: u64)
        requires
            old(self).wf(),
        ensures
            final(self).wf(),
            final(self).root_table() == old(self).root_table(),
            final(self).tables() == old(self).tables(),
            final(self).leaf(virt) is None,
            forall|w: u64| w >> 12u64 != virt >> 12u64 ==> #[trigger] final(self).leaf(w) == old(self).leaf(w),
            forall|w: u64| #[trigger] final(self).large(w) == old(self).large(w),
    {
        if virt >= VIRTUAL_LIMIT {
            return;
        }
        proof {
            lemma_index_bits(virt);
            lemma_walk_positions(self.memory@, self.position@, self.root, virt);
            lemma_entry_bits(0, 0, 0, 0, 0);
        }
        let pt = match self.leaf_table_of(virt) {
            Some(t) => t,
            None => return,
        };
        let ghost m1 = self.memory@;
        self.write_leaf(pt, 0, virt);
        proof {
            let m2 = self.memory@;
            let e4 = read_entry(m1, self.root, l4_of(virt));
            let e3 = read_entry(m1, target(e4), l3_of(virt));
            assert(read_entry(m2, self.root, l4_of(virt)) == e4);
            assert(read_entry(m2, target(e4), l3_of(virt)) == e3);
            assert(read_entry(m2, target(e3), l2_of(virt)) == read_entry(m1, target(e3), l2_of(virt)));
            assert(read_entry(m2, pt, l1_of(virt)) == 0);
            assert(m2.dom() =~= m1.dom());
        }
    }

    /// Clears one 4 KiB leaf and says what it named, without touching the
    /// processor.
    pub fn clear_leaf(&mut self, virt: u64) -> (r: Option<u64>)
        requires
            old(self).wf(),
        ensures
            final(self).wf(),
            final(self).root_table() == old(self).root_table(),
            final(self).tables() == old(self).tables(),
            r == translation(old(self).mem(), old(self).root_table(), virt),
            r is None ==> final(self).mem() == old(self).mem(),
            final(self).leaf(virt) is None,
            forall|w: u64| w >> 12u64 != virt >> 12u64 ==> #[trigger] final(self).leaf(w) == old(self).leaf(w),
            forall|w: u64| #[trigger] final(self).large(w) == old(self).large(w),
    {
        if virt >= VIRTUAL_LIMIT {
            return None;
        }
        proof {
            lemma_index_bits(virt);
            lemma_walk_positions(self.memory@, self.position@, self.root, virt);
            lemma_entry_bits(0, 0, 0, 0, 0);
        }
        let pt = match self.leaf_table_of(virt) {
            Some(t) => t,
            None => return None,
        };
        let leaf = self.entry(pt, (virt >> 12) & (ENTRIES - 1));
        if leaf & PRESENT == 0 {
            return None;
        }
        let ghost m1 = self.memory@;
        self.write_leaf(pt, 0, virt);
        proof {
            let m2 = self.memory@;
            let e4 = read_entry(m1, self.root, l4_of(virt));
            let e3 = read_entry(m1, target(e4), l3_of(virt));
            assert(read_entry(m2, self.root, l4_of(virt)) == e4);
            assert(read_entry(m2, target(e4), l3_of(virt)) == e3);
            assert(read_entry(m2, target(e3), l2_of(virt)) == read_entry(m1, target(e3), l2_of(virt)));
            assert(read_entry(m2, pt, l1_of(virt)) == 0);
            assert(m2.dom() =~= m1.dom());
        }
        Some(leaf & ADDRESS)
    }
}


/// What is mapped is what reads back: once a page's leaf is the one
/// `map_page` writes, the page translates to the frame it was given and is
/// writable exactly when the flags said so, whatever address bits the
/// physical address carried below the frame.
pub proof fn lemma_mapped_page_reads_back(space: AddressSpace, virt: u64, phys: u64, flags: u64)
    requires
        space.leaf(virt) == Some(page_leaf(phys, flags)),
        flags & ADDRESS == 0,
    ensures
        translation(space.mem(), space.root_table(), virt) == Some(phys & ADDRESS),
        writability(space.mem(), space.root_table(), virt) == Some(flags & WRITABLE != 0),
{
    assert((((phys & 0x000f_ffff_ffff_f000u64) | flags | 1u64) & 0x000f_ffff_ffff_f000u64) == phys & 0x000f_ffff_ffff_f000u64)
        by (bit_vector)
        requires
            flags & 0x000f_ffff_ffff_f000u64 == 0,
    ;
    assert(((((phys & 0x000f_ffff_ffff_f000u64) | flags | 1u64) & 2u64) != 0) == (flags & 2u64 != 0)) by (bit_vector);
}


// ---------------------------------------------------------------------------
// The nucleus's own identity map: which physical memory it maps, and how.

/// Bytes in one page.
pub const PAGE_SIZE: u64 = 4096;
/// The highest chunk boundary the walk over physical memory can reach.
pub const TOP_LIMIT: u64 = 0xffff_ffff_ffe0_0000;

/// Whether a span holds an address.
pub open spec fn holds(s: Span, a: int) -> bool {
    s.start <= a && a < s.end
}

/// A span of `length` bytes from `start`, when there is one: empty and
/// wrapping lengths describe nothing.
pub open spec fn sized_spec(start: u64, length: u64) -> Option<Span> {
    if length == 0 || start + length > u64::MAX {
        None
    } else {
        Some(Span { start, end: (start + length) as u64 })
    }
}

/// A span of `length` bytes from `start`.
pub fn sized(start: u64, length: u64) -> (r: Option<Span>)
    ensures
        r == sized_spec(start, length),
{
    if length == 0 {
        return None;
    }
    match start.checked_add(length) {
        Some(end) => Some(Span { start, end }),
        None => None,
    }
}

/// The three parts of the nucleus image, as the linker marks them.
#[derive(Clone, Copy, Debug, PartialEq, Eq, Structural)]
pub struct ImageParts {
    pub text: Span,
    pub rodata: Span,
    pub data: Span,
}

/// The framebuffer's span, when the loader declared one.
pub open spec fn framebuffer_spec(phys: u64, pitch: u32, height: u32) -> Option<Span> {
    if phys == 0 || pitch as int * height as int == 0 {
        None
    } else {
        sized_spec(phys, (pitch as int * height as int) as u64)
    }
}

/// The framebuffer's span, when the loader declared one.
pub fn framebuffer_span(phys: u64, pitch: u32, height: u32) -> (r: Option<Span>)
    ensures
        r == framebuffer_spec(phys, pitch, height),
{
    proof {
        assert((pitch as int) * (height as int) <= u64::MAX) by (nonlinear_arith)
            requires
                pitch <= u32::MAX,
                height <= u32::MAX,
        ;
    }
    let length = (pitch as u64) * (height as u64);
    if phys == 0 || length == 0 {
        return None;
    }
    sized(phys, length)
}

/// What one page of physical memory may be used for, or nothing: page zero
/// stays absent so a null dereference faults; the framebuffer is device
/// memory and uncacheable; text is read-only and executable; read-only data
/// is read-only; everything else is writable and never executable.
pub open spec fn permission_spec(address: u64, fb: Option<Span>, image: ImageParts) -> Option<u64> {
    if address < PAGE_SIZE {
        None
    } else if fb matches Some(f) && holds(f, address as int) {
        Some(WRITABLE | NO_EXECUTE | CACHE_DISABLE | WRITE_THROUGH)
    } else if holds(image.text, address as int) {
        Some(0)
    } else if holds(image.rodata, address as int) {
        Some(NO_EXECUTE)
    } else {
        Some(WRITABLE | NO_EXECUTE)
    }
}

/// What one page of physical memory may be used for, or nothing at all.
pub fn permission(address: u64, fb: Option<Span>, image: ImageParts) -> (r: Option<u64>)
    ensures
        r == permission_spec(address, fb, image),
{
    if address < PAGE_SIZE {
        return None;
    }
    if let Some(f) = fb {
        if f.start <= address && address < f.end {
            return Some(WRITABLE | NO_EXECUTE | CACHE_DISABLE | WRITE_THROUGH);
        }
    }
    if image.text.start <= address && address < image.text.end {
        return Some(0);
    }
    if image.rodata.start <= address && address < image.rodata.end {
        return Some(NO_EXECUTE);
    }
    Some(WRITABLE | NO_EXECUTE)
}

/// Whether a span meets the 2 MiB chunk at `chunk`.
pub open spec fn meets_chunk(s: Span, chunk: int) -> bool {
    s.start < chunk + HUGE_SIZE && s.end > chunk
}

/// Whether a 2 MiB chunk must be mapped one page at a time: the first one,
/// and any that holds part of the image or the framebuffer.
pub open spec fn needs_pages_spec(chunk: int, image: Span, fb: Option<Span>) -> bool {
    chunk == 0 || meets_chunk(image, chunk) || (fb matches Some(f) && meets_chunk(f, chunk))
}

/// Whether a 2 MiB chunk must be mapped one page at a time.
pub fn needs_pages(chunk: u64, image: Span, fb: Option<Span>) -> (b: bool)
    requires
        chunk < TOP_LIMIT,
    ensures
        b == needs_pages_spec(chunk as int, image, fb),
{
    let end = chunk + HUGE_SIZE;
    let in_fb = match fb {
        Some(f) => f.start < end && f.end > chunk,
        None => false,
    };
    chunk == 0 || (image.start < end && image.end > chunk) || in_fb
}

/// Whether anything the machine reported, or the framebuffer, lives in the
/// chunk at `chunk`.
pub open spec fn described_spec(chunk: int, descs: Seq<(u64, u64)>, fb: Option<Span>) -> bool {
    (exists|i: int| 0 <= i < descs.len() && #[trigger] desc_meets(descs[i], chunk)) || (fb matches Some(f) && meets_chunk(f, chunk))
}

/// Whether one reported range meets the chunk at `chunk`.
pub open spec fn desc_meets(d: (u64, u64), chunk: int) -> bool {
    sized_spec(d.0, d.1) matches Some(s) && meets_chunk(s, chunk)
}

/// Whether anything the machine reported lives in this 2 MiB chunk.
pub fn described(chunk: u64, descs: &[(u64, u64)], fb: Option<Span>) -> (b: bool)
    requires
        chunk < TOP_LIMIT,
    ensures
        b == described_spec(chunk as int, descs@, fb),
{
    let end = chunk + HUGE_SIZE;
    let mut i: usize = 0;
    while i < descs.len()
        invariant
            end == chunk + HUGE_SIZE,
            i <= descs.len(),
            forall|j: int| 0 <= j < i ==> !#[trigger] desc_meets(descs@[j], chunk as int),
        decreases descs.len() - i,
    {
        if let Some(s) = sized(descs[i].0, descs[i].1) {
            if s.start < end && s.end > chunk {
                proof {
                    assert(desc_meets(descs@[i as int], chunk as int));
                }
                return true;
            }
        }
        i = i + 1;
    }
    match fb {
        Some(f) => f.start < end && f.end > chunk,
        None => false,
    }
}

/// The highest end of anything described, and of the framebuffer.
pub open spec fn top_from(descs: Seq<(u64, u64)>, fb: Option<Span>, n: int) -> int
    decreases n,
{
    if n <= 0 {
        match fb {
            Some(f) => f.end as int,
            None => 0,
        }
    } else {
        let rest = top_from(descs, fb, n - 1);
        match sized_spec(descs[n - 1].0, descs[n - 1].1) {
            Some(s) => if s.end > rest { s.end as int } else { rest },
            None => rest,
        }
    }
}

/// That end, rounded up to a whole 2 MiB chunk.
pub open spec fn top_spec(descs: Seq<(u64, u64)>, fb: Option<Span>) -> int {
    let t = top_from(descs, fb, descs.len() as int);
    ((t + HUGE_SIZE - 1) / (HUGE_SIZE as int)) * HUGE_SIZE
}

proof fn lemma_top_from_bounded(descs: Seq<(u64, u64)>, fb: Option<Span>, n: int)
    ensures
        0 <= top_from(descs, fb, n) <= u64::MAX,
    decreases n,
{
    if n > 0 {
        lemma_top_from_bounded(descs, fb, n - 1);
    }
}

/// The top of what the identity map covers.
fn top(descs: &[(u64, u64)], fb: Option<Span>) -> (t: u64)
    requires
        top_spec(descs@, fb) <= TOP_LIMIT,
    ensures
        t == top_spec(descs@, fb),
{
    let mut t: u64 = match fb {
        Some(f) => f.end,
        None => 0,
    };
    let mut i: usize = 0;
    while i < descs.len()
        invariant
            i <= descs.len(),
            t == top_from(descs@, fb, i as int),
        decreases descs.len() - i,
    {
        if let Some(s) = sized(descs[i].0, descs[i].1) {
            if s.end > t {
                t = s.end;
            }
        }
        i = i + 1;
    }
    proof {
        lemma_top_from_bounded(descs@, fb, descs@.len() as int);
        let tt = t as int;
        assert(((tt + HUGE_SIZE - 1) / (HUGE_SIZE as int)) * HUGE_SIZE <= TOP_LIMIT);
        assert(tt <= TOP_LIMIT) by (nonlinear_arith)
            requires
                ((tt + 0x20_0000 - 1) / 0x20_0000) * 0x20_0000 <= 0xffff_ffff_ffe0_0000,
                tt >= 0,
        ;
    }
    let chunks = t / HUGE_SIZE + if t % HUGE_SIZE == 0 { 0 } else { 1 };
    proof {
        let tt = t as int;
        assert(chunks as int == (tt + HUGE_SIZE - 1) / (HUGE_SIZE as int)) by (nonlinear_arith)
            requires
                chunks as int == tt / 0x20_0000 + if tt % 0x20_0000 == 0 { 0int } else { 1int },
                tt >= 0,
        ;
        assert(chunks as int * HUGE_SIZE <= TOP_LIMIT);
    }
    chunks * HUGE_SIZE
}

/// The page-table frames the walk from chunk `k` on adds, given the PDPT
/// and directory regions it was last in: one for each new 512 GiB and
/// 1 GiB region a described chunk enters, and one page table for each
/// described chunk that needs pages.
pub open spec fn tables_from(
    descs: Seq<(u64, u64)>,
    fb: Option<Span>,
    image: Span,
    k: int,
    n: int,
    in_pdpt: u64,
    in_directory: u64,
) -> int
    decreases n - k,
{
    if k >= n || k < 0 {
        0
    } else {
        let chunk = k * HUGE_SIZE;
        let c = chunk as u64;
        if described_spec(chunk, descs, fb) {
            let p = if c >> 39u64 != in_pdpt { 1int } else { 0int };
            let d = if c >> 30u64 != in_directory { 1int } else { 0int };
            let f = if needs_pages_spec(chunk, image, fb) { 1int } else { 0int };
            p + d + f + tables_from(descs, fb, image, k + 1, n, c >> 39u64, c >> 30u64)
        } else {
            tables_from(descs, fb, image, k + 1, n, in_pdpt, in_directory)
        }
    }
}

proof fn lemma_tables_from_bounded(
    descs: Seq<(u64, u64)>,
    fb: Option<Span>,
    image: Span,
    k: int,
    n: int,
    in_pdpt: u64,
    in_directory: u64,
)
    requires
        0 <= k <= n,
    ensures
        0 <= tables_from(descs, fb, image, k, n, in_pdpt, in_directory) <= 3 * (n - k),
    decreases n - k,
{
    if k < n {
        let c = (k * HUGE_SIZE) as u64;
        lemma_tables_from_bounded(descs, fb, image, k + 1, n, c >> 39u64, c >> 30u64);
        lemma_tables_from_bounded(descs, fb, image, k + 1, n, in_pdpt, in_directory);
    }
}

/// An upper bound on the page-table frames the identity map of this
/// machine needs: the root, the interiors the described chunks enter, a
/// page table per chunk mapped in pages, and three for the local APIC's own
/// path. It walks the chunks the map walks and asks each the same question.
pub fn build_tables(fb: Option<Span>, image: ImageParts, descs: &[(u64, u64)]) -> (n: u64)
    requires
        top_spec(descs@, fb) <= TOP_LIMIT,
    ensures
        n == 1 + tables_from(
            descs@,
            fb,
            Span { start: image.text.start, end: image.data.end },
            0,
            top_spec(descs@, fb) / (HUGE_SIZE as int),
            u64::MAX,
            u64::MAX,
        ) + 3,
{
    let whole = Span { start: image.text.start, end: image.data.end };
    let top = top(descs, fb);
    let ghost n = top as int / (HUGE_SIZE as int);
    let mut count: u64 = 0;
    let mut in_pdpt: u64 = u64::MAX;
    let mut in_directory: u64 = u64::MAX;
    let mut chunk: u64 = 0;
    let ghost mut k: int = 0;
    proof {
        assert(top as int == n * HUGE_SIZE);
        lemma_tables_from_bounded(descs@, fb, whole, 0, n, u64::MAX, u64::MAX);
    }
    while chunk < top
        invariant
            top as int == n * HUGE_SIZE,
            top <= TOP_LIMIT,
            0 <= k <= n,
            chunk as int == k * HUGE_SIZE,
            count as int + tables_from(descs@, fb, whole, k, n, in_pdpt, in_directory) == tables_from(
                descs@,
                fb,
                whole,
                0,
                n,
                u64::MAX,
                u64::MAX,
            ),
            count as int <= 3 * k,
        decreases n - k,
    {
        proof {
            lemma_tables_from_bounded(descs@, fb, whole, k + 1, n, (chunk >> 39u64), (chunk >> 30u64));
            lemma_tables_from_bounded(descs@, fb, whole, k + 1, n, in_pdpt, in_directory);
        }
        if described(chunk, descs, fb) {
            if chunk >> 39u64 != in_pdpt {
                in_pdpt = chunk >> 39u64;
                count = count + 1;
            }
            if chunk >> 30u64 != in_directory {
                in_directory = chunk >> 30u64;
                count = count + 1;
            }
            if needs_pages(chunk, whole, fb) {
                count = count + 1;
            }
        }
        chunk = chunk + HUGE_SIZE;
        proof {
            k = k + 1;
        }
    }
    proof {
        lemma_tables_from_bounded(descs@, fb, whole, 0, n, u64::MAX, u64::MAX);
    }
    1 + count + 3
}


/// The page an address is in, and the 2 MiB chunk.
pub open spec fn page_of(w: u64) -> u64 {
    (w >> 12u64) << 12u64
}

pub open spec fn chunk_of(w: u64) -> u64 {
    (w >> 21u64) << 21u64
}

/// How the local APIC's page is mapped: uncacheable, supervisor-only, never
/// executable.
pub const APIC_FLAGS: u64 = 0x8000_0000_0000_001a;

/// The image as one span, from its text to the end of its data.
pub open spec fn whole_image(image: ImageParts) -> Span {
    Span { start: image.text.start, end: image.data.end }
}

/// What the identity map leaves as `w`'s 4 KiB leaf, given what was there:
/// a described chunk below the top that needs pages has each page mapped to
/// itself with its permission, or left as it was where it has none; a
/// described chunk that does not is one 2 MiB leaf; anything else is left
/// alone.
pub open spec fn filled_leaf(before: Option<u64>, w: u64, top: int, descs: Seq<(u64, u64)>, fb: Option<Span>, image: ImageParts) -> Option<u64> {
    let c = chunk_of(w) as int;
    if c < top && described_spec(c, descs, fb) {
        if needs_pages_spec(c, whole_image(image), fb) {
            match permission_spec(page_of(w), fb, image) {
                Some(f) => Some(page_leaf(page_of(w), f)),
                None => before,
            }
        } else {
            None
        }
    } else {
        before
    }
}

/// What the identity map leaves as `w`'s 2 MiB leaf, given what was there.
pub open spec fn filled_large(before: Option<u64>, w: u64, top: int, descs: Seq<(u64, u64)>, fb: Option<Span>, image: ImageParts) -> Option<u64> {
    let c = chunk_of(w) as int;
    if c < top && described_spec(c, descs, fb) && !needs_pages_spec(c, whole_image(image), fb) {
        Some(huge_leaf(chunk_of(w), WRITABLE | NO_EXECUTE))
    } else {
        before
    }
}

/// Two addresses in one page have one 4 KiB leaf.
pub proof fn lemma_same_page_same_leaf(mem: Map<u64, Seq<u64>>, root: u64, w: u64, v: u64)
    requires
        w >> 12u64 == v >> 12u64,
    ensures
        leaf_entry(mem, root, w) == leaf_entry(mem, root, v),
{
    assert(w >> 12u64 == v >> 12u64 ==> (w >> 39u64) & 511 == (v >> 39u64) & 511 && (w >> 30u64) & 511 == (v >> 30u64) & 511
        && (w >> 21u64) & 511 == (v >> 21u64) & 511 && (w >> 12u64) & 511 == (v >> 12u64) & 511 && (w >= 0x1_0000_0000_0000u64
        <==> v >= 0x1_0000_0000_0000u64)) by (bit_vector);
}

/// The page and chunk of the `j`th page of chunk `k`.
proof fn lemma_page_in_chunk(k: u64, j: u64, w: u64)
    requires
        k < 0x800_0000_0000,
        j < 512,
    ensures
        (((k << 21u64) + (j << 12u64)) as u64) >> 21u64 == k,
        (((k << 21u64) + (j << 12u64)) as u64) >> 12u64 == (((k << 9u64) + j) as u64),
        page_of((((k << 21u64) + (j << 12u64)) as u64) as u64) == (((k << 21u64) + (j << 12u64)) as u64),
        chunk_of((((k << 21u64) + (j << 12u64)) as u64) as u64) == k << 21u64,
        w >> 21u64 == k ==> (w >> 12u64 == (((k << 9u64) + j) as u64) <==> (w >> 12u64) & 511 == j),
{
    assert(k < 0x800_0000_0000u64 && j < 512u64 ==> (((k << 21u64) + (j << 12u64)) as u64) >> 21u64 == k
        && (((k << 21u64) + (j << 12u64)) as u64) >> 12u64 == (((k << 9u64) + j) as u64)
        && ((((k << 21u64) + (j << 12u64)) as u64) >> 12u64) << 12u64 == (((k << 21u64) + (j << 12u64)) as u64)
        && ((((k << 21u64) + (j << 12u64)) as u64) >> 21u64) << 21u64 == k << 21u64
        && (w >> 21u64 == k ==> (w >> 12u64 == (((k << 9u64) + j) as u64) <==> (w >> 12u64) & 511 == j))) by (bit_vector);
}

/// An address's chunk index, page index within it, and the arithmetic
/// values of both.
proof fn lemma_chunk_bits(w: u64)
    ensures
        chunk_of(w) as int == (w >> 21u64) as int * 0x20_0000,
        (w >> 21u64) < 0x800_0000_0000,
        (w >> 12u64) & 511 < 512,
        page_of(w) >> 12u64 == w >> 12u64,
        chunk_of(w) >> 21u64 == w >> 21u64,
{
    assert((w >> 21u64) << 21u64 == (w >> 21u64) * 0x20_0000u64 && (w >> 21u64) < 0x800_0000_0000u64 && (w >> 12u64) & 511
        < 512 && ((w >> 12u64) << 12u64) >> 12u64 == w >> 12u64 && ((w >> 21u64) << 21u64) >> 21u64 == w >> 21u64)
        by (bit_vector);
}

impl AddressSpace {
    /// Maps this machine into the space, identity for identity: described
    /// memory below the top, chunk by chunk, with 2 MiB leaves where nothing
    /// needs finer permissions and page by page where something does; then
    /// the local APIC's page, which every space needs for the timer's
    /// acknowledgement.
    #[verifier::rlimit(60)]
    pub fn fill<S: TableSource>(&mut self, tables: &mut S, fb: Option<Span>, image: ImageParts, descs: &[(u64, u64)]) -> (r: Result<(), PagingRefused>)
        requires
            old(self).wf(),
            old(tables).valid(),
            old(tables).pool().disjoint(old(self).tables()),
            top_spec(descs@, fb) <= TOP_LIMIT,
        ensures
            final(self).wf(),
            final(tables).valid(),
            final(self).root_table() == old(self).root_table(),
            final(tables).pool().subset_of(old(tables).pool()),
            final(self).tables() == old(self).tables() + (old(tables).pool() - final(tables).pool()),
            final(tables).pool().disjoint(final(self).tables()),
            r is Ok ==> forall|w: u64| page_of(w) != page_of(crate::apic::LOCAL_APIC) ==> #[trigger] final(self).leaf(w)
                == filled_leaf(old(self).leaf(w), w, top_spec(descs@, fb), descs@, fb, image),
            r is Ok ==> forall|w: u64| #[trigger] final(self).large(w) == filled_large(
                old(self).large(w),
                w,
                top_spec(descs@, fb),
                descs@,
                fb,
                image,
            ),
            r is Ok ==> forall|w: u64| page_of(w) == page_of(crate::apic::LOCAL_APIC) ==> #[trigger] final(self).leaf(w)
                == Some(page_leaf(crate::apic::LOCAL_APIC, APIC_FLAGS)),
    {
        let ghost s0 = *self;
        let ghost pool0 = tables.pool();
        let whole = Span { start: image.text.start, end: image.data.end };
        let top = top(descs, fb);
        let ghost n = top as int / (HUGE_SIZE as int);
        let ghost t = top_spec(descs@, fb);
        let mut chunk: u64 = 0;
        let mut k: u64 = 0;
        proof {
            assert(top as int == n * HUGE_SIZE);
        }
        while chunk < top
            invariant
                self.wf(),
                tables.valid(),
                self.root_table() == s0.root_table(),
                tables.pool().subset_of(pool0),
                self.tables() == s0.tables() + (pool0 - tables.pool()),
                tables.pool().disjoint(self.tables()),
                s0.wf(),
                pool0.disjoint(s0.tables()),
                whole == whole_image(image),
                t == top_spec(descs@, fb),
                top as int == t,
                top as int == n * HUGE_SIZE,
                top <= TOP_LIMIT,
                chunk as int == k as int * HUGE_SIZE,
                k as int <= n,
                s0 == *old(self),
                pool0 == old(tables).pool(),
                forall|w: u64| (w >> 21u64) < k ==> #[trigger] self.leaf(w) == filled_leaf(s0.leaf(w), w, t, descs@, fb, image),
                forall|w: u64| (w >> 21u64) < k ==> #[trigger] self.large(w) == filled_large(s0.large(w), w, t, descs@, fb, image),
                forall|w: u64| (w >> 21u64) >= k ==> #[trigger] self.leaf(w) == s0.leaf(w),
                forall|w: u64| (w >> 21u64) >= k ==> #[trigger] self.large(w) == s0.large(w),
            decreases n - k,
        {
            proof {
                assert(k < 0x800_0000_0000) by (nonlinear_arith)
                    requires
                        chunk as int == k as int * 0x20_0000,
                        chunk < 0xffff_ffff_ffe0_0000u64,
                ;
                assert(k << 21u64 == chunk) by (bit_vector)
                    requires
                        chunk == k * 0x20_0000u64,
                        k < 0x800_0000_0000u64,
                ;
            }
            let ghost before = *self;
            if described(chunk, descs, fb) {
                if needs_pages(chunk, whole, fb) {
                    let mut page: u64 = chunk;
                    let mut j: u64 = 0;
                    proof {
                        assert(page == (((k << 21u64) + (j << 12u64)) as u64)) by (bit_vector)
                            requires
                                page == k << 21u64,
                                j == 0,
                        ;
                    }
                    while j < 512
                        invariant
                            self.wf(),
                            tables.valid(),
                            self.root_table() == s0.root_table(),
                            tables.pool().subset_of(pool0),
                            self.tables() == s0.tables() + (pool0 - tables.pool()),
                            tables.pool().disjoint(self.tables()),
                            k < 0x800_0000_0000,
                            chunk == k << 21u64,
                            chunk as int == k as int * HUGE_SIZE,
                            chunk < top,
                            top <= TOP_LIMIT,
                            j <= 512,
                            page as int == chunk as int + j as int * PAGE_SIZE,
                            page == (((k << 21u64) + (j << 12u64)) as u64),
                            described_spec(chunk as int, descs@, fb),
                            needs_pages_spec(chunk as int, whole_image(image), fb),
                            forall|w: u64| (w >> 21u64) == k && (w >> 12u64) & 511 < j ==> #[trigger] self.leaf(w) == filled_leaf(
                                s0.leaf(w),
                                w,
                                t,
                                descs@,
                                fb,
                                image,
                            ),
                            forall|w: u64| (w >> 21u64) == k && (w >> 12u64) & 511 >= j ==> #[trigger] self.leaf(w) == s0.leaf(w),
                            forall|w: u64| (w >> 21u64) == k ==> #[trigger] self.large(w) == s0.large(w),
                            forall|w: u64| (w >> 21u64) != k ==> #[trigger] self.leaf(w) == before.leaf(w),
                            forall|w: u64| (w >> 21u64) != k ==> #[trigger] self.large(w) == before.large(w),
                            s0 == *old(self),
                            pool0 == old(tables).pool(),
                            t == top_spec(descs@, fb),
                            top as int == t,
                        decreases 512 - j,
                    {
                        proof {
                            lemma_page_in_chunk(k, j, 0);
                        }
                        let ghost mid = *self;
                        match permission(page, fb, image) {
                            Some(flags) => {
                                self.map_page(tables, page, page, flags)?;
                                proof {
                                    assert forall|w: u64| (w >> 21u64) == k && (w >> 12u64) & 511 < j + 1 implies #[trigger] self.leaf(w)
                                        == filled_leaf(s0.leaf(w), w, t, descs@, fb, image) by {
                                        lemma_page_in_chunk(k, j, w);
                                        lemma_chunk_bits(w);
                                        if (w >> 12u64) & 511 == j {
                                            lemma_same_page_same_leaf(self.mem(), self.root_table(), w, page);
                                            assert(page_of(w) == page) by {
                                                assert(page >> 12u64 == w >> 12u64);
                                                assert(page_of(page) == page);
                                            }
                                            assert(chunk_of(w) == chunk);
                                        } else {
                                            assert(w >> 12u64 != page >> 12u64);
                                        }
                                    }
                                    assert forall|w: u64| (w >> 21u64) == k && (w >> 12u64) & 511 >= j + 1 implies #[trigger] self.leaf(w)
                                        == s0.leaf(w) by {
                                        lemma_page_in_chunk(k, j, w);
                                        assert(w >> 12u64 != page >> 12u64);
                                    }
                                    assert forall|w: u64| (w >> 21u64) != k implies #[trigger] self.leaf(w) == before.leaf(w) by {
                                        lemma_page_in_chunk(k, j, w);
                                        assert(w >> 12u64 != page >> 12u64) by (bit_vector)
                                            requires
                                                w >> 21u64 != k,
                                                page >> 21u64 == k,
                                        ;
                                    }
                                }
                            },
                            None => {
                                proof {
                                    assert forall|w: u64| (w >> 21u64) == k && (w >> 12u64) & 511 < j + 1 implies #[trigger] self.leaf(w)
                                        == filled_leaf(s0.leaf(w), w, t, descs@, fb, image) by {
                                        lemma_page_in_chunk(k, j, w);
                                        lemma_chunk_bits(w);
                                        if (w >> 12u64) & 511 == j {
                                            assert(page_of(w) == page) by {
                                                assert(page >> 12u64 == w >> 12u64);
                                                assert(page_of(page) == page);
                                            }
                                            assert(chunk_of(w) == chunk);
                                        }
                                    }
                                }
                            },
                        }
                        page = page + PAGE_SIZE;
                        j = j + 1;
                        proof {
                            assert(page == (((k << 21u64) + (j << 12u64)) as u64)) by (bit_vector)
                                requires
                                    page == ((((k << 21u64) + (((j - 1) as u64) << 12u64)) as u64) + 4096) as u64,
                                    j >= 1,
                                    j <= 512,
                            ;
                        }
                    }
                    proof {
                        assert forall|w: u64| (w >> 21u64) == k implies #[trigger] self.large(w) == filled_large(
                            s0.large(w),
                            w,
                            t,
                            descs@,
                            fb,
                            image,
                        ) by {
                            lemma_chunk_bits(w);
                            assert(chunk_of(w) == chunk);
                        }
                        assert forall|w: u64| (w >> 21u64) == k implies #[trigger] self.leaf(w) == filled_leaf(
                            s0.leaf(w),
                            w,
                            t,
                            descs@,
                            fb,
                            image,
                        ) by {
                            lemma_chunk_bits(w);
                        }
                    }
                } else {
                    self.map_huge(tables, chunk, chunk, WRITABLE | NO_EXECUTE)?;
                    proof {
                        lemma_chunk_bits(chunk);
                        assert(chunk >> 21u64 == k) by (bit_vector)
                            requires
                                chunk == k << 21u64,
                                k < 0x800_0000_0000u64,
                        ;
                        assert forall|w: u64| (w >> 21u64) == k implies #[trigger] self.leaf(w) == filled_leaf(
                            s0.leaf(w),
                            w,
                            t,
                            descs@,
                            fb,
                            image,
                        ) by {
                            lemma_chunk_bits(w);
                            assert(chunk_of(w) == chunk);
                            assert(w >> 21u64 == chunk >> 21u64);
                        }
                        assert forall|w: u64| (w >> 21u64) == k implies #[trigger] self.large(w) == filled_large(
                            s0.large(w),
                            w,
                            t,
                            descs@,
                            fb,
                            image,
                        ) by {
                            lemma_chunk_bits(w);
                            assert(chunk_of(w) == chunk);
                            assert(w >> 21u64 == chunk >> 21u64);
                            assert(self.leaf(w) is None);
                        }
                        assert forall|w: u64| (w >> 21u64) != k implies #[trigger] self.leaf(w) == before.leaf(w) by {
                            assert(w >> 21u64 != chunk >> 21u64);
                        }
                        assert forall|w: u64| (w >> 21u64) != k implies #[trigger] self.large(w) == before.large(w) by {
                            assert(w >> 21u64 != chunk >> 21u64);
                        }
                    }
                }
            } else {
                proof {
                    assert forall|w: u64| (w >> 21u64) == k implies #[trigger] self.leaf(w) == filled_leaf(
                        s0.leaf(w),
                        w,
                        t,
                        descs@,
                        fb,
                        image,
                    ) by {
                        lemma_chunk_bits(w);
                        assert(chunk_of(w) == chunk);
                    }
                    assert forall|w: u64| (w >> 21u64) == k implies #[trigger] self.large(w) == filled_large(
                        s0.large(w),
                        w,
                        t,
                        descs@,
                        fb,
                        image,
                    ) by {
                        lemma_chunk_bits(w);
                        assert(chunk_of(w) == chunk);
                    }
                }
            }
            chunk = chunk + HUGE_SIZE;
            k = k + 1;
        }
        proof {
            assert forall|w: u64| (w >> 21u64) >= k implies #[trigger] self.leaf(w) == filled_leaf(s0.leaf(w), w, t, descs@, fb, image) by {
                lemma_chunk_bits(w);
            }
            assert forall|w: u64| (w >> 21u64) >= k implies #[trigger] self.large(w) == filled_large(s0.large(w), w, t, descs@, fb, image) by {
                lemma_chunk_bits(w);
            }
        }
        let ghost done = *self;
        self.map_page(tables, crate::apic::LOCAL_APIC, crate::apic::LOCAL_APIC, WRITABLE | NO_EXECUTE | CACHE_DISABLE | WRITE_THROUGH)?;
        proof {
            assert(WRITABLE | NO_EXECUTE | CACHE_DISABLE | WRITE_THROUGH == APIC_FLAGS) by (bit_vector);
            assert forall|w: u64| page_of(w) != page_of(crate::apic::LOCAL_APIC) implies #[trigger] self.leaf(w) == filled_leaf(
                s0.leaf(w),
                w,
                t,
                descs@,
                fb,
                image,
            ) by {
                lemma_chunk_bits(w);
                lemma_chunk_bits(crate::apic::LOCAL_APIC);
                assert(w >> 12u64 != crate::apic::LOCAL_APIC >> 12u64);
                if (w >> 21u64) < k {
                } else {
                }
            }
            assert forall|w: u64| page_of(w) == page_of(crate::apic::LOCAL_APIC) implies #[trigger] self.leaf(w) == Some(
                page_leaf(crate::apic::LOCAL_APIC, APIC_FLAGS),
            ) by {
                lemma_chunk_bits(w);
                lemma_chunk_bits(crate::apic::LOCAL_APIC);
                lemma_same_page_same_leaf(self.mem(), self.root_table(), w, crate::apic::LOCAL_APIC);
            }
            assert forall|w: u64| #[trigger] self.large(w) == filled_large(s0.large(w), w, t, descs@, fb, image) by {
                assert(done.large(w) == self.large(w));
                if (w >> 21u64) < k {
                    assert(done.large(w) == filled_large(s0.large(w), w, t, descs@, fb, image));
                } else {
                    assert(done.large(w) == filled_large(s0.large(w), w, t, descs@, fb, image));
                }
            }
        }
        Ok(())
    }
}


/// Builds the nucleus's own address space over this machine, identity for
/// identity. A space that could not be finished is nobody's: its tables go
/// back to the source, which ends as it began.
pub fn build<S: TableSource>(tables: &mut S, fb: Option<Span>, image: ImageParts, descs: &[(u64, u64)]) -> (r: Result<AddressSpace, PagingRefused>)
    requires
        old(tables).valid(),
        top_spec(descs@, fb) <= TOP_LIMIT,
    ensures
        final(tables).valid(),
        r is Err ==> final(tables).pool() == old(tables).pool(),
        r matches Ok(space) ==> {
            &&& space.wf()
            &&& final(tables).pool().subset_of(old(tables).pool())
            &&& space.tables() == old(tables).pool() - final(tables).pool()
            &&& forall|w: u64| page_of(w) != page_of(crate::apic::LOCAL_APIC) ==> #[trigger] space.leaf(w) == filled_leaf(
                None,
                w,
                top_spec(descs@, fb),
                descs@,
                fb,
                image,
            )
            &&& forall|w: u64| #[trigger] space.large(w) == filled_large(None, w, top_spec(descs@, fb), descs@, fb, image)
            &&& forall|w: u64| page_of(w) == page_of(crate::apic::LOCAL_APIC) ==> #[trigger] space.leaf(w) == Some(
                page_leaf(crate::apic::LOCAL_APIC, APIC_FLAGS),
            )
        },
{
    let ghost pool0 = tables.pool();
    let mut space = AddressSpace::new(tables)?;
    let ghost root = space.root_table();
    let ghost fresh = space;
    proof {
        tables.lemma_valid();
    }
    match space.fill(tables, fb, image, descs) {
        Ok(()) => {
            proof {
                assert(space.tables() =~= pool0 - tables.pool());
                assert forall|w: u64| page_of(w) != page_of(crate::apic::LOCAL_APIC) implies #[trigger] space.leaf(w) == filled_leaf(
                    None,
                    w,
                    top_spec(descs@, fb),
                    descs@,
                    fb,
                    image,
                ) by {
                    assert(fresh.leaf(w) is None);
                }
                assert forall|w: u64| #[trigger] space.large(w) == filled_large(None, w, top_spec(descs@, fb), descs@, fb, image) by {
                    assert(fresh.large(w) is None);
                }
            }
            Ok(space)
        },
        Err(e) => {
            let ghost taken = space.tables();
            space.release_tables(tables);
            proof {
                assert(tables.pool() =~= pool0);
            }
            Err(e)
        },
    }
}


/// Page zero stays absent in every identity map: a null dereference
/// faults, whatever the machine reported.
pub proof fn lemma_page_zero_stays_absent(w: u64, top: int, descs: Seq<(u64, u64)>, fb: Option<Span>, image: ImageParts)
    requires
        w < PAGE_SIZE,
    ensures
        filled_leaf(None, w, top, descs, fb, image) is None,
        filled_large(None, w, top, descs, fb, image) is None,
{
    assert(w < 4096u64 ==> (w >> 12u64) << 12u64 == 0u64 && (w >> 21u64) << 21u64 == 0u64) by (bit_vector);
}

/// Only the image's text is ever executable, and it is never writable;
/// read-only data is never writable; the framebuffer is never cached.
pub proof fn lemma_only_text_executes(p: u64, fb: Option<Span>, image: ImageParts)
    ensures
        permission_spec(p, fb, image) matches Some(f) ==> (f & NO_EXECUTE == 0 ==> holds(image.text, p as int) && f & WRITABLE
            == 0),
        permission_spec(p, fb, image) matches Some(f) ==> (holds(image.rodata, p as int) && !holds(image.text, p as int) && !(
        fb matches Some(b) && holds(b, p as int)) ==> f & WRITABLE == 0),
        (fb matches Some(b) && holds(b, p as int) && p >= PAGE_SIZE) ==> (permission_spec(p, fb, image) matches Some(f)
            && f & CACHE_DISABLE != 0 && f & NO_EXECUTE != 0),
{
    assert((2u64 | 0x8000_0000_0000_0000u64 | 16u64 | 8u64) & 0x8000_0000_0000_0000u64 != 0 && (2u64 | 0x8000_0000_0000_0000u64
        | 16u64 | 8u64) & 16u64 != 0 && (2u64 | 0x8000_0000_0000_0000u64) & 0x8000_0000_0000_0000u64 != 0 && 0x8000_0000_0000_0000u64
        & 2u64 == 0 && 0x8000_0000_0000_0000u64 & 0x8000_0000_0000_0000u64 != 0 && 0u64 & 2u64 == 0) by (bit_vector);
}


/// A page mapped and then cleared hands back the frame it was mapped to, and
/// leaves nothing mapped there: `clear_leaf` after a successful `map_page`
/// returns `phys` to its frame, whenever `flags` holds no address bits.
pub proof fn lemma_clear_returns_mapped_frame(
    mapped: &AddressSpace,
    cleared: &AddressSpace,
    virt: u64,
    phys: u64,
    flags: u64,
    r: Option<u64>,
)
    requires
        flags & ADDRESS == 0,
        mapped.leaf(virt) == Some(page_leaf(phys, flags)),
        r == translation(mapped.mem(), mapped.root_table(), virt),
        cleared.leaf(virt) is None,
    ensures
        r == Some(phys & ADDRESS),
        translation(cleared.mem(), cleared.root_table(), virt) is None,
{
    assert((((phys & 0x000f_ffff_ffff_f000u64) | flags | 1u64) & 0x000f_ffff_ffff_f000u64) == phys & 0x000f_ffff_ffff_f000u64) by (bit_vector)
        requires
            flags & 0x000f_ffff_ffff_f000u64 == 0,
    ;
}

} // verus!
