//! What a process table records about a process that the rest of the
//! nucleus asks about: why a context is blocked, how a process ended, why
//! one could not be launched; and how a process is built: where its parts are
//! mapped, what memory it is given and gets back, and how its launch record
//! is laid out.
use vstd::prelude::*;
use crate::launch::{lemma_paths_length_grows, paths_length, Template};
use crate::dma::Span;
use crate::paging::{
    huge_path_blocked, page_leaf, page_refusal, path_blocked, path_needs, AddressSpace, PagingRefused, TableSource,
    VIRTUAL_LIMIT,
};

verus! {

/// How many processes may exist at once.
pub const MAX_PROCESSES: usize = 4;

/// What a blocked context is waiting for. Every variant names a handle the
/// process holds: a context never waits on authority nobody granted.
#[derive(Clone, Copy, Debug, PartialEq, Eq, Structural)]
pub enum Waiting {
    /// Nothing: the context is not blocked.
    Nothing,
    /// A message on this endpoint.
    Message(u32),
    /// Room in this endpoint's queue.
    Room(u32),
    /// The answer to a call this context made.
    Reply,
    /// An ending among the direct children of this process instance.
    ChildOf(u64),
    /// An interrupt on this routed source, by index and generation.
    Interrupt(u32, u32),
}

impl Waiting {
    /// The endpoint it is waiting on, or zero when it waits on none.
    pub fn endpoint(&self) -> (e: u32)
        ensures
            e == (match *self {
                Waiting::Message(endpoint) => endpoint,
                Waiting::Room(endpoint) => endpoint,
                _ => 0,
            }),
    {
        match self {
            Waiting::Message(endpoint) => *endpoint,
            Waiting::Room(endpoint) => *endpoint,
            _ => 0,
        }
    }
}

/// How a process ended: the architecture's, its own claim, the system's, or
/// another party's decision, never merged.
#[derive(Clone, Copy, Debug, PartialEq, Eq, Structural)]
pub enum Ended {
    /// It took a fault at CPL 3; the vector is the architecture's.
    Fault(u64),
    /// It said so itself, with its own status.
    Exited(u64),
    /// The system could not continue and it was one of the contexts that
    /// could not be continued.
    Deadlocked,
    /// Somebody holding authority over it ended it; the slot names who.
    Terminated(usize),
}

/// Why a process could not be launched.
#[derive(Clone, Copy, Debug, PartialEq, Eq, Structural)]
pub enum Unlaunchable {
    /// The handoff record declared no runtime image.
    NoRuntimeImage,
    /// The pool could not back the process's memory.
    OutOfFrames,
    /// A mapping could not be made.
    Paging(PagingRefused),
    /// More source units than the launch record can carry.
    TooManyUnits,
    /// The image is not a runtime image of a version this nucleus knows.
    NotARuntimeImage,
    /// Every slot of the process table is taken.
    TooManyProcesses,
    /// The entry index names no unit of this boot's source set.
    NoSuchModule,
}

/// A path relative to the module root: a leading `/` goes.
pub open spec fn relative_path(path: Seq<u8>) -> Seq<u8> {
    if path.len() > 0 && path[0] == 47 {
        path.drop_first()
    } else {
        path
    }
}

/// A path relative to the module root: a leading `/` goes, and nothing else
/// changes.
pub fn relative(path: &[u8]) -> (r: &[u8])
    ensures
        r@ == relative_path(path@),
{
    if path.len() > 0 && path[0] == 47 {
        vstd::slice::slice_subrange(path, 1, path.len())
    } else {
        path
    }
}


impl From<PagingRefused> for Unlaunchable {
    /// A mapping that could not be made is why the process could not be.
    fn from(refused: PagingRefused) -> (u: Self) {
        Unlaunchable::Paging(refused)
    }
}

impl vstd::std_specs::convert::FromSpecImpl<PagingRefused> for Unlaunchable {
    open spec fn obeys_from_spec() -> bool {
        true
    }

    open spec fn from_spec(refused: PagingRefused) -> Self {
        Unlaunchable::Paging(refused)
    }
}

// ---------------------------------------------------------------------------
// Building a process: where its parts go, and what its launch record holds.

/// Where a process's parts live in its own address space: the same fixed
/// addresses in every process, so that they are part of the launch boundary.
pub const IMAGE: u64 = 0x1000_0000;
pub const RECORD: u64 = 0x2000_0000;
pub const SOURCE: u64 = 0x2100_0000;
pub const GRANT: u64 = 0x3000_0000;
pub const STACK: u64 = 0x5000_0000;
pub const REPORT: u64 = 0x6000_0000;
pub const ARGUMENTS: u64 = 0x7000_0000;
/// The most a launch record may occupy: a bound on how much of the nucleus's
/// memory one process's description may cost.
pub const MAX_RECORD_BYTES: u64 = 0x4_0000;
/// Frames of stack, of report region, and of message slot a process is given.
pub const STACK_FRAMES: u64 = 512;
pub const REPORT_FRAMES: u64 = 16;
pub const ARGUMENT_FRAMES: u64 = 1;
/// Where the top of a process's stack is.
pub const STACK_TOP: u64 = 0x5020_0000;
/// Bytes in one frame.
pub const FRAME_SIZE: u64 = 4096;

/// The registers the scheduler saves when it hands the processor to a
/// process, restored when the process ends.
pub struct Context {
    saved: [u64; 8],
}

impl Context {
    /// The saved registers.
    pub closed spec fn registers(&self) -> Seq<u64> {
        self.saved@
    }

    /// Nothing saved yet.
    pub fn empty() -> (c: Context)
        ensures
            c.registers() == Seq::new(8, |i: int| 0u64),
    {
        let c = Context { saved: [0u64; 8] };
        assert(c.registers() =~= Seq::new(8, |i: int| 0u64));
        c
    }
}

/// The header a runtime image begins with: its magic, where it is entered,
/// where its text ends, how much of it the file carries, and how much memory
/// it occupies.
#[derive(Clone, Copy, Debug, PartialEq, Eq, Structural)]
pub struct ImageHeader {
    pub magic: u64,
    pub entry: u64,
    pub text: u64,
    pub file: u64,
    pub memory: u64,
}

/// Whether a header describes an image this nucleus can launch: the magic it
/// expects, an entry inside the text, text, file and memory in that order,
/// text and memory ending on frames, and text that the bytes which arrived
/// actually hold.
pub open spec fn image_ok(h: ImageHeader, magic: u64, image_length: u64) -> bool {
    &&& h.magic == magic
    &&& h.entry < h.text
    &&& h.text <= h.file
    &&& h.file <= h.memory
    &&& h.text % FRAME_SIZE == 0
    &&& h.memory % FRAME_SIZE == 0
    &&& h.text <= image_length
}

/// Checks a runtime image's header against the bytes that arrived; every
/// boundary is read from the image, never assumed.
pub fn check_image(h: ImageHeader, magic: u64, image_length: u64) -> (r: Result<(), Unlaunchable>)
    ensures
        r == (if image_ok(h, magic, image_length) {
            Ok::<(), Unlaunchable>(())
        } else {
            Err(Unlaunchable::NotARuntimeImage)
        }),
{
    if h.magic != magic || h.entry >= h.text || h.text > h.file || h.file > h.memory || h.text % FRAME_SIZE != 0
        || h.memory % FRAME_SIZE != 0 || h.text > image_length {
        Err(Unlaunchable::NotARuntimeImage)
    } else {
        Ok(())
    }
}

/// How many bytes of the writable page at `offset` the image file carries:
/// what is left of the file from there, at most one frame. The rest of the
/// page is what a fresh frame already is, zero.
pub fn carried(image_length: u64, offset: u64) -> (n: u64)
    ensures
        n == (if offset >= image_length {
            0
        } else if image_length - offset < FRAME_SIZE {
            image_length - offset
        } else {
            FRAME_SIZE as int
        }),
{
    let left = image_length.saturating_sub(offset);
    if left < FRAME_SIZE {
        left
    } else {
        FRAME_SIZE
    }
}

/// Where a capsule is mapped from: the frame it starts in, since a page table
/// addresses frames, and how far into that frame its first byte lies.
pub fn capsule_frame(start: u64) -> (r: (u64, u64))
    ensures
        r.0 + r.1 == start,
        r.0 % FRAME_SIZE == 0,
        r.1 == start % FRAME_SIZE,
{
    let skew = start % FRAME_SIZE;
    (start - skew, skew)
}

/// The sizes of a launch record's parts, as its format lays them out: the
/// fixed record, one unit entry, one capability entry.
#[derive(Clone, Copy, Debug, PartialEq, Eq, Structural)]
pub struct RecordSizes {
    pub launch: u64,
    pub unit: u64,
    pub capability: u64,
}

/// Where a launch record's parts go: the unit table's address in the
/// process, the offset of the paths after it, the offset of the endowment's
/// description after the paths, and the bytes the whole record takes.
#[derive(Clone, Copy, Debug, PartialEq, Eq, Structural)]
pub struct RecordLayout {
    pub units: u64,
    pub tail: u64,
    pub capabilities_at: u64,
    pub bytes: u64,
}

/// The bytes a record takes: the record, a unit entry per unit, every
/// module-root-relative path, and a capability entry per endowed capability.
pub open spec fn record_total(sizes: RecordSizes, count: int, paths: int, endowed: int) -> int {
    sizes.launch + count * sizes.unit + paths + endowed * sizes.capability
}

/// Lays out the launch record for the units of `t` and `endowed` endowed
/// capabilities, laid end to end in the order they were sized in, or refuses
/// a record larger than the nucleus will describe one process with.
pub fn record_layout(t: &Template, sizes: RecordSizes, endowed: u64) -> (r: Result<RecordLayout, Unlaunchable>)
    ensures
        ({
            let units = t.units_view();
            let n = units.len() as int;
            let paths = paths_length(units, n);
            let total = record_total(sizes, n, paths, endowed as int);
            &&& total > MAX_RECORD_BYTES ==> r == Err::<RecordLayout, Unlaunchable>(Unlaunchable::TooManyUnits)
            &&& total <= MAX_RECORD_BYTES ==> r == Ok::<RecordLayout, Unlaunchable>(RecordLayout {
                units: (RECORD + sizes.launch) as u64,
                tail: (sizes.launch + n * sizes.unit) as u64,
                capabilities_at: (sizes.launch + n * sizes.unit + paths) as u64,
                bytes: total as u64,
            })
        }),
{
    let units = t.units();
    let n = units.len() as u64;
    let ghost uv = t.units_view();
    proof {
        assert(units@.map_values(|x: crate::launch::Unit| crate::launch::unit_view(x)) == uv);
        assert(uv.len() == units@.len());
        assert(0 <= n * sizes.unit) by (nonlinear_arith);
        assert(0 <= endowed * sizes.capability) by (nonlinear_arith);
        lemma_paths_length_grows(uv, 0, uv.len() as int);
    }
    let table = match n.checked_mul(sizes.unit) {
        Some(b) => b,
        None => return Err(Unlaunchable::TooManyUnits),
    };
    let described = match endowed.checked_mul(sizes.capability) {
        Some(b) => b,
        None => return Err(Unlaunchable::TooManyUnits),
    };
    let mut paths: u64 = 0;
    let mut k: usize = 0;
    while k < units.len()
        invariant
            k <= units.len(),
            uv == units@.map_values(|x: crate::launch::Unit| crate::launch::unit_view(x)),
            uv.len() == units@.len(),
            paths == paths_length(uv, k as int),
            paths <= MAX_RECORD_BYTES,
            n == uv.len(),
            uv == t.units_view(),
            0 <= n * sizes.unit,
            0 <= endowed * sizes.capability,
        decreases units.len() - k,
    {
        let name = units[k].0.as_slice();
        proof {
            assert(uv[k as int].0 == name@);
            lemma_paths_length_grows(uv, k as int + 1, uv.len() as int);
        }
        let length = crate::process::relative(name).len() as u64;
        if length > MAX_RECORD_BYTES - paths {
            return Err(Unlaunchable::TooManyUnits);
        }
        paths = paths + length;
        k = k + 1;
    }
    if sizes.launch > MAX_RECORD_BYTES || table > MAX_RECORD_BYTES - sizes.launch {
        return Err(Unlaunchable::TooManyUnits);
    }
    let tail = sizes.launch + table;
    if paths > MAX_RECORD_BYTES - tail {
        return Err(Unlaunchable::TooManyUnits);
    }
    let capabilities_at = tail + paths;
    if described > MAX_RECORD_BYTES - capabilities_at {
        return Err(Unlaunchable::TooManyUnits);
    }
    Ok(RecordLayout { units: RECORD + sizes.launch, tail, capabilities_at, bytes: capabilities_at + described })
}

/// One entry of a launch record's unit table: where the unit's path is in
/// the process, how long it is, where its bytes are, and how many.
#[derive(Clone, Copy, Debug, PartialEq, Eq, Structural)]
pub struct UnitEntry {
    pub path: u64,
    pub path_length: u64,
    pub bytes: u64,
    pub bytes_length: u64,
}

/// The unit table's entry for unit `index`: its path in the record's tail,
/// after the relative paths of the units before it; its bytes where they lie
/// in the mapped capsule, `within` bytes after the capsule's first, which
/// the mapping moved `skew` bytes into its first frame. Nothing is copied:
/// the process reads the bytes whose digest the boot accounted for.
pub fn unit_entry(t: &Template, index: usize, layout: RecordLayout, skew: u64, within: u64) -> (e: UnitEntry)
    requires
        index < t.units_view().len(),
        RECORD + layout.tail + paths_length(t.units_view(), t.units_view().len() as int) <= u64::MAX,
        SOURCE + skew + within <= u64::MAX,
    ensures
        e == (UnitEntry {
            path: (RECORD + layout.tail + paths_length(t.units_view(), index as int)) as u64,
            path_length: crate::process::relative_path(t.units_view()[index as int].0).len() as u64,
            bytes: (SOURCE + skew + within) as u64,
            bytes_length: t.units_view()[index as int].1.len() as u64,
        }),
{
    let units = t.units();
    proof {
        assert(units@.map_values(|x: crate::launch::Unit| crate::launch::unit_view(x)) == t.units_view());
        assert(t.units_view()[index as int] == crate::launch::unit_view(units@[index as int]));
        lemma_paths_length_grows(t.units_view(), index as int, t.units_view().len() as int);
    }
    let offset = t.path_offset(index);
    let path_length = crate::process::relative(units[index].0.as_slice()).len() as u64;
    UnitEntry {
        path: RECORD + layout.tail + offset,
        path_length,
        bytes: SOURCE + skew + within,
        bytes_length: units[index].1.len() as u64,
    }
}

/// The `k`th page from `at`.
pub open spec fn page_at(at: u64, k: int) -> u64 {
    (at + k * 4096) as u64
}

/// How many pages `length` bytes take, the last one possibly partial.
pub open spec fn pages_in(length: int) -> int {
    (length + 4095) / 4096
}

/// Two addresses in one page are walked alike.
proof fn lemma_same_page(v: u64, w: u64)
    requires
        w >> 12u64 == v >> 12u64,
    ensures
        crate::paging::l4_of(w) == crate::paging::l4_of(v),
        crate::paging::l3_of(w) == crate::paging::l3_of(v),
        crate::paging::l2_of(w) == crate::paging::l2_of(v),
        crate::paging::l1_of(w) == crate::paging::l1_of(v),
        (w < crate::paging::VIRTUAL_LIMIT) == (v < crate::paging::VIRTUAL_LIMIT),
{
    assert(w >> 12u64 == v >> 12u64 ==> (w >> 39u64) & 511 == (v >> 39u64) & 511 && (w >> 30u64) & 511 == (v >> 30u64) & 511
        && (w >> 21u64) & 511 == (v >> 21u64) & 511 && (w >> 12u64) & 511 == (v >> 12u64) & 511
        && (w < 0x1_0000_0000_0000u64) == (v < 0x1_0000_0000_0000u64)) by (bit_vector);
}

/// A page below the limit, with no large leaf on its path nor over it, can
/// be mapped whenever three frames are left for tables.
proof fn lemma_page_can_map(space: AddressSpace, virt: u64, available: nat)
    requires
        virt < VIRTUAL_LIMIT,
        huge_path_blocked(space.mem(), space.root_table(), virt) is None,
        space.large(virt) is None,
        available >= 3,
    ensures
        page_refusal(space.mem(), space.root_table(), virt, available) is None,
        path_needs(space.mem(), space.root_table(), virt) <= 3,
{
    assert(path_blocked(space.mem(), space.root_table(), virt) is None);
}

/// Pages one frame apart are distinct pages.
proof fn lemma_page_step(at: u64, k: int)
    requires
        0 <= k,
        at + k * 4096 <= u64::MAX,
    ensures
        page_at(at, k) >> 12u64 == (at >> 12u64) + k,
{
    let v = page_at(at, k);
    assert(v >> 12u64 == v / 4096u64) by (bit_vector);
    assert(at >> 12u64 == at / 4096u64) by (bit_vector);
    vstd::arithmetic::div_mod::lemma_hoist_over_denominator(at as int, k, 4096);
}

/// Whether `n` pages from `at` can all be mapped, with `per_page` frames of
/// the pool spent on each at most: every page is below the limit, none has a
/// large leaf on its path or over it, and the pool holds enough.
pub open spec fn range_can_map(space: AddressSpace, at: u64, n: int, available: nat, per_page: int) -> bool {
    &&& at + n * 4096 <= VIRTUAL_LIMIT
    &&& forall|k: int|
        0 <= k < n ==> huge_path_blocked(space.mem(), space.root_table(), #[trigger] page_at(at, k)) is None
            && space.large(page_at(at, k)) is None
    &&& available >= per_page * n
}

/// Maps a physically contiguous range into a process, frame by frame, at
/// `at`. Every page before one the space refuses is mapped as asked, the
/// refused one and every page after it keep what they had, and no page
/// outside the range changes.
pub fn map_range<S: TableSource>(space: &mut AddressSpace, tables: &mut S, at: u64, range: Span, flags: u64) -> (r: Result<(), Unlaunchable>)
    requires
        old(space).wf(),
        old(tables).valid(),
        old(tables).pool().disjoint(old(space).tables()),
        range.start <= range.end,
        at + (range.end - range.start) + 4096 <= u64::MAX,
        range.end + 4096 <= u64::MAX,
    ensures
        final(space).wf(),
        final(tables).valid(),
        final(space).root_table() == old(space).root_table(),
        final(tables).pool().subset_of(old(tables).pool()),
        final(space).tables() == old(space).tables() + (old(tables).pool() - final(tables).pool()),
        final(tables).pool().disjoint(final(space).tables()),
        ({
            let n = pages_in(range.end - range.start);
            &&& r is Ok ==> forall|k: int| 0 <= k < n ==> #[trigger] final(space).leaf(page_at(at, k)) == Some(
                page_leaf(page_at(range.start, k), flags),
            )
            &&& r is Err ==> r->Err_0 is Paging && exists|k: int|
                #![trigger page_at(at, k)]
                0 <= k < n && final(space).leaf(page_at(at, k)) == old(space).leaf(page_at(at, k)) && (forall|j: int| 0 <= j < k ==> #[trigger] final(space).leaf(page_at(at, j)) == Some(
                    page_leaf(page_at(range.start, j), flags),
                )) && (forall|w: u64| (w >> 12u64) >= (at >> 12u64) + k ==> #[trigger] final(space).leaf(w)
                    == old(space).leaf(w))
            &&& forall|w: u64| (w >> 12u64) < (at >> 12u64) || (w >> 12u64) >= (at >> 12u64) + n ==> #[trigger] final(space).leaf(w)
                == old(space).leaf(w)
            &&& range_can_map(*old(space), at, n, old(tables).pool().len(), 3) ==> r is Ok
        }),
        forall|w: u64| #[trigger] final(space).large(w) == old(space).large(w),
{
    let length = range.end - range.start;
    let ghost n = pages_in(length as int);
    let ghost can = range_can_map(*old(space), at, n, old(tables).pool().len(), 3);
    let mut offset: u64 = 0;
    let ghost mut k: int = 0;
    while offset < length
        invariant
            space.wf(),
            tables.valid(),
            tables.pool().disjoint(space.tables()),
            space.root_table() == old(space).root_table(),
            tables.pool().subset_of(old(tables).pool()),
            space.tables() == old(space).tables() + (old(tables).pool() - tables.pool()),
            length == range.end - range.start,
            n == pages_in(length as int),
            at + length + 4096 <= u64::MAX,
            range.end + 4096 <= u64::MAX,
            offset == k * 4096,
            0 <= k <= n,
            offset < length ==> k < n,
            forall|j: int| 0 <= j < k ==> #[trigger] space.leaf(page_at(at, j)) == Some(page_leaf(page_at(range.start, j), flags)),
            forall|w: u64| (w >> 12u64) < (at >> 12u64) || (w >> 12u64) >= (at >> 12u64) + k ==> #[trigger] space.leaf(w)
                == old(space).leaf(w),
            forall|w: u64| #[trigger] space.large(w) == old(space).large(w),
            can == range_can_map(*old(space), at, n, old(tables).pool().len(), 3),
            can ==> at + n * 4096 <= VIRTUAL_LIMIT && tables.pool().len() >= 3 * (n - k) && forall|j: int|
                k <= j < n ==> huge_path_blocked(space.mem(), space.root_table(), #[trigger] page_at(at, j)) is None
                    && space.large(page_at(at, j)) is None,
        decreases n - k,
    {
        let virt = at + offset;
        let ghost before = *space;
        let ghost pool_before = tables.pool().len();
        proof {
            lemma_page_step(at, k);
            assert(virt == page_at(at, k));
            if can {
                assert(page_at(at, k) < VIRTUAL_LIMIT) by (nonlinear_arith)
                    requires
                        page_at(at, k) == at + k * 4096,
                        at + n * 4096 <= VIRTUAL_LIMIT,
                        k < n,
                ;
                assert(huge_path_blocked(space.mem(), space.root_table(), page_at(at, k)) is None);
                lemma_page_can_map(*space, virt, tables.pool().len());
            }
        }
        match space.map_page(tables, virt, range.start + offset, flags) {
            Ok(()) => {
                proof {
                    if can {
                        lemma_page_can_map(before, virt, pool_before);
                        assert forall|j: int| k + 1 <= j < n implies huge_path_blocked(space.mem(), space.root_table(), #[trigger] page_at(at, j)) is None
                            && space.large(page_at(at, j)) is None by {
                            assert(huge_path_blocked(before.mem(), before.root_table(), page_at(at, j)) is None);
                        }
                    }
                    assert(range.start + offset == page_at(range.start, k));
                    assert forall|j: int| 0 <= j < k + 1 implies #[trigger] space.leaf(page_at(at, j)) == Some(
                        page_leaf(page_at(range.start, j), flags),
                    ) by {
                        if j < k {
                            lemma_page_step(at, j);
                            assert(before.leaf(page_at(at, j)) == Some(page_leaf(page_at(range.start, j), flags)));
                        }
                    }
                    assert forall|w: u64| (w >> 12u64) < (at >> 12u64) || (w >> 12u64) >= (at >> 12u64) + k + 1 implies #[trigger] space.leaf(w)
                        == old(space).leaf(w) by {
                        assert(before.leaf(w) == old(space).leaf(w));
                    }
                }
            },
            Err(e) => {
                proof {
                    assert(!can);
                    assert(space.leaf(page_at(at, k)) == old(space).leaf(page_at(at, k)));
                    assert forall|w: u64| (w >> 12u64) >= (at >> 12u64) + k implies #[trigger] space.leaf(w)
                        == old(space).leaf(w) by {
                        if w >> 12u64 != virt >> 12u64 {
                            assert(before.leaf(w) == old(space).leaf(w));
                        } else {
                            lemma_same_page(virt, w);
                            assert(space.leaf(w) == space.leaf(virt));
                            assert(before.leaf(w) == before.leaf(virt));
                        }
                    }
                }
                return Err(Unlaunchable::Paging(e));
            },
        }
        offset = offset + 4096;
        proof {
            k = k + 1;
            assert(offset < length ==> k < n) by {
                assert(k * 4096 < length ==> k < (length + 4095) / 4096) by (nonlinear_arith)
                    requires k >= 0, length >= 0;
            }
        }
    }
    proof {
        assert(k >= n) by {
            assert(k * 4096 >= length ==> k >= (length + 4095) / 4096) by (nonlinear_arith)
                requires k >= 0, length >= 0;
        }
    }
    Ok(())
}

/// Page-table flags, from the process's side of the boundary: present and
/// reachable from ring 3.
pub const PRESENT_USER: u64 = 5;
/// What a fresh frame is mapped with: writable by the process, never
/// executable.
pub const FRESH_FLAGS: u64 = 0x8000_0000_0000_0007;

proof fn lemma_fresh_leaf(f: u64)
    requires
        crate::paging::aligned_frame(f),
    ensures
        crate::paging::target(page_leaf(f, FRESH_FLAGS)) == f,
        FRESH_FLAGS == PRESENT_USER | crate::paging::WRITABLE | crate::paging::NO_EXECUTE,
{
    assert(f & 0x000f_ffff_ffff_f000u64 == f ==> ((f & 0x000f_ffff_ffff_f000u64) | 0x8000_0000_0000_0007u64 | 1u64)
        & 0x000f_ffff_ffff_f000u64 == f) by (bit_vector);
    assert(5u64 | 2u64 | 0x8000_0000_0000_0000u64 == 0x8000_0000_0000_0007u64) by (bit_vector);
}

/// Takes `count` fresh frames from the pool and maps them, one page each,
/// writable and not executable at `at`; answers the first frame, or zero
/// when there is none. Every frame mapped was the pool's, is no longer, is
/// no page table, and is mapped once. No page outside the range changes.
pub fn map_fresh<S: TableSource>(space: &mut AddressSpace, frames: &mut S, at: u64, count: u64) -> (r: Result<u64, Unlaunchable>)
    requires
        old(space).wf(),
        old(frames).valid(),
        old(frames).pool().disjoint(old(space).tables()),
        at + count * 4096 <= u64::MAX,
    ensures
        final(space).wf(),
        final(frames).valid(),
        final(space).root_table() == old(space).root_table(),
        final(frames).pool().subset_of(old(frames).pool()),
        final(space).tables().subset_of(old(space).tables() + old(frames).pool()),
        final(frames).pool().disjoint(final(space).tables()),
        r matches Ok(first) ==> {
            &&& forall|k: int| 0 <= k < count ==> {
                let e = #[trigger] final(space).leaf(page_at(at, k));
                &&& e is Some
                &&& e == Some(page_leaf(crate::paging::target(e.unwrap()), FRESH_FLAGS))
                &&& old(frames).pool().contains(crate::paging::target(e.unwrap()))
                &&& !final(frames).pool().contains(crate::paging::target(e.unwrap()))
                &&& !final(space).tables().contains(crate::paging::target(e.unwrap()))
            }
            &&& forall|j: int, k: int| 0 <= j < k < count ==> crate::paging::target(#[trigger] final(space).leaf(page_at(at, j)).unwrap())
                != crate::paging::target(#[trigger] final(space).leaf(page_at(at, k)).unwrap())
            &&& count > 0 ==> first == crate::paging::target(final(space).leaf(page_at(at, 0)).unwrap())
            &&& count == 0 ==> first == 0
        },
        r matches Err(e) ==> e is OutOfFrames || e is Paging,
        range_can_map(*old(space), at, count as int, old(frames).pool().len(), 4) ==> r is Ok,
        forall|w: u64| (w >> 12u64) < (at >> 12u64) || (w >> 12u64) >= (at >> 12u64) + count ==> #[trigger] final(space).leaf(w)
            == old(space).leaf(w),
        forall|w: u64| #[trigger] final(space).large(w) == old(space).large(w),
{
    let mut first: u64 = 0;
    let mut index: u64 = 0;
    let ghost mut taken: Seq<u64> = Seq::empty();
    let ghost can = range_can_map(*old(space), at, count as int, old(frames).pool().len(), 4);
    while index < count
        invariant
            space.wf(),
            frames.valid(),
            frames.pool().disjoint(space.tables()),
            space.root_table() == old(space).root_table(),
            frames.pool().subset_of(old(frames).pool()),
            space.tables().subset_of(old(space).tables() + old(frames).pool()),
            old(frames).pool().disjoint(old(space).tables()),
            at + count * 4096 <= u64::MAX,
            index <= count,
            taken.len() == index,
            taken.no_duplicates(),
            forall|j: int| 0 <= j < index ==> {
                &&& #[trigger] space.leaf(page_at(at, j)) == Some(page_leaf(taken[j], FRESH_FLAGS))
                &&& crate::paging::target(page_leaf(taken[j], FRESH_FLAGS)) == taken[j]
                &&& old(frames).pool().contains(taken[j])
                &&& !frames.pool().contains(taken[j])
                &&& !space.tables().contains(taken[j])
            },
            index > 0 ==> first == taken[0],
            index == 0 ==> first == 0,
            forall|w: u64| (w >> 12u64) < (at >> 12u64) || (w >> 12u64) >= (at >> 12u64) + index ==> #[trigger] space.leaf(w)
                == old(space).leaf(w),
            forall|w: u64| #[trigger] space.large(w) == old(space).large(w),
            can == range_can_map(*old(space), at, count as int, old(frames).pool().len(), 4),
            can ==> at + count * 4096 <= VIRTUAL_LIMIT && frames.pool().len() >= 4 * (count - index) && forall|j: int|
                index <= j < count ==> huge_path_blocked(space.mem(), space.root_table(), #[trigger] page_at(at, j)) is None
                    && space.large(page_at(at, j)) is None,
        decreases count - index,
    {
        proof {
            frames.lemma_valid();
        }
        let ghost pool_before = frames.pool();
        proof {
            assert forall|j: int| 0 <= j < index implies !pool_before.contains(#[trigger] taken[j]) by {
                assert(space.leaf(page_at(at, j)) == Some(page_leaf(taken[j], FRESH_FLAGS)));
            }
        }
        let frame = match frames.take() {
            Some(f) => f,
            None => {
                proof {
                    if can {
                        assert(pool_before.len() >= 4);
                        assert(pool_before.len() == 0);
                    }
                }
                return Err(Unlaunchable::OutOfFrames);
            },
        };
        proof {
            vstd::set::axiom_set_remove_len(pool_before, frame);
        }
        if index == 0 {
            first = frame;
        }
        proof {
            assert(index * 4096 + 4096 <= count * 4096) by (nonlinear_arith)
                requires index < count;
            lemma_page_step(at, index as int);
            lemma_fresh_leaf(frame);
            assert(!space.tables().contains(frame));
            assert(!taken.contains(frame)) by {
                if taken.contains(frame) {
                    let j = choose|j: int| 0 <= j < taken.len() && taken[j] == frame;
                }
            }
        }
        let virt = at + index * 4096;
        let ghost before = *space;
        let ghost pool_mid = frames.pool();
        proof {
            assert(virt == page_at(at, index as int));
            if can {
                assert(page_at(at, index as int) < VIRTUAL_LIMIT) by (nonlinear_arith)
                    requires
                        page_at(at, index as int) == at + index * 4096,
                        at + count * 4096 <= VIRTUAL_LIMIT,
                        index < count,
                ;
                assert(huge_path_blocked(space.mem(), space.root_table(), page_at(at, index as int)) is None);
                lemma_page_can_map(*space, virt, frames.pool().len());
            }
        }
        match space.map_page(frames, virt, frame, FRESH_FLAGS) {
            Ok(()) => {
                proof {
                    if can {
                        lemma_page_can_map(before, virt, pool_mid.len());
                        assert forall|j: int| index + 1 <= j < count implies huge_path_blocked(space.mem(), space.root_table(), #[trigger] page_at(at, j)) is None
                            && space.large(page_at(at, j)) is None by {
                            assert(huge_path_blocked(before.mem(), before.root_table(), page_at(at, j)) is None);
                        }
                    }
                }
            },
            Err(e) => {
                proof {
                    assert(!can);
                    assert forall|w: u64| (w >> 12u64) < (at >> 12u64) || (w >> 12u64) >= (at >> 12u64) + count implies #[trigger] space.leaf(w)
                        == old(space).leaf(w) by {
                        if w >> 12u64 != virt >> 12u64 {
                            assert(before.leaf(w) == old(space).leaf(w));
                        } else {
                            lemma_same_page(virt, w);
                            assert(space.leaf(w) == space.leaf(virt));
                            assert(before.leaf(w) == before.leaf(virt));
                        }
                    }
                }
                return Err(Unlaunchable::Paging(e));
            },
        }
        proof {
            let t2 = taken.push(frame);
            assert forall|j: int| 0 <= j < index + 1 implies {
                &&& #[trigger] space.leaf(page_at(at, j)) == Some(page_leaf(t2[j], FRESH_FLAGS))
                &&& crate::paging::target(page_leaf(t2[j], FRESH_FLAGS)) == t2[j]
                &&& old(frames).pool().contains(t2[j])
                &&& !frames.pool().contains(t2[j])
                &&& !space.tables().contains(t2[j])
            } by {
                if j < index {
                    lemma_page_step(at, j);
                    assert(before.leaf(page_at(at, j)) == Some(page_leaf(taken[j], FRESH_FLAGS)));
                    assert(t2[j] == taken[j]);
                } else {
                    assert(t2[j] == frame);
                }
            }
            assert forall|w: u64| (w >> 12u64) < (at >> 12u64) || (w >> 12u64) >= (at >> 12u64) + index + 1 implies #[trigger] space.leaf(w)
                == old(space).leaf(w) by {
                assert(before.leaf(w) == old(space).leaf(w));
            }
            assert(t2.no_duplicates());
            taken = t2;
        }
        index = index + 1;
    }
    proof {
        assert forall|j: int, k: int| 0 <= j < k < count implies crate::paging::target(#[trigger] space.leaf(page_at(at, j)).unwrap())
            != crate::paging::target(#[trigger] space.leaf(page_at(at, k)).unwrap()) by {
            assert(space.leaf(page_at(at, j)) == Some(page_leaf(taken[j], FRESH_FLAGS)));
            assert(space.leaf(page_at(at, k)) == Some(page_leaf(taken[k], FRESH_FLAGS)));
        }
    }
    Ok(first)
}

/// The frames the first `k` pages from `at` are mapped to in `space`.
pub open spec fn mapped_frames(space: AddressSpace, at: u64, k: int) -> Set<u64> {
    Set::new(
        |f: u64|
            exists|j: int|
                0 <= j < k && #[trigger] space.leaf(page_at(at, j)) is Some && crate::paging::target(
                    space.leaf(page_at(at, j)).unwrap(),
                ) == f,
    )
}

/// Returns every frame a range of a process's space is mapped to, to the
/// pool the range was allocated from. Each page is unmapped before its frame
/// goes back: a frame back in the pool with a mapping to it still standing is
/// a frame two owners can reach. The range must be one that pool allocated
/// for this process: its frames are pages the pool does not hold, no page
/// table, and each mapped once.
pub fn release_mapped<S: TableSource>(space: &mut AddressSpace, frames: &mut S, at: u64, length: u64)
    requires
        old(space).wf(),
        old(frames).valid(),
        old(frames).pool().disjoint(old(space).tables()),
        at + length + 4096 <= u64::MAX,
        forall|k: int|
            0 <= k < pages_in(length as int) && #[trigger] old(space).leaf(page_at(at, k)) is Some ==> {
                let f = crate::paging::target(old(space).leaf(page_at(at, k)).unwrap());
                &&& crate::paging::aligned_frame(f)
                &&& f != 0
                &&& !old(frames).pool().contains(f)
                &&& !old(space).tables().contains(f)
            },
        forall|j: int, k: int|
            0 <= j < k < pages_in(length as int) && #[trigger] old(space).leaf(page_at(at, j)) is Some
                && #[trigger] old(space).leaf(page_at(at, k)) is Some ==> crate::paging::target(old(space).leaf(page_at(at, j)).unwrap())
                != crate::paging::target(old(space).leaf(page_at(at, k)).unwrap()),
    ensures
        final(space).wf(),
        final(frames).valid(),
        final(space).root_table() == old(space).root_table(),
        final(space).tables() == old(space).tables(),
        final(frames).pool() == old(frames).pool() + mapped_frames(*old(space), at, pages_in(length as int)),
        final(frames).pool().disjoint(final(space).tables()),
        forall|k: int| 0 <= k < pages_in(length as int) ==> #[trigger] final(space).leaf(page_at(at, k)) is None,
        forall|w: u64| (w >> 12u64) < (at >> 12u64) || (w >> 12u64) >= (at >> 12u64) + pages_in(length as int)
            ==> #[trigger] final(space).leaf(w) == old(space).leaf(w),
        forall|w: u64| #[trigger] final(space).large(w) == old(space).large(w),
{
    let ghost n = pages_in(length as int);
    let ghost s0 = *space;
    let mut offset: u64 = 0;
    let ghost mut k: int = 0;
    while offset < length
        invariant
            space.wf(),
            frames.valid(),
            frames.pool().disjoint(space.tables()),
            space.root_table() == s0.root_table(),
            space.tables() == s0.tables(),
            s0 == *old(space),
            n == pages_in(length as int),
            at + length + 4096 <= u64::MAX,
            offset == k * 4096,
            0 <= k <= n,
            offset < length ==> k < n,
            frames.pool() == old(frames).pool() + mapped_frames(s0, at, k),
            forall|j: int| 0 <= j < k ==> #[trigger] space.leaf(page_at(at, j)) is None,
            forall|w: u64| (w >> 12u64) < (at >> 12u64) || (w >> 12u64) >= (at >> 12u64) + k ==> #[trigger] space.leaf(w)
                == s0.leaf(w),
            forall|w: u64| #[trigger] space.large(w) == s0.large(w),
            forall|kk: int|
                0 <= kk < n && #[trigger] s0.leaf(page_at(at, kk)) is Some ==> {
                    let f = crate::paging::target(s0.leaf(page_at(at, kk)).unwrap());
                    &&& crate::paging::aligned_frame(f)
                    &&& f != 0
                    &&& !old(frames).pool().contains(f)
                    &&& !s0.tables().contains(f)
                },
            forall|j: int, kk: int|
                0 <= j < kk < n && #[trigger] s0.leaf(page_at(at, j)) is Some && #[trigger] s0.leaf(page_at(at, kk)) is Some
                    ==> crate::paging::target(s0.leaf(page_at(at, j)).unwrap()) != crate::paging::target(
                    s0.leaf(page_at(at, kk)).unwrap(),
                ),
        decreases n - k,
    {
        let virt = at + offset;
        proof {
            lemma_page_step(at, k);
            assert(virt == page_at(at, k));
            assert(space.leaf(virt) == s0.leaf(virt));
        }
        let ghost before = *space;
        let ghost pool_before = frames.pool();
        match space.translate(virt) {
            Some(frame) => {
                space.unmap_page(virt);
                proof {
                    let e = s0.leaf(virt).unwrap();
                    assert(frame == crate::paging::target(e));
                    assert(!mapped_frames(s0, at, k).contains(frame)) by {
                        if mapped_frames(s0, at, k).contains(frame) {
                            let j = choose|j: int|
                                0 <= j < k && #[trigger] s0.leaf(page_at(at, j)) is Some && crate::paging::target(
                                    s0.leaf(page_at(at, j)).unwrap(),
                                ) == frame;
                            assert(s0.leaf(page_at(at, k)) is Some);
                        }
                    }
                    assert(!pool_before.contains(frame));
                    assert(!space.tables().contains(frame));
                }
                frames.give_back(frame);
                proof {
                    assert(mapped_frames(s0, at, k + 1) =~= mapped_frames(s0, at, k).insert(frame)) by {
                        assert forall|f: u64| mapped_frames(s0, at, k + 1).contains(f) implies mapped_frames(s0, at, k).insert(frame).contains(f) by {
                            let j = choose|j: int|
                                0 <= j < k + 1 && #[trigger] s0.leaf(page_at(at, j)) is Some && crate::paging::target(
                                    s0.leaf(page_at(at, j)).unwrap(),
                                ) == f;
                            if j < k {
                                assert(mapped_frames(s0, at, k).contains(f));
                            }
                        }
                        assert forall|f: u64| mapped_frames(s0, at, k).insert(frame).contains(f) implies mapped_frames(s0, at, k + 1).contains(f) by {
                            if f == frame {
                                assert(s0.leaf(page_at(at, k)) is Some);
                            } else {
                                let j = choose|j: int|
                                    0 <= j < k && #[trigger] s0.leaf(page_at(at, j)) is Some && crate::paging::target(
                                        s0.leaf(page_at(at, j)).unwrap(),
                                    ) == f;
                                assert(s0.leaf(page_at(at, j)) is Some);
                            }
                        }
                    }
                }
            },
            None => {
                proof {
                    assert(s0.leaf(virt) is None);
                    assert(mapped_frames(s0, at, k + 1) =~= mapped_frames(s0, at, k)) by {
                        assert forall|f: u64| mapped_frames(s0, at, k + 1).contains(f) implies mapped_frames(s0, at, k).contains(f) by {
                            let j = choose|j: int|
                                0 <= j < k + 1 && #[trigger] s0.leaf(page_at(at, j)) is Some && crate::paging::target(
                                    s0.leaf(page_at(at, j)).unwrap(),
                                ) == f;
                            assert(j != k);
                        }
                    }
                }
            },
        }
        proof {
            assert forall|j: int| 0 <= j < k + 1 implies #[trigger] space.leaf(page_at(at, j)) is None by {
                if j < k {
                    lemma_page_step(at, j);
                    assert(before.leaf(page_at(at, j)) is None);
                }
            }
            assert forall|w: u64| (w >> 12u64) < (at >> 12u64) || (w >> 12u64) >= (at >> 12u64) + k + 1 implies #[trigger] space.leaf(w)
                == s0.leaf(w) by {
                assert(before.leaf(w) == s0.leaf(w));
            }
        }
        offset = offset + 4096;
        proof {
            k = k + 1;
            assert(offset < length ==> k < n) by {
                assert(k * 4096 < length ==> k < (length + 4095) / 4096) by (nonlinear_arith)
                    requires k >= 0, length >= 0;
            }
        }
    }
    proof {
        assert(k >= n) by {
            assert(k * 4096 >= length ==> k >= (length + 4095) / 4096) by (nonlinear_arith)
                requires k >= 0, length >= 0;
        }
    }
}

// ---------------------------------------------------------------------------
// The process table: what each slot records about the process in it.

/// What a slot is.
#[derive(Clone, Copy, Debug, PartialEq, Eq, Structural)]
pub enum State {
    /// Nothing has been built here.
    Free,
    /// A process that can be given the processor.
    Runnable,
    /// A process waiting for something a peer must do.
    Blocked,
    /// A process that has been ended and whose memory has not gone back yet.
    Ending,
    /// A process that has ended and whose memory has gone back; its slot
    /// holds its ending until the parent collects it.
    Over,
}

/// What the table records about one process.
#[derive(Clone, Copy, Debug, PartialEq, Eq, Structural)]
pub struct Slot {
    pub state: State,
    /// What it is waiting for, while it is blocked, and inside which
    /// operation.
    pub waiting: Waiting,
    pub blocked_in: u32,
    /// How it ended, once it has.
    pub ended: Ended,
    /// Which of this context's calls is still waiting for an answer; moved by
    /// anything that ends a call, so a reply capability is single-use.
    pub reply_generation: u32,
    /// Which occupant of this slot this is; a capability naming a process
    /// does not survive the process.
    pub generation: u32,
    /// Which process this is, for the life of the boot; never reused.
    pub instance: u64,
    /// The instance that created it; zero for none.
    pub parent: u64,
    /// What the creator asserted about the restart lineage, if anything.
    pub restart_generation: Option<u64>,
    /// Whether its ending is kept until the parent collects it.
    pub notice_pending: bool,
    pub ending_order: u64,
    pub ended_tick: u64,
    /// Whether the next entry into it is an operation's way back.
    pub resumes_an_operation: bool,
    /// How many times it was given the processor.
    pub quanta: u64,
    /// Timer ticks charged to it while it ran, and the first and last tick
    /// it was charged at.
    pub ticks: u64,
    pub first_tick: u64,
    pub last_tick: u64,
}

/// A slot nobody has used.
pub open spec fn free_slot(generation: u32) -> Slot {
    Slot {
        state: State::Free,
        waiting: Waiting::Nothing,
        blocked_in: 0,
        ended: Ended::Fault(0),
        reply_generation: 1,
        generation,
        instance: 0,
        parent: 0,
        restart_generation: None,
        notice_pending: false,
        ending_order: 0,
        ended_tick: 0,
        resumes_an_operation: false,
        quanta: 0,
        ticks: 0,
        first_tick: 0,
        last_tick: 0,
    }
}

fn fresh_slot(generation: u32) -> (s: Slot)
    ensures
        s == free_slot(generation),
{
    Slot {
        state: State::Free,
        waiting: Waiting::Nothing,
        blocked_in: 0,
        ended: Ended::Fault(0),
        reply_generation: 1,
        generation,
        instance: 0,
        parent: 0,
        restart_generation: None,
        notice_pending: false,
        ending_order: 0,
        ended_tick: 0,
        resumes_an_operation: false,
        quanta: 0,
        ticks: 0,
        first_tick: 0,
        last_tick: 0,
    }
}

/// The lowest slot from `i` on that `f` holds of.
pub open spec fn first_where(s: Seq<Slot>, f: spec_fn(Slot) -> bool, i: int) -> Option<int>
    decreases s.len() - i,
{
    if i < 0 || i >= s.len() {
        None
    } else if f(s[i]) {
        Some(i)
    } else {
        first_where(s, f, i + 1)
    }
}

/// How many of the first `n` slots `f` holds of.
pub open spec fn count_where(s: Seq<Slot>, f: spec_fn(Slot) -> bool, n: int) -> int
    decreases n,
{
    if n <= 0 {
        0
    } else {
        count_where(s, f, n - 1) + if f(s[n - 1]) { 1int } else { 0int }
    }
}

/// A slot after a wait in it ended, however it ended: runnable, waiting for
/// nothing, about to resume an operation, and a reply it waited for no
/// longer answerable.
pub open spec fn woken(s: Slot) -> Slot {
    Slot {
        reply_generation: if s.waiting == Waiting::Reply { s.reply_generation.wrapping_add(1) } else { s.reply_generation },
        resumes_an_operation: true,
        waiting: Waiting::Nothing,
        state: State::Runnable,
        ..s
    }
}

/// Whether a slot's process is live: anything not yet retired.
pub open spec fn is_live_state(st: State) -> bool {
    st == State::Runnable || st == State::Blocked || st == State::Ending
}

/// The slot of live instance `parent` when it is blocked waiting on its
/// children, if it is.
pub open spec fn waiter_of(s: Seq<Slot>, parent: u64) -> Option<int> {
    if parent == 0 {
        None
    } else {
        match first_where(s, |x: Slot| x.instance == parent && is_live_state(x.state), 0) {
            Some(p) => if s[p].state == State::Blocked && s[p].waiting == Waiting::ChildOf(parent) {
                Some(p)
            } else {
                None
            },
            None => None,
        }
    }
}

/// Whether a slot holds an uncollected ending of a child of `parent`.
pub open spec fn holds_notice(s: Slot, parent: u64) -> bool {
    s.state == State::Over && s.notice_pending && s.parent == parent
}

/// The slot holding the earliest uncollected ending of a child of `parent`
/// among the first `n`: earliest by ending order, not by slot.
pub open spec fn earliest_notice(s: Seq<Slot>, parent: u64, n: int) -> Option<int>
    decreases n,
{
    if n <= 0 {
        None
    } else {
        let before = earliest_notice(s, parent, n - 1);
        if holds_notice(s[n - 1], parent) && (before is None || s[n - 1].ending_order < s[before.unwrap()].ending_order) {
            Some(n - 1)
        } else {
            before
        }
    }
}

/// What a parent is told about one child's ending.
#[derive(Clone, Copy, Debug, PartialEq, Eq, Structural)]
pub struct ChildRecord {
    pub child_instance: u64,
    pub parent_instance: u64,
    pub ended: Ended,
    /// Who ended it, by instance rather than slot, where somebody did.
    pub ended_by: Option<u64>,
    pub restart_generation: Option<u64>,
    pub ending_order: u64,
    pub ended_tick: u64,
}

/// What `terminate` did.
#[derive(Clone, Copy, Debug, PartialEq, Eq, Structural)]
pub enum Termination {
    /// The target names no live process.
    Refused,
    /// The target is marked ending; its memory goes back at the next turn.
    Ended,
    /// The caller ended itself: nothing is left to return to.
    EndedSelf,
}

/// What the scheduler does next.
#[derive(Clone, Copy, Debug, PartialEq, Eq, Structural)]
pub enum Turn {
    /// Take back what the process in this slot held.
    Retire(usize),
    /// Give the processor to this slot; `resumes` says whether that entry is
    /// a blocked operation's way back.
    Run { index: usize, resumes: bool },
    /// Nothing runnable and nothing waiting: the boot's work is done.
    Finished,
    /// Nothing runnable, something waiting, and nothing can end the waits:
    /// every one was cancelled.
    Cancelled,
    /// The waits were cancelled once already and no message moved since:
    /// every blocked context was ended as deadlocked.
    Deadlocked,
}

/// The table after every blocked slot among the first `n` was woken.
pub open spec fn cancelled_upto(s: Seq<Slot>, n: int) -> Seq<Slot> {
    Seq::new(s.len(), |i: int| if i < n && s[i].state == State::Blocked { woken(s[i]) } else { s[i] })
}

/// The table after every blocked slot was ended as deadlocked.
pub open spec fn deadlocked(s: Seq<Slot>) -> Seq<Slot> {
    Seq::new(s.len(), |i: int| if s[i].state == State::Blocked {
        Slot { ended: Ended::Deadlocked, state: State::Ending, ..s[i] }
    } else {
        s[i]
    })
}

/// The table after the notices held for children of `parent` were dropped.
pub open spec fn notices_released(s: Seq<Slot>, parent: u64) -> Seq<Slot> {
    Seq::new(s.len(), |i: int| if parent != 0 && holds_notice(s[i], parent) {
        Slot { notice_pending: false, state: State::Free, ..s[i] }
    } else {
        s[i]
    })
}

/// The table after every wait on the children of `instance` was cancelled.
pub open spec fn child_waits_cancelled(s: Seq<Slot>, instance: u64) -> Seq<Slot> {
    Seq::new(s.len(), |i: int| if s[i].state == State::Blocked && s[i].waiting == Waiting::ChildOf(instance) {
        woken(s[i])
    } else {
        s[i]
    })
}

/// The process table.
pub struct Processes {
    slots: Vec<Slot>,
    next_instance: u64,
    next_ending: u64,
}

impl Processes {
    pub closed spec fn table(&self) -> Seq<Slot> {
        self.slots@
    }

    /// The identity the next process gets, and the order the next ending
    /// gets; both only ever count up.
    pub closed spec fn counters(&self) -> (u64, u64) {
        (self.next_instance, self.next_ending)
    }

    pub closed spec fn wf(&self) -> bool {
        self.slots.len() == MAX_PROCESSES
    }

    /// Every slot free; the first process is instance one.
    pub fn new() -> (t: Processes)
        ensures
            t.wf(),
            t.table() == Seq::new(MAX_PROCESSES as nat, |i: int| free_slot(1)),
            t.counters() == (1u64, 1u64),
    {
        let mut slots: Vec<Slot> = Vec::new();
        let mut i: usize = 0;
        while i < MAX_PROCESSES
            invariant
                i <= MAX_PROCESSES,
                slots@ == Seq::new(i as nat, |j: int| free_slot(1)),
            decreases MAX_PROCESSES - i,
        {
            slots.push(fresh_slot(1));
            i = i + 1;
            proof {
                assert(slots@ =~= Seq::new(i as nat, |j: int| free_slot(1)));
            }
        }
        Processes { slots, next_instance: 1, next_ending: 1 }
    }

    /// The slot a process gets: the lowest free one, reset but for its
    /// generation, which belongs to the slot; the process gets the next
    /// instance identity.
    pub fn seat(&mut self, parent: u64, restart_generation: Option<u64>) -> (r: Result<usize, Unlaunchable>)
        requires
            old(self).wf(),
        ensures
            final(self).wf(),
            ({
                let s = old(self).table();
                let (ni, ne) = old(self).counters();
                match first_where(s, |x: Slot| x.state == State::Free, 0) {
                    None => r == Err::<usize, Unlaunchable>(Unlaunchable::TooManyProcesses) && final(self).table() == s
                        && final(self).counters() == old(self).counters(),
                    Some(i) => {
                        &&& r == Ok::<usize, Unlaunchable>(i as usize)
                        &&& final(self).counters() == (ni.wrapping_add(1), ne)
                        &&& final(self).table() == s.update(
                            i,
                            Slot { instance: ni, parent, restart_generation, state: State::Runnable, ..free_slot(s[i].generation) },
                        )
                    },
                }
            }),
    {
        let mut i: usize = 0;
        while i < MAX_PROCESSES
            invariant
                self.wf(),
                *self == *old(self),
                i <= MAX_PROCESSES,
                first_where(self.table(), |x: Slot| x.state == State::Free, 0) == first_where(
                    self.table(),
                    |x: Slot| x.state == State::Free,
                    i as int,
                ),
            decreases MAX_PROCESSES - i,
        {
            if self.slots[i].state == State::Free {
                let generation = self.slots[i].generation;
                let mut fresh = fresh_slot(generation);
                fresh.instance = self.next_instance;
                fresh.parent = parent;
                fresh.restart_generation = restart_generation;
                fresh.state = State::Runnable;
                self.slots.set(i, fresh);
                self.next_instance = self.next_instance.wrapping_add(1);
                return Ok(i);
            }
            i = i + 1;
        }
        Err(Unlaunchable::TooManyProcesses)
    }

    /// How many slots hold an ending nobody has collected.
    pub fn uncollected(&self) -> (n: usize)
        requires
            self.wf(),
        ensures
            n == count_where(self.table(), |x: Slot| x.state == State::Over && x.notice_pending, MAX_PROCESSES as int),
    {
        let mut n: usize = 0;
        let mut i: usize = 0;
        while i < MAX_PROCESSES
            invariant
                self.wf(),
                i <= MAX_PROCESSES,
                n <= i,
                n == count_where(self.table(), |x: Slot| x.state == State::Over && x.notice_pending, i as int),
            decreases MAX_PROCESSES - i,
        {
            if self.slots[i].state == State::Over && self.slots[i].notice_pending {
                n = n + 1;
            }
            i = i + 1;
        }
        n
    }

    /// The lowest slot whose state is `state`.
    fn first_in(&self, state: State) -> (r: Option<usize>)
        requires
            self.wf(),
        ensures
            match first_where(self.table(), |x: Slot| x.state == state, 0) {
                Some(i) => r == Some(i as usize),
                None => r is None,
            },
    {
        let mut i: usize = 0;
        while i < MAX_PROCESSES
            invariant
                self.wf(),
                i <= MAX_PROCESSES,
                first_where(self.table(), |x: Slot| x.state == state, 0) == first_where(
                    self.table(),
                    |x: Slot| x.state == state,
                    i as int,
                ),
            decreases MAX_PROCESSES - i,
        {
            if self.slots[i].state == state {
                return Some(i);
            }
            i = i + 1;
        }
        None
    }

    /// The lowest runnable slot.
    pub fn first_runnable(&self) -> (r: Option<usize>)
        requires
            self.wf(),
        ensures
            match first_where(self.table(), |x: Slot| x.state == State::Runnable, 0) {
                Some(i) => r == Some(i as usize),
                None => r is None,
            },
    {
        self.first_in(State::Runnable)
    }

    /// Whether any context is waiting for something.
    pub fn any_blocked(&self) -> (b: bool)
        requires
            self.wf(),
        ensures
            b == (first_where(self.table(), |x: Slot| x.state == State::Blocked, 0) is Some),
    {
        self.first_in(State::Blocked).is_some()
    }

    /// Ends the running process because it said so, with its own status.
    pub fn exited(&mut self, current: usize, status: u64)
        requires
            old(self).wf(),
            current < MAX_PROCESSES,
        ensures
            final(self).wf(),
            final(self).counters() == old(self).counters(),
            final(self).table() == old(self).table().update(
                current as int,
                Slot { ended: Ended::Exited(status), state: State::Ending, ..old(self).table()[current as int] },
            ),
    {
        let mut s = self.slots[current];
        s.ended = Ended::Exited(status);
        s.state = State::Ending;
        self.slots.set(current, s);
    }

    /// Ends the running process because it took a fault at CPL 3.
    pub fn fault(&mut self, current: usize, vector: u64)
        requires
            old(self).wf(),
            current < MAX_PROCESSES,
        ensures
            final(self).wf(),
            final(self).counters() == old(self).counters(),
            final(self).table() == old(self).table().update(
                current as int,
                Slot { ended: Ended::Fault(vector), state: State::Ending, ..old(self).table()[current as int] },
            ),
    {
        let mut s = self.slots[current];
        s.ended = Ended::Fault(vector);
        s.state = State::Ending;
        self.slots.set(current, s);
    }

    /// Sets the running context down, waiting for `waiting` inside
    /// `operation`.
    pub fn block(&mut self, current: usize, waiting: Waiting, operation: u32)
        requires
            old(self).wf(),
            current < MAX_PROCESSES,
        ensures
            final(self).wf(),
            final(self).counters() == old(self).counters(),
            final(self).table() == old(self).table().update(
                current as int,
                Slot { waiting, blocked_in: operation, state: State::Blocked, ..old(self).table()[current as int] },
            ),
    {
        let mut s = self.slots[current];
        s.waiting = waiting;
        s.blocked_in = operation;
        s.state = State::Blocked;
        self.slots.set(current, s);
    }

    /// The context blocked on `waiting`, if there is one: the lowest.
    pub fn blocked_on(&self, waiting: Waiting) -> (r: Option<usize>)
        requires
            self.wf(),
        ensures
            match first_where(self.table(), |x: Slot| x.state == State::Blocked && x.waiting == waiting, 0) {
                Some(i) => r == Some(i as usize),
                None => r is None,
            },
    {
        let mut i: usize = 0;
        while i < MAX_PROCESSES
            invariant
                self.wf(),
                i <= MAX_PROCESSES,
                first_where(self.table(), |x: Slot| x.state == State::Blocked && x.waiting == waiting, 0) == first_where(
                    self.table(),
                    |x: Slot| x.state == State::Blocked && x.waiting == waiting,
                    i as int,
                ),
            decreases MAX_PROCESSES - i,
        {
            if self.slots[i].state == State::Blocked && self.slots[i].waiting == waiting {
                return Some(i);
            }
            i = i + 1;
        }
        None
    }

    /// Which answer this context is still waiting for, or nothing when it
    /// is not waiting for one.
    pub fn reply_token(&self, index: usize) -> (r: Option<u32>)
        requires
            self.wf(),
        ensures
            r == (if index < MAX_PROCESSES && self.table()[index as int].state == State::Blocked
                && self.table()[index as int].waiting == Waiting::Reply {
                Some(self.table()[index as int].reply_generation)
            } else {
                None
            }),
    {
        if index >= MAX_PROCESSES || self.slots[index].state != State::Blocked {
            return None;
        }
        if self.slots[index].waiting == Waiting::Reply {
            Some(self.slots[index].reply_generation)
        } else {
            None
        }
    }

    /// The token a call about to block will be answered by.
    pub fn next_reply_token(&self, index: usize) -> (r: u32)
        requires
            self.wf(),
        ensures
            r == (if index < MAX_PROCESSES { self.table()[index as int].reply_generation } else { 0 }),
    {
        if index >= MAX_PROCESSES {
            return 0;
        }
        self.slots[index].reply_generation
    }

    /// Ends a blocked context's wait and makes it runnable again. A call
    /// that waited for a reply is over however it ended, so the reply
    /// capability handed out for it stops naming anything.
    pub fn wake(&mut self, index: usize) -> (b: bool)
        requires
            old(self).wf(),
        ensures
            final(self).wf(),
            final(self).counters() == old(self).counters(),
            b == (index < MAX_PROCESSES && old(self).table()[index as int].state == State::Blocked),
            b ==> final(self).table() == old(self).table().update(index as int, woken(old(self).table()[index as int])),
            !b ==> final(self).table() == old(self).table(),
    {
        if index >= MAX_PROCESSES || self.slots[index].state != State::Blocked {
            return false;
        }
        let mut s = self.slots[index];
        if s.waiting == Waiting::Reply {
            s.reply_generation = s.reply_generation.wrapping_add(1);
        }
        s.resumes_an_operation = true;
        s.waiting = Waiting::Nothing;
        s.state = State::Runnable;
        self.slots.set(index, s);
        true
    }

    /// Cancels every block, because nothing can end them: each blocked
    /// context is woken, and what it was waiting for, inside which
    /// operation, is handed back for the record.
    pub fn cancel_every_block(&mut self) -> (woke: Vec<(usize, Waiting, u32)>)
        requires
            old(self).wf(),
        ensures
            final(self).wf(),
            final(self).counters() == old(self).counters(),
            final(self).table() == cancelled_upto(old(self).table(), MAX_PROCESSES as int),
            forall|k: int| 0 <= k < woke@.len() ==> {
                let (i, w, op) = #[trigger] woke@[k];
                &&& i < MAX_PROCESSES
                &&& old(self).table()[i as int].state == State::Blocked
                &&& w == old(self).table()[i as int].waiting
                &&& op == old(self).table()[i as int].blocked_in
            },
    {
        let ghost s0 = self.table();
        let mut woke: Vec<(usize, Waiting, u32)> = Vec::new();
        let mut i: usize = 0;
        while i < MAX_PROCESSES
            invariant
                self.wf(),
                self.counters() == old(self).counters(),
                s0 == old(self).table(),
                i <= MAX_PROCESSES,
                self.table() == cancelled_upto(s0, i as int),
                forall|k: int| 0 <= k < woke@.len() ==> {
                    let (j, w, op) = #[trigger] woke@[k];
                    &&& j < i
                    &&& s0[j as int].state == State::Blocked
                    &&& w == s0[j as int].waiting
                    &&& op == s0[j as int].blocked_in
                },
            decreases MAX_PROCESSES - i,
        {
            let s = self.slots[i];
            if s.state == State::Blocked {
                woke.push((i, s.waiting, s.blocked_in));
                self.wake(i);
            }
            proof {
                assert(self.table() =~= cancelled_upto(s0, i as int + 1));
            }
            i = i + 1;
        }
        woke
    }

    /// Ends every blocked context as deadlocked, because cancelling them
    /// changed nothing.
    pub fn end_every_block(&mut self)
        requires
            old(self).wf(),
        ensures
            final(self).wf(),
            final(self).counters() == old(self).counters(),
            final(self).table() == deadlocked(old(self).table()),
    {
        let ghost s0 = self.table();
        let mut i: usize = 0;
        while i < MAX_PROCESSES
            invariant
                self.wf(),
                self.counters() == old(self).counters(),
                s0 == old(self).table(),
                i <= MAX_PROCESSES,
                self.table() == Seq::new(s0.len(), |j: int| if j < i { deadlocked(s0)[j] } else { s0[j] }),
            decreases MAX_PROCESSES - i,
        {
            let mut s = self.slots[i];
            if s.state == State::Blocked {
                s.ended = Ended::Deadlocked;
                s.state = State::Ending;
                self.slots.set(i, s);
            }
            proof {
                assert(self.table() =~= Seq::new(s0.len(), |j: int| if j < i + 1 { deadlocked(s0)[j] } else { s0[j] }));
            }
            i = i + 1;
        }
        proof {
            assert(self.table() =~= deadlocked(s0));
        }
    }

    /// Ends the process in `target` on `by`'s authority, already checked. A
    /// blocked process is as live as a runnable one.
    pub fn terminate(&mut self, by: usize, target: usize, current: usize) -> (t: Termination)
        requires
            old(self).wf(),
        ensures
            final(self).wf(),
            final(self).counters() == old(self).counters(),
            ({
                let s = old(self).table();
                if target >= MAX_PROCESSES || !(s[target as int].state == State::Runnable || s[target as int].state
                    == State::Blocked) {
                    t == Termination::Refused && final(self).table() == s
                } else {
                    &&& final(self).table() == s.update(
                        target as int,
                        Slot { ended: Ended::Terminated(by), state: State::Ending, ..s[target as int] },
                    )
                    &&& t == if target == current { Termination::EndedSelf } else { Termination::Ended }
                }
            }),
    {
        if target >= MAX_PROCESSES {
            return Termination::Refused;
        }
        let mut s = self.slots[target];
        if !(s.state == State::Runnable || s.state == State::Blocked) {
            return Termination::Refused;
        }
        s.ended = Ended::Terminated(by);
        s.state = State::Ending;
        self.slots.set(target, s);
        if target == current {
            Termination::EndedSelf
        } else {
            Termination::Ended
        }
    }

    /// Which slot a live instance is in, if it is still live. Instance zero
    /// is nobody.
    pub fn live_instance(&self, instance: u64) -> (r: Option<usize>)
        requires
            self.wf(),
        ensures
            instance == 0 ==> r is None,
            instance != 0 ==> match first_where(self.table(), |x: Slot| x.instance == instance && is_live_state(x.state), 0) {
                Some(i) => r == Some(i as usize),
                None => r is None,
            },
    {
        if instance == 0 {
            return None;
        }
        let mut i: usize = 0;
        while i < MAX_PROCESSES
            invariant
                self.wf(),
                instance != 0,
                i <= MAX_PROCESSES,
                first_where(self.table(), |x: Slot| x.instance == instance && is_live_state(x.state), 0) == first_where(
                    self.table(),
                    |x: Slot| x.instance == instance && is_live_state(x.state),
                    i as int,
                ),
            decreases MAX_PROCESSES - i,
        {
            let st = self.slots[i].state;
            if self.slots[i].instance == instance && (st == State::Runnable || st == State::Blocked || st == State::Ending) {
                return Some(i);
            }
            i = i + 1;
        }
        None
    }

    /// Which instance occupies a slot, or zero for a slot that holds nobody.
    pub fn instance(&self, index: usize) -> (r: u64)
        requires
            self.wf(),
        ensures
            r == (if index < MAX_PROCESSES { self.table()[index as int].instance } else { 0 }),
    {
        if index >= MAX_PROCESSES {
            return 0;
        }
        self.slots[index].instance
    }

    /// Which occupant of a slot is there now, while it is runnable.
    pub fn generation(&self, index: usize) -> (r: Option<u32>)
        requires
            self.wf(),
        ensures
            r == (if index < MAX_PROCESSES && self.table()[index as int].state == State::Runnable {
                Some(self.table()[index as int].generation)
            } else {
                None
            }),
    {
        if index >= MAX_PROCESSES || self.slots[index].state != State::Runnable {
            return None;
        }
        Some(self.slots[index].generation)
    }

    /// How the process in a slot ended.
    pub fn ended(&self, index: usize) -> (e: Ended)
        requires
            self.wf(),
            index < MAX_PROCESSES,
        ensures
            e == self.table()[index as int].ended,
    {
        self.slots[index].ended
    }

    /// Frees the notices held for a parent that is itself over; hands back
    /// which children's notices went, for the record.
    pub fn release_notices_of(&mut self, parent: u64) -> (released: Vec<u64>)
        requires
            old(self).wf(),
        ensures
            final(self).wf(),
            final(self).counters() == old(self).counters(),
            final(self).table() == notices_released(old(self).table(), parent),
    {
        let mut released: Vec<u64> = Vec::new();
        if parent == 0 {
            proof {
                assert(self.table() =~= notices_released(old(self).table(), parent));
            }
            return released;
        }
        let ghost s0 = self.table();
        let mut i: usize = 0;
        while i < MAX_PROCESSES
            invariant
                self.wf(),
                self.counters() == old(self).counters(),
                s0 == old(self).table(),
                parent != 0,
                i <= MAX_PROCESSES,
                self.table() == Seq::new(s0.len(), |j: int| if j < i { notices_released(s0, parent)[j] } else { s0[j] }),
            decreases MAX_PROCESSES - i,
        {
            let mut s = self.slots[i];
            if s.state == State::Over && s.notice_pending && s.parent == parent {
                released.push(s.instance);
                s.notice_pending = false;
                s.state = State::Free;
                self.slots.set(i, s);
            }
            proof {
                assert(self.table() =~= Seq::new(s0.len(), |j: int| if j < i + 1 { notices_released(s0, parent)[j] } else { s0[j] }));
            }
            i = i + 1;
        }
        proof {
            assert(self.table() =~= notices_released(s0, parent));
        }
        released
    }

    /// Cancels every wait on the children of an instance that has ended:
    /// the relation can gain no further member. Hands back who was woken.
    pub fn cancel_child_waiters(&mut self, instance: u64) -> (woke: Vec<usize>)
        requires
            old(self).wf(),
        ensures
            final(self).wf(),
            final(self).counters() == old(self).counters(),
            final(self).table() == child_waits_cancelled(old(self).table(), instance),
    {
        let ghost s0 = self.table();
        let mut woke: Vec<usize> = Vec::new();
        let mut i: usize = 0;
        while i < MAX_PROCESSES
            invariant
                self.wf(),
                self.counters() == old(self).counters(),
                s0 == old(self).table(),
                i <= MAX_PROCESSES,
                self.table() == Seq::new(s0.len(), |j: int| if j < i { child_waits_cancelled(s0, instance)[j] } else { s0[j] }),
            decreases MAX_PROCESSES - i,
        {
            let s = self.slots[i];
            if s.state == State::Blocked && s.waiting == Waiting::ChildOf(instance) {
                woke.push(i);
                self.wake(i);
            }
            proof {
                assert(self.table() =~= Seq::new(s0.len(), |j: int| if j < i + 1 { child_waits_cancelled(s0, instance)[j] } else { s0[j] }));
            }
            i = i + 1;
        }
        proof {
            assert(self.table() =~= child_waits_cancelled(s0, instance));
        }
        woke
    }

    /// Collects the earliest uncollected ending among a parent's direct
    /// children: the slot is reusable from this instant.
    pub fn take_child_notice(&mut self, parent: u64) -> (r: Option<(usize, ChildRecord)>)
        requires
            old(self).wf(),
        ensures
            final(self).wf(),
            final(self).counters() == old(self).counters(),
            ({
                let s = old(self).table();
                match earliest_notice(s, parent, MAX_PROCESSES as int) {
                    None => r is None && final(self).table() == s,
                    Some(i) => {
                        let c = s[i];
                        &&& r matches Some((k, rec)) && k == i && rec == ChildRecord {
                            child_instance: c.instance,
                            parent_instance: parent,
                            ended: c.ended,
                            ended_by: match c.ended {
                                Ended::Terminated(by) => Some(if by < MAX_PROCESSES { s[by as int].instance } else { 0 }),
                                _ => None,
                            },
                            restart_generation: c.restart_generation,
                            ending_order: c.ending_order,
                            ended_tick: c.ended_tick,
                        }
                        &&& final(self).table() == s.update(i, Slot { notice_pending: false, state: State::Free, ..c })
                    },
                }
            }),
    {
        let mut best: Option<usize> = None;
        let mut i: usize = 0;
        while i < MAX_PROCESSES
            invariant
                self.wf(),
                *self == *old(self),
                i <= MAX_PROCESSES,
                match earliest_notice(self.table(), parent, i as int) {
                    Some(k) => best is Some && best.unwrap() as int == k,
                    None => best is None,
                },
                best matches Some(b) ==> b < i,
            decreases MAX_PROCESSES - i,
        {
            let s = self.slots[i];
            if s.state == State::Over && s.notice_pending && s.parent == parent {
                let better = match best {
                    None => true,
                    Some(b) => s.ending_order < self.slots[b].ending_order,
                };
                if better {
                    best = Some(i);
                }
            }
            i = i + 1;
        }
        let index = match best {
            Some(b) => b,
            None => return None,
        };
        let c = self.slots[index];
        let ended_by = match c.ended {
            Ended::Terminated(by) => Some(self.instance(by)),
            _ => None,
        };
        let record = ChildRecord {
            child_instance: c.instance,
            parent_instance: parent,
            ended: c.ended,
            ended_by,
            restart_generation: c.restart_generation,
            ending_order: c.ending_order,
            ended_tick: c.ended_tick,
        };
        let mut collected = c;
        collected.notice_pending = false;
        collected.state = State::Free;
        self.slots.set(index, collected);
        Some((index, record))
    }

    /// Puts a notice back, for the one path that cannot deliver it.
    pub fn restore_child_notice(&mut self, index: usize)
        requires
            old(self).wf(),
            index < MAX_PROCESSES,
        ensures
            final(self).wf(),
            final(self).counters() == old(self).counters(),
            final(self).table() == old(self).table().update(
                index as int,
                Slot { notice_pending: true, state: State::Over, ..old(self).table()[index as int] },
            ),
    {
        let mut s = self.slots[index];
        s.notice_pending = true;
        s.state = State::Over;
        self.slots.set(index, s);
    }

    /// A parent blocked waiting on its children, and the notice that answers
    /// it, taken: the wait is satisfied by the ending that produced what it
    /// waited for. The caller writes the record into the parent's region and
    /// wakes it, or restores the notice when it cannot be told.
    pub fn notice_for_waiter(&mut self, parent: u64) -> (r: Option<(usize, usize, ChildRecord)>)
        requires
            old(self).wf(),
        ensures
            final(self).wf(),
            final(self).counters() == old(self).counters(),
            r is Some <==> waiter_of(old(self).table(), parent) is Some && earliest_notice(old(self).table(), parent, MAX_PROCESSES as int) is Some,
            r is None ==> final(self).table() == old(self).table(),
            r matches Some((p, c, rec)) ==> waiter_of(old(self).table(), parent) == Some(p as int) && p < MAX_PROCESSES && old(self).table()[p as int].state == State::Blocked
                && old(self).table()[p as int].waiting == Waiting::ChildOf(parent) && old(self).table()[p as int].instance
                == parent && earliest_notice(old(self).table(), parent, MAX_PROCESSES as int) == Some(c as int)
                && rec.child_instance == old(self).table()[c as int].instance && rec.parent_instance == parent
                && final(self).table() == old(self).table().update(
                c as int,
                Slot { notice_pending: false, state: State::Free, ..old(self).table()[c as int] },
            ),
    {
        let p = match self.live_instance(parent) {
            Some(p) => p,
            None => return None,
        };
        proof {
            lemma_first_where_holds(self.table(), |x: Slot| x.instance == parent && is_live_state(x.state), 0);
        }
        if !(self.slots[p].state == State::Blocked && self.slots[p].waiting == Waiting::ChildOf(parent)) {
            return None;
        }
        match self.take_child_notice(parent) {
            Some((c, rec)) => Some((p, c, rec)),
            None => None,
        }
    }

    /// What the table records when a process is retired: its slot is over,
    /// every capability naming it or its outstanding call stops resolving,
    /// its ending is numbered, its own children's notices and waits go, and
    /// its notice is kept only while its parent could still collect it;
    /// otherwise the record on the log is the whole of it and the slot goes
    /// straight back. Returns whether the notice was kept.
    pub fn retire(&mut self, index: usize, tick: u64) -> (keep: bool)
        requires
            old(self).wf(),
            index < MAX_PROCESSES,
        ensures
            final(self).wf(),
            ({
                let s = old(self).table();
                let (ni, ne) = old(self).counters();
                let x = s[index as int];
                let over = s.update(index as int, Slot {
                    state: State::Over,
                    generation: x.generation.wrapping_add(1),
                    reply_generation: x.reply_generation.wrapping_add(1),
                    ending_order: ne,
                    ended_tick: tick,
                    ..x
                });
                let after = child_waits_cancelled(notices_released(over, x.instance), x.instance);
                &&& final(self).counters() == (ni, ne.wrapping_add(1))
                &&& keep == (x.parent != 0 && first_where(after, |y: Slot| y.instance == x.parent && is_live_state(y.state), 0) is Some)
                &&& final(self).table() == after.update(
                    index as int,
                    Slot { notice_pending: keep, state: if keep { after[index as int].state } else { State::Free }, ..after[index as int] },
                )
            }),
    {
        let mut x = self.slots[index];
        x.state = State::Over;
        x.generation = x.generation.wrapping_add(1);
        x.reply_generation = x.reply_generation.wrapping_add(1);
        x.ending_order = self.next_ending;
        x.ended_tick = tick;
        self.next_ending = self.next_ending.wrapping_add(1);
        self.slots.set(index, x);
        let _ = self.release_notices_of(x.instance);
        let _ = self.cancel_child_waiters(x.instance);
        let keep = x.parent != 0 && self.live_instance(x.parent).is_some();
        let mut y = self.slots[index];
        y.notice_pending = keep;
        if !keep {
            y.state = State::Free;
        }
        self.slots.set(index, y);
        keep
    }
}

/// What a wait on a process's children found.
#[derive(Clone, Copy, Debug, PartialEq, Eq, Structural)]
pub enum ChildWait {
    /// An ending was pending and is now collected; the caller writes the
    /// record into the waiter's region, or restores the notice when it
    /// cannot.
    Collected(usize, ChildRecord),
    /// Nothing pending, and the caller would not block.
    WouldBlock,
    /// Nothing pending: the caller is set down waiting on the relation.
    Blocked,
}

impl Processes {
    /// A wait on the children of `target`, made by the running `caller`
    /// inside `operation`: the earliest pending ending, or a block.
    pub fn wait_child(&mut self, caller: usize, target: u64, non_blocking: bool, operation: u32) -> (w: ChildWait)
        requires
            old(self).wf(),
            caller < MAX_PROCESSES,
        ensures
            final(self).wf(),
            final(self).counters() == old(self).counters(),
            ({
                let s = old(self).table();
                match earliest_notice(s, target, MAX_PROCESSES as int) {
                    Some(i) => w matches ChildWait::Collected(k, rec) && k == i && rec.child_instance == s[i].instance
                        && rec.parent_instance == target && final(self).table() == s.update(
                        i,
                        Slot { notice_pending: false, state: State::Free, ..s[i] },
                    ),
                    None => if non_blocking {
                        w == ChildWait::WouldBlock && final(self).table() == s
                    } else {
                        w == ChildWait::Blocked && final(self).table() == s.update(
                            caller as int,
                            Slot { waiting: Waiting::ChildOf(target), blocked_in: operation, state: State::Blocked, ..s[caller as int] },
                        )
                    },
                }
            }),
    {
        if let Some((child, record)) = self.take_child_notice(target) {
            return ChildWait::Collected(child, record);
        }
        if non_blocking {
            return ChildWait::WouldBlock;
        }
        self.block(caller, Waiting::ChildOf(target), operation);
        ChildWait::Blocked
    }
}

/// Whatever `first_where` finds satisfies the condition.
pub proof fn lemma_first_where_holds(s: Seq<Slot>, f: spec_fn(Slot) -> bool, i: int)
    ensures
        first_where(s, f, i) matches Some(k) ==> i <= k < s.len() && f(s[k]),
    decreases s.len() - i,
{
    if 0 <= i < s.len() && !f(s[i]) {
        lemma_first_where_holds(s, f, i + 1);
    }
}

/// A report's bytes as the log shows them: each newline as a carriage
/// return and a newline, every other byte as it is.
pub open spec fn log_text(s: Seq<u8>) -> Seq<u8>
    decreases s.len(),
{
    if s.len() == 0 {
        Seq::empty()
    } else {
        let rest = log_text(s.drop_last());
        if s.last() == 10 {
            rest + seq![13u8, 10u8]
        } else {
            rest.push(s.last())
        }
    }
}

/// What one drain of a process's report region puts on the log: its text
/// from where the last drain stopped up to what the process says it wrote,
/// never past the region, as the log shows it; and where the next drain
/// starts. A claim past the region is cut to it, and a claim behind the last
/// drain puts nothing out.
pub fn drain_text(text: &[u8], drained: u64, written: u64) -> (r: (Vec<u8>, u64))
    ensures
        ({
            let end = if written < text@.len() { written as int } else { text@.len() as int };
            &&& drained < end ==> r.0@ == log_text(text@.subrange(drained as int, end)) && r.1 == end
            &&& drained >= end ==> r.0@ == Seq::<u8>::empty() && r.1 == drained
        }),
{
    let end: u64 = if written < text.len() as u64 { written } else { text.len() as u64 };
    let mut out: Vec<u8> = Vec::new();
    let mut at: u64 = drained;
    while at < end
        invariant
            end <= text@.len(),
            drained <= at <= end || (drained >= end && at == drained),
            drained < end ==> out@ == log_text(text@.subrange(drained as int, at as int)),
            drained >= end ==> out@ == Seq::<u8>::empty(),
        decreases end - at,
    {
        let byte = text[at as usize];
        proof {
            assert(text@.subrange(drained as int, at + 1).drop_last() =~= text@.subrange(drained as int, at as int));
        }
        if byte == 10 {
            out.push(13);
            out.push(10);
            proof {
                assert(out@ =~= log_text(text@.subrange(drained as int, at as int)) + seq![13u8, 10u8]);
            }
        } else {
            out.push(byte);
        }
        at = at + 1;
    }
    proof {
        if drained < end {
            assert(at == end);
        } else {
            assert(out@ =~= Seq::<u8>::empty());
        }
    }
    (out, at)
}

/// What a timer tick taken while a process ran decided.
#[derive(Clone, Copy, Debug, PartialEq, Eq, Structural)]
pub enum Preemption {
    /// Resume what was interrupted.
    Stay,
    /// Give the processor to this slot; `resumes` says whether that entry is
    /// a blocked operation's way back.
    Switch { to: usize, resumes: bool },
}

/// The first runnable slot `step`, `step + 1`, ... up to `MAX_PROCESSES`
/// places after `current`, wrapping: round-robin means the next one.
pub open spec fn next_runnable(s: Seq<Slot>, current: int, step: int) -> Option<int>
    decreases MAX_PROCESSES + 1 - step,
{
    if step < 1 || step > MAX_PROCESSES {
        None
    } else if s[(current + step) % (MAX_PROCESSES as int)].state == State::Runnable {
        Some((current + step) % (MAX_PROCESSES as int))
    } else {
        next_runnable(s, current, step + 1)
    }
}

/// The running slot charged with one tick at `tick`.
pub open spec fn charged(r: Slot, tick: u64) -> Slot {
    Slot {
        ticks: r.ticks.wrapping_add(1),
        first_tick: if r.first_tick == 0 { tick } else { r.first_tick },
        last_tick: tick,
        ..r
    }
}

impl Processes {
    /// Charges one timer tick to the running process and gives the
    /// processor to the next runnable one after it, wrapping: with `n`
    /// runnable processes each gets one turn in `n`, and with one the switch
    /// is skipped rather than made onto itself. A running slot the table
    /// does not call runnable is left as it is, and nothing switches:
    /// nothing can be repaired by guessing.
    pub fn preempt(&mut self, current: usize, tick: u64) -> (p: Preemption)
        requires
            old(self).wf(),
            current < MAX_PROCESSES,
        ensures
            final(self).wf(),
            final(self).counters() == old(self).counters(),
            ({
                let s = old(self).table();
                let c = s.update(current as int, charged(s[current as int], tick));
                if s[current as int].state != State::Runnable {
                    p == Preemption::Stay && final(self).table() == s
                } else {
                    match next_runnable(c, current as int, 1) {
                        Some(n) => if n == current {
                            p == Preemption::Stay && final(self).table() == c
                        } else {
                            &&& p == (Preemption::Switch { to: n as usize, resumes: c[n].resumes_an_operation })
                            &&& final(self).table() == c.update(
                                n,
                                Slot { resumes_an_operation: false, quanta: c[n].quanta.wrapping_add(1), ..c[n] },
                            )
                        },
                        None => p == Preemption::Stay && final(self).table() == c,
                    }
                }
            }),
    {
        let mut running = self.slots[current];
        if running.state != State::Runnable {
            return Preemption::Stay;
        }
        running.ticks = running.ticks.wrapping_add(1);
        if running.first_tick == 0 {
            running.first_tick = tick;
        }
        running.last_tick = tick;
        self.slots.set(current, running);
        let ghost c = self.table();
        proof {
            assert(c =~= old(self).table().update(current as int, charged(old(self).table()[current as int], tick)));
        }
        let mut step: usize = 1;
        while step <= MAX_PROCESSES
            invariant
                self.wf(),
                self.table() == c,
                self.counters() == old(self).counters(),
                c == old(self).table().update(current as int, charged(old(self).table()[current as int], tick)),
                old(self).table()[current as int].state == State::Runnable,
                current < MAX_PROCESSES,
                1 <= step <= MAX_PROCESSES + 1,
                next_runnable(c, current as int, 1) == next_runnable(c, current as int, step as int),
            decreases MAX_PROCESSES + 1 - step,
        {
            let index = (current + step) % MAX_PROCESSES;
            if self.slots[index].state == State::Runnable {
                if index == current {
                    return Preemption::Stay;
                }
                let mut next = self.slots[index];
                let resumes = next.resumes_an_operation;
                next.resumes_an_operation = false;
                next.quanta = next.quanta.wrapping_add(1);
                self.slots.set(index, next);
                return Preemption::Switch { to: index, resumes };
            }
            step = step + 1;
        }
        Preemption::Stay
    }
}

/// Where the scheduler's liveness rule stands: how many times it fired
/// without a message delivered in between, and the delivery count when it
/// last did.
pub struct Liveness {
    pub firings: u32,
    pub deliveries: u64,
}

impl Processes {
    /// The scheduler's next step. Anything ending goes back first; then the
    /// lowest runnable slot runs. With nothing runnable, nothing waiting
    /// means the work is done; something waiting means nothing can end the
    /// waits, so they are cancelled, and if they were cancelled already and
    /// no message moved since, the contexts are waiting for each other and
    /// are ended.
    pub fn next_turn(&mut self, liveness: &mut Liveness, delivered: u64) -> (t: Turn)
        requires
            old(self).wf(),
        ensures
            final(self).wf(),
            final(self).counters() == old(self).counters(),
            ({
                let s = old(self).table();
                let ending = first_where(s, |x: Slot| x.state == State::Ending, 0);
                let runnable = first_where(s, |x: Slot| x.state == State::Runnable, 0);
                let blocked = first_where(s, |x: Slot| x.state == State::Blocked, 0);
                if ending is Some {
                    t == Turn::Retire(ending.unwrap() as usize) && final(self).table() == s && *final(liveness) == *old(liveness)
                } else if runnable is Some {
                    let i = runnable.unwrap();
                    &&& t == (Turn::Run { index: i as usize, resumes: s[i].resumes_an_operation })
                    &&& final(self).table() == s.update(i, Slot {
                        quanta: s[i].quanta.wrapping_add(1),
                        resumes_an_operation: false,
                        ..s[i]
                    })
                    &&& *final(liveness) == *old(liveness)
                } else if blocked is None {
                    t == Turn::Finished && final(self).table() == s && *final(liveness) == *old(liveness)
                } else if old(liveness).firings > 0 && delivered == old(liveness).deliveries {
                    t == Turn::Deadlocked && final(self).table() == deadlocked(s) && *final(liveness) == *old(liveness)
                } else {
                    &&& t == Turn::Cancelled
                    &&& final(self).table() == cancelled_upto(s, MAX_PROCESSES as int)
                    &&& final(liveness).firings == 1
                    &&& final(liveness).deliveries == delivered
                }
            }),
    {
        if let Some(i) = self.first_in(State::Ending) {
            proof {
                lemma_first_where_holds(self.table(), |x: Slot| x.state == State::Ending, 0);
            }
            return Turn::Retire(i);
        }
        if let Some(i) = self.first_runnable() {
            proof {
                lemma_first_where_holds(self.table(), |x: Slot| x.state == State::Runnable, 0);
            }
            let mut s = self.slots[i];
            let resumes = s.resumes_an_operation;
            s.quanta = s.quanta.wrapping_add(1);
            s.resumes_an_operation = false;
            self.slots.set(i, s);
            return Turn::Run { index: i, resumes };
        }
        if !self.any_blocked() {
            return Turn::Finished;
        }
        if liveness.firings > 0 && delivered == liveness.deliveries {
            self.end_every_block();
            return Turn::Deadlocked;
        }
        liveness.firings = 1;
        liveness.deliveries = delivered;
        let _ = self.cancel_every_block();
        Turn::Cancelled
    }
}

/// A reply capability is single-use: once the call it answers has ended,
/// however it ended, the token it carries no longer names the call.
pub proof fn lemma_reply_is_single_use(s: Slot)
    requires
        s.state == State::Blocked,
        s.waiting == Waiting::Reply,
    ensures
        woken(s).reply_generation != s.reply_generation,
        woken(s).waiting != Waiting::Reply,
{
}


/// What the pool's grant to a process reported: the grant format's version,
/// how many bytes it is, and the identity it was made for.
#[derive(Clone, Copy, Debug, PartialEq, Eq, Structural)]
pub struct GrantFacts {
    pub version: u32,
    pub length: u64,
    pub identity: u64,
}

/// The fixed part of a launch record: every address the process will use,
/// and what it was launched over.
#[derive(Clone, Copy, Debug)]
pub struct LaunchHeader {
    pub version: u32,
    pub unit_count: u32,
    pub entry_index: u32,
    pub grant_version: u32,
    pub grant_base: u64,
    pub grant_length: u64,
    pub grant_identity: u64,
    pub units: u64,
    pub report_base: u64,
    pub report_length: u64,
    pub stack_base: u64,
    pub stack_length: u64,
    pub arguments_base: u64,
    pub arguments_length: u64,
    pub capabilities: u64,
    pub capability_count: u32,
    pub reserved: u32,
    pub source_set: [u8; 96],
}

/// The record's copy of the source set's declared identity: as much of it as
/// the field holds, and zeros after.
pub open spec fn source_set_field(identity: Seq<u8>) -> Seq<u8> {
    Seq::new(96, |i: int| if i < identity.len() { identity[i] } else { 0u8 })
}

/// The fixed part of the launch record of a process entered at module
/// `entry_index` of `t`, with the grant the pool made and the record laid out
/// as `layout` says. The capability count is written once the process has a
/// slot to hold them in, so it starts at zero.
pub fn launch_header(t: &Template, version: u32, entry_index: usize, grant: GrantFacts, layout: RecordLayout) -> (h: LaunchHeader)
    requires
        t.units_view().len() <= u32::MAX,
        entry_index <= u32::MAX,
        RECORD + layout.capabilities_at <= u64::MAX,
    ensures
        h.version == version,
        h.unit_count == t.units_view().len(),
        h.entry_index == entry_index,
        h.grant_version == grant.version,
        h.grant_base == GRANT,
        h.grant_length == grant.length,
        h.grant_identity == grant.identity,
        h.units == layout.units,
        h.report_base == REPORT,
        h.report_length == REPORT_FRAMES * FRAME_SIZE,
        h.stack_base == STACK,
        h.stack_length == STACK_FRAMES * FRAME_SIZE,
        h.arguments_base == ARGUMENTS,
        h.arguments_length == ARGUMENT_FRAMES * FRAME_SIZE,
        h.capabilities == RECORD + layout.capabilities_at,
        h.capability_count == 0,
        h.reserved == 0,
        h.source_set@ == source_set_field(t.source_set_view()),
{
    let units = t.units();
    proof {
        assert(units@.map_values(|x: crate::launch::Unit| crate::launch::unit_view(x)) == t.units_view());
        assert(units@.len() == t.units_view().len());
    }
    let identity = t.source_set();
    let mut source_set = [0u8; 96];
    let mut i: usize = 0;
    while i < 96
        invariant
            i <= 96,
            identity@ == t.source_set_view(),
            forall|j: int| 0 <= j < i ==> #[trigger] source_set@[j] == source_set_field(identity@)[j],
            forall|j: int| i <= j < 96 ==> #[trigger] source_set@[j] == 0u8,
        decreases 96 - i,
    {
        if i < identity.len() {
            source_set[i] = identity[i];
        }
        i = i + 1;
    }
    proof {
        assert(source_set@ =~= source_set_field(identity@));
    }
    LaunchHeader {
        version,
        unit_count: units.len() as u32,
        entry_index: entry_index as u32,
        grant_version: grant.version,
        grant_base: GRANT,
        grant_length: grant.length,
        grant_identity: grant.identity,
        units: layout.units,
        report_base: REPORT,
        report_length: REPORT_FRAMES * FRAME_SIZE,
        stack_base: STACK,
        stack_length: STACK_FRAMES * FRAME_SIZE,
        arguments_base: ARGUMENTS,
        arguments_length: ARGUMENT_FRAMES * FRAME_SIZE,
        capabilities: RECORD + layout.capabilities_at,
        capability_count: 0,
        reserved: 0,
        source_set,
    }
}


/// Whether a process can be built at all, before anything is taken from the
/// pool, in the order the checks are made: a boot with no template has no
/// runtime image; an entry index the set does not hold names no module; and
/// an empty image is no runtime image either. Refused rather than clamped: a
/// process launched over another module than the one asked for is a process
/// nobody asked for.
pub fn launch_admits(template: Option<&Template>, entry_index: usize, image_length: u64) -> (r: Result<(), Unlaunchable>)
    ensures
        r == (match template {
            None => Err::<(), Unlaunchable>(Unlaunchable::NoRuntimeImage),
            Some(t) => if entry_index >= t.units_view().len() {
                Err::<(), Unlaunchable>(Unlaunchable::NoSuchModule)
            } else if image_length == 0 {
                Err::<(), Unlaunchable>(Unlaunchable::NoRuntimeImage)
            } else {
                Ok(())
            },
        }),
{
    let t = match template {
        Some(t) => t,
        None => return Err(Unlaunchable::NoRuntimeImage),
    };
    if !t.holds(entry_index) {
        return Err(Unlaunchable::NoSuchModule);
    }
    if image_length == 0 {
        return Err(Unlaunchable::NoRuntimeImage);
    }
    Ok(())
}


/// The parts of a process's address space, each mapped with its own rights.
#[derive(Clone, Copy, Debug, PartialEq, Eq, Structural)]
pub enum Area {
    Text,
    Data,
    Source,
    Grant,
    Stack,
    Report,
    Arguments,
    Record,
}

/// Present, user and not executable: what is read and never run.
pub const READ_ONLY_FLAGS: u64 = 0x8000_0000_0000_0005;

/// The page flags an area is mapped with: text present and executable but
/// read-only; the source set and the launch record read-only and not
/// executable; everything a process writes writable and not executable.
pub open spec fn area_flags_spec(area: Area) -> u64 {
    match area {
        Area::Text => PRESENT_USER,
        Area::Source => READ_ONLY_FLAGS,
        Area::Record => READ_ONLY_FLAGS,
        _ => FRESH_FLAGS,
    }
}

/// A mapping that could be both written and run.
pub open spec fn writable_and_executable(flags: u64) -> bool {
    flags & crate::paging::WRITABLE != 0 && flags & crate::paging::NO_EXECUTE == 0
}

/// No area of a process is ever mapped both writable and executable, every
/// area is present and reachable from user mode, and only the text can run.
pub proof fn lemma_no_area_writable_and_executable(area: Area)
    ensures
        !writable_and_executable(area_flags_spec(area)),
        area_flags_spec(area) & crate::paging::PRESENT != 0,
        area_flags_spec(area) & crate::paging::USER != 0,
        (area_flags_spec(area) & crate::paging::NO_EXECUTE == 0) == (area == Area::Text),
{
    assert(5u64 & 2u64 == 0 && 5u64 & 0x8000_0000_0000_0000u64 == 0 && 5u64 & 1u64 != 0 && 5u64 & 4u64 != 0) by (bit_vector);
    assert(0x8000_0000_0000_0005u64 & 2u64 == 0 && 0x8000_0000_0000_0005u64 & 0x8000_0000_0000_0000u64 != 0
        && 0x8000_0000_0000_0005u64 & 1u64 != 0 && 0x8000_0000_0000_0005u64 & 4u64 != 0) by (bit_vector);
    assert(0x8000_0000_0000_0007u64 & 0x8000_0000_0000_0000u64 != 0 && 0x8000_0000_0000_0007u64 & 1u64 != 0
        && 0x8000_0000_0000_0007u64 & 4u64 != 0) by (bit_vector);
}

/// The page flags `area` is mapped with.
pub fn area_flags(area: Area) -> (flags: u64)
    ensures
        flags == area_flags_spec(area),
        !writable_and_executable(flags),
{
    proof {
        lemma_no_area_writable_and_executable(area);
    }
    match area {
        Area::Text => PRESENT_USER,
        Area::Source => READ_ONLY_FLAGS,
        Area::Record => READ_ONLY_FLAGS,
        _ => FRESH_FLAGS,
    }
}

/// One part of a process's address space: where it starts in the process,
/// how many bytes it covers, and the flags its pages carry.
#[derive(Clone, Copy, Debug, PartialEq, Eq, Structural)]
pub struct PlannedMapping {
    pub area: Area,
    pub at: u64,
    pub length: u64,
    pub flags: u64,
}

/// The plan of a process's address space: what is mapped where, with what
/// rights.
pub open spec fn mapping_plan_spec(header: ImageHeader, source_length: u64, grant_length: u64, record_length: u64) -> Seq<PlannedMapping> {
    seq![
        PlannedMapping { area: Area::Text, at: IMAGE, length: header.text, flags: area_flags_spec(Area::Text) },
        PlannedMapping { area: Area::Data, at: (IMAGE + header.text) as u64, length: (header.memory - header.text) as u64, flags: area_flags_spec(Area::Data) },
        PlannedMapping { area: Area::Source, at: SOURCE, length: source_length, flags: area_flags_spec(Area::Source) },
        PlannedMapping { area: Area::Grant, at: GRANT, length: grant_length, flags: area_flags_spec(Area::Grant) },
        PlannedMapping { area: Area::Stack, at: STACK, length: (STACK_FRAMES * FRAME_SIZE) as u64, flags: area_flags_spec(Area::Stack) },
        PlannedMapping { area: Area::Report, at: REPORT, length: (REPORT_FRAMES * FRAME_SIZE) as u64, flags: area_flags_spec(Area::Report) },
        PlannedMapping { area: Area::Arguments, at: ARGUMENTS, length: (ARGUMENT_FRAMES * FRAME_SIZE) as u64, flags: area_flags_spec(Area::Arguments) },
        PlannedMapping { area: Area::Record, at: RECORD, length: record_length, flags: area_flags_spec(Area::Record) },
    ]
}

/// The mapping plan of a process whose image has `header`, whose source set
/// spans `source_length` bytes from the frame it starts in, whose grant is
/// `grant_length` bytes and whose launch record `record_length`: every area
/// at its fixed address, and none of them both writable and executable.
pub fn mapping_plan(header: ImageHeader, source_length: u64, grant_length: u64, record_length: u64) -> (plan: Vec<PlannedMapping>)
    requires
        header.text <= header.memory,
        IMAGE + header.memory <= u64::MAX,
    ensures
        plan@ == mapping_plan_spec(header, source_length, grant_length, record_length),
        forall|i: int| 0 <= i < plan@.len() ==> !writable_and_executable(#[trigger] plan@[i].flags)
            && plan@[i].flags == area_flags_spec(plan@[i].area),
{
    let mut plan: Vec<PlannedMapping> = Vec::new();
    plan.push(PlannedMapping { area: Area::Text, at: IMAGE, length: header.text, flags: area_flags(Area::Text) });
    plan.push(PlannedMapping { area: Area::Data, at: IMAGE + header.text, length: header.memory - header.text, flags: area_flags(Area::Data) });
    plan.push(PlannedMapping { area: Area::Source, at: SOURCE, length: source_length, flags: area_flags(Area::Source) });
    plan.push(PlannedMapping { area: Area::Grant, at: GRANT, length: grant_length, flags: area_flags(Area::Grant) });
    plan.push(PlannedMapping { area: Area::Stack, at: STACK, length: STACK_FRAMES * FRAME_SIZE, flags: area_flags(Area::Stack) });
    plan.push(PlannedMapping { area: Area::Report, at: REPORT, length: REPORT_FRAMES * FRAME_SIZE, flags: area_flags(Area::Report) });
    plan.push(PlannedMapping { area: Area::Arguments, at: ARGUMENTS, length: ARGUMENT_FRAMES * FRAME_SIZE, flags: area_flags(Area::Arguments) });
    plan.push(PlannedMapping { area: Area::Record, at: RECORD, length: record_length, flags: area_flags(Area::Record) });
    proof {
        assert(plan@ =~= mapping_plan_spec(header, source_length, grant_length, record_length));
        assert forall|i: int| 0 <= i < plan@.len() implies !writable_and_executable(#[trigger] plan@[i].flags)
            && plan@[i].flags == area_flags_spec(plan@[i].area) by {
            lemma_no_area_writable_and_executable(plan@[i].area);
        }
    }
    plan
}

} // verus!
