//! Memory authority and region objects: two fixed tables and one rule between
//! them.
//!
//! A `MemoryAuthority` is the right to spend a finite amount of memory. The
//! root one is endowed at boot; every other is reserved out of a parent by
//! attenuation, which moves budget rather than copying it. A `RegionObject` is
//! memory with an identity, a mode and a count of what can still reach it.
//!
//! ```text
//! attenuate(parent, n)   parent.remaining -= n, child.budget = child.remaining = n
//! allocate(child, n)     child.remaining -= n, a region appears
//! release / revoke       a child's unspent, unreserved remainder returns upward
//! reclaim                a dead region's bytes return to the authority that
//!                        funded it, and drain upward from there
//! ```
//!
//! The accounting invariant `allocated + reserved + remaining == budget` holds
//! at every live node after every operation, together with the two sums that
//! tie a node to its children and to what it funded; `Regions::wf` states it
//! and every operation preserves it.
use vstd::prelude::*;

verus! {

/// How many authorities the nucleus tracks at once.
pub const MAX_AUTHORITIES: usize = 64;

/// How many region objects exist at once.
pub const MAX_REGIONS: usize = 64;

/// How many process charges can be outstanding at once.
pub const MAX_CHARGES: usize = 16;

/// Why an operation on an authority or a region was refused.
#[derive(Clone, Copy, Debug, PartialEq, Eq, Structural)]
pub enum Refusal {
    /// The table is full.
    NoRoom,
    /// The authority or region named does not exist, or its generation is stale.
    NotFound,
    /// The authority has less than was asked of it.
    Budget,
    /// The request cannot be expressed in the arithmetic that would serve it.
    BadArgument,
    /// The region is not in the mode this operation requires.
    WrongMode,
    /// The caller is not the one holder this operation requires.
    NotTheHolder,
    /// A zero-sized authority or region.
    Empty,
    /// The tree has been stopped; nothing new may be reserved or spent.
    Stopped,
}

/// A handle into the authority table, with the generation that makes a stale
/// one detectable.
#[derive(Clone, Copy, Debug, PartialEq, Eq, Structural)]
pub struct AuthorityId {
    pub index: u32,
    pub generation: u32,
}

/// The same, for regions.
#[derive(Clone, Copy, Debug, PartialEq, Eq, Structural)]
pub struct RegionId {
    pub index: u32,
    pub generation: u32,
}

/// What a region may be done to.
#[derive(Clone, Copy, Debug, PartialEq, Eq, Structural)]
pub enum Mode {
    /// Readable and writable, held by exactly one process.
    Mutable,
    /// Readable and shareable, and never writable again.
    Immutable,
}

/// One accounting node.
#[derive(Clone, Copy, Debug)]
pub struct Authority {
    pub live: bool,
    /// How many live references can still produce a valid holder of this node.
    pub names: usize,
    pub generation: u32,
    /// Which occupant of this slot this is; moves only when the slot is reused.
    pub incarnation: u32,
    /// `None` for a root.
    pub parent: Option<u32>,
    /// What this node was given.
    pub budget: usize,
    /// What it may still reserve or spend itself.
    pub remaining: usize,
    /// The sum of its children's budgets.
    pub reserved: usize,
    /// The backing live under it, charged to this node itself.
    pub allocated: usize,
    /// How many children still exist.
    pub children: usize,
}

/// One region object.
#[derive(Clone, Copy, Debug)]
pub struct Region {
    pub live: bool,
    pub generation: u32,
    pub bytes: usize,
    pub mutable: bool,
    /// Which authority paid for it.
    pub charged_to: u32,
    /// How many capabilities name it.
    pub capabilities: usize,
    /// How many address spaces have it mapped, by mode.
    pub writable_mappings: usize,
    pub readable_mappings: usize,
    /// Which process holds it; `u32::MAX` is nobody.
    pub holder: u32,
}

/// One outstanding process charge, as the ledger holds it.
#[derive(Clone, Copy, Debug)]
pub struct Charge {
    pub live: bool,
    /// Which occupant of this slot this is; moves when the charge is settled.
    pub incarnation: u32,
    /// The accounting node that paid, and which occupant of that slot it was.
    pub authority: u32,
    pub authority_incarnation: u32,
    pub bytes: usize,
}

/// A receipt naming one outstanding charge in the ledger.
///
/// It names the charge, not the amount: the ledger holds which authority
/// funded it and how many bytes, and a refund finds that charge or nothing.
/// Neither `Copy` nor `Clone`, so an ordinary lifecycle cannot spend one twice.
#[derive(Debug, PartialEq, Eq)]
pub struct GrantCharge {
    slot: u32,
    incarnation: u32,
    charged: usize,
}

impl GrantCharge {
    /// The ledger slot this receipt names.
    pub closed spec fn slot_spec(&self) -> u32 {
        self.slot
    }

    /// Which occupant of that slot it names.
    pub closed spec fn incarnation_spec(&self) -> u32 {
        self.incarnation
    }

    /// What was debited, as the receipt reports it.
    pub closed spec fn charged_spec(&self) -> usize {
        self.charged
    }

    /// What was actually debited: the rounded figure.
    pub fn charged(&self) -> (r: usize)
        ensures
            r == self.charged_spec(),
    {
        self.charged
    }

    /// A second receipt for one charge, so that a test can attempt what an
    /// ordinary lifecycle cannot express and watch the ledger refuse it.
    pub fn forged_duplicate(&self) -> (r: GrantCharge)
        ensures
            r.slot_spec() == self.slot_spec(),
            r.incarnation_spec() == self.incarnation_spec(),
            r.charged_spec() == self.charged_spec(),
    {
        GrantCharge { slot: self.slot, incarnation: self.incarnation, charged: self.charged }
    }
}

// ---------------------------------------------------------------------------
// Sums over the fixed tables.

/// The sum of `f(0) + ... + f(n - 1)`.
pub open spec fn sum_to(f: spec_fn(int) -> int, n: int) -> int
    decreases n,
{
    if n <= 0 {
        0
    } else {
        sum_to(f, n - 1) + f(n - 1)
    }
}

pub proof fn lemma_sum_same(f: spec_fn(int) -> int, g: spec_fn(int) -> int, n: int)
    requires
        forall|j: int| 0 <= j < n ==> #[trigger] f(j) == g(j),
    ensures
        sum_to(f, n) == sum_to(g, n),
    decreases n,
{
    if n > 0 {
        lemma_sum_same(f, g, n - 1);
    }
}

pub proof fn lemma_sum_update(f: spec_fn(int) -> int, g: spec_fn(int) -> int, n: int, k: int)
    requires
        0 <= k < n,
        forall|j: int| 0 <= j < n && j != k ==> #[trigger] f(j) == g(j),
    ensures
        sum_to(g, n) == sum_to(f, n) - f(k) + g(k),
    decreases n,
{
    if n - 1 == k {
        lemma_sum_same(f, g, n - 1);
    } else {
        lemma_sum_update(f, g, n - 1, k);
    }
}

pub proof fn lemma_sum_nonneg(f: spec_fn(int) -> int, n: int)
    requires
        forall|j: int| 0 <= j < n ==> #[trigger] f(j) >= 0,
    ensures
        sum_to(f, n) >= 0,
    decreases n,
{
    if n > 0 {
        lemma_sum_nonneg(f, n - 1);
    }
}

proof fn lemma_sum_ge_term(f: spec_fn(int) -> int, n: int, k: int)
    requires
        0 <= k < n,
        forall|j: int| 0 <= j < n ==> #[trigger] f(j) >= 0,
    ensures
        sum_to(f, n) >= f(k),
    decreases n,
{
    if n - 1 == k {
        lemma_sum_nonneg(f, n - 1);
    } else {
        lemma_sum_ge_term(f, n - 1, k);
    }
}

proof fn lemma_sum_le(f: spec_fn(int) -> int, g: spec_fn(int) -> int, n: int)
    requires
        forall|j: int| 0 <= j < n ==> #[trigger] f(j) <= g(j),
    ensures
        sum_to(f, n) <= sum_to(g, n),
    decreases n,
{
    if n > 0 {
        lemma_sum_le(f, g, n - 1);
    }
}

proof fn lemma_sum_zero(f: spec_fn(int) -> int, n: int)
    requires
        forall|j: int| 0 <= j < n ==> #[trigger] f(j) == 0,
    ensures
        sum_to(f, n) == 0,
    decreases n,
{
    if n > 0 {
        lemma_sum_zero(f, n - 1);
    }
}

proof fn lemma_sum_const_one(n: int)
    requires
        n >= 0,
    ensures
        sum_to(|j: int| 1int, n) == n,
    decreases n,
{
    if n > 0 {
        lemma_sum_const_one(n - 1);
    }
}

/// A sum of nonnegative terms that is zero has every term zero.
proof fn lemma_sum_zero_terms(f: spec_fn(int) -> int, n: int, k: int)
    requires
        0 <= k < n,
        forall|j: int| 0 <= j < n ==> #[trigger] f(j) >= 0,
        sum_to(f, n) == 0,
    ensures
        f(k) == 0,
{
    lemma_sum_ge_term(f, n, k);
}

/// A node's contribution to its parent's `reserved`.
pub open spec fn budget_of_child(a: Authority, p: int) -> int {
    if a.live && a.parent == Some(p as u32) {
        a.budget as int
    } else {
        0
    }
}

/// A node's contribution to its parent's `children`.
pub open spec fn count_of_child(a: Authority, p: int) -> int {
    if a.live && a.parent == Some(p as u32) {
        1
    } else {
        0
    }
}

/// A region's contribution to its funder's `allocated`.
pub open spec fn region_contribution(r: Region, i: int) -> int {
    if r.live && r.charged_to == i as u32 {
        r.bytes as int
    } else {
        0
    }
}

/// A charge's contribution to its funder's `allocated`.
pub open spec fn charge_contribution(c: Charge, i: int) -> int {
    if c.live && c.authority == i as u32 {
        c.bytes as int
    } else {
        0
    }
}

/// The sum of the budgets of node `p`'s live children.
pub open spec fn child_budget_sum(a: Seq<Authority>, p: int) -> int {
    sum_to(|j: int| budget_of_child(a[j], p), MAX_AUTHORITIES as int)
}

/// How many live children node `p` has.
pub open spec fn child_count(a: Seq<Authority>, p: int) -> int {
    sum_to(|j: int| count_of_child(a[j], p), MAX_AUTHORITIES as int)
}

/// The bytes of the live regions charged to node `i`.
pub open spec fn region_sum(r: Seq<Region>, i: int) -> int {
    sum_to(|j: int| region_contribution(r[j], i), MAX_REGIONS as int)
}

/// The bytes of the live charges held against node `i`.
pub open spec fn charge_sum(c: Seq<Charge>, i: int) -> int {
    sum_to(|j: int| charge_contribution(c[j], i), MAX_CHARGES as int)
}

/// How many authority slots are live.
pub open spec fn live_count(a: Seq<Authority>) -> int {
    sum_to(|j: int| if a[j].live { 1int } else { 0int }, MAX_AUTHORITIES as int)
}

// ---------------------------------------------------------------------------
// The invariant.

/// Node `i` keeps the accounting, except that `slack` bytes of node `k` are in
/// flight between two of its fields.
pub open spec fn node_ok(
    a: Seq<Authority>,
    r: Seq<Region>,
    c: Seq<Charge>,
    i: int,
    k: int,
    slack: int,
) -> bool {
    let n = a[i];
    n.live ==> {
        &&& n.allocated + n.reserved + n.remaining + (if i == k { slack } else { 0 }) == n.budget
        &&& n.reserved == child_budget_sum(a, i)
        &&& n.children == child_count(a, i)
        &&& n.allocated == region_sum(r, i) + charge_sum(c, i)
        &&& match n.parent {
            Some(p) => p < MAX_AUTHORITIES && p != i && a[p as int].live,
            None => true,
        }
    }
}

/// A live region names a live funder and has bytes.
pub open spec fn region_ok(a: Seq<Authority>, r: Seq<Region>, j: int) -> bool {
    r[j].live ==> {
        &&& r[j].charged_to < MAX_AUTHORITIES
        &&& a[r[j].charged_to as int].live
        &&& r[j].bytes > 0
    }
}

/// A live charge names the live occupant of its funder's slot and has bytes.
pub open spec fn charge_ok(a: Seq<Authority>, c: Seq<Charge>, j: int) -> bool {
    c[j].live ==> {
        &&& c[j].authority < MAX_AUTHORITIES
        &&& a[c[j].authority as int].live
        &&& a[c[j].authority as int].incarnation == c[j].authority_incarnation
        &&& c[j].bytes > 0
    }
}

/// The whole invariant, with `slack` bytes of node `k` in flight.
pub open spec fn tables_ok(
    a: Seq<Authority>,
    r: Seq<Region>,
    c: Seq<Charge>,
    k: int,
    slack: int,
) -> bool {
    &&& a.len() == MAX_AUTHORITIES
    &&& r.len() == MAX_REGIONS
    &&& c.len() == MAX_CHARGES
    &&& forall|i: int| 0 <= i < MAX_AUTHORITIES ==> #[trigger] node_ok(a, r, c, i, k, slack)
    &&& forall|j: int| 0 <= j < MAX_REGIONS ==> #[trigger] region_ok(a, r, j)
    &&& forall|j: int| 0 <= j < MAX_CHARGES ==> #[trigger] charge_ok(a, c, j)
}

/// What the public accounting check reports: at every live node,
/// `allocated + reserved + remaining == budget`, `reserved` is the sum of the
/// live children's budgets and `children` is their number.
pub open spec fn accounting_spec(a: Seq<Authority>) -> bool {
    forall|i: int|
        0 <= i < MAX_AUTHORITIES && #[trigger] a[i].live ==> {
            &&& a[i].allocated + a[i].reserved + a[i].remaining == a[i].budget
            &&& a[i].reserved == child_budget_sum(a, i)
            &&& a[i].children == child_count(a, i)
        }
}

// ---------------------------------------------------------------------------
// Lookups, as the model states them.

/// Whether an id names a live, named node of that generation.
pub open spec fn resolves_authority(a: Seq<Authority>, id: AuthorityId) -> bool {
    &&& id.index < MAX_AUTHORITIES
    &&& a[id.index as int].live
    &&& a[id.index as int].names > 0
    &&& a[id.index as int].generation == id.generation
}

/// Whether an id names a live region of that generation.
pub open spec fn resolves_region(r: Seq<Region>, id: RegionId) -> bool {
    &&& id.index < MAX_REGIONS
    &&& r[id.index as int].live
    &&& r[id.index as int].generation == id.generation
}

/// `i` is the lowest free authority slot.
pub open spec fn first_free_authority(a: Seq<Authority>, i: int) -> bool {
    &&& 0 <= i < MAX_AUTHORITIES
    &&& !a[i].live
    &&& forall|j: int| 0 <= j < i ==> #[trigger] a[j].live
}

/// What `endow_root(bytes)` does to the authority table: refuse a zero size,
/// refuse a full table, or make a root in the lowest free slot.
pub open spec fn endowed(old: Seq<Authority>, new: Seq<Authority>, bytes: usize, r: Result<AuthorityId, Refusal>) -> bool {
    if bytes == 0 {
        r == Err::<AuthorityId, Refusal>(Refusal::Empty) && new == old
    } else if !authority_slot_free(old) {
        r == Err::<AuthorityId, Refusal>(Refusal::NoRoom) && new == old
    } else {
        &&& r is Ok
        &&& first_free_authority(old, r->Ok_0.index as int)
        &&& r->Ok_0.generation == old[r->Ok_0.index as int].generation.wrapping_add(1)
        &&& new == old.update(
            r->Ok_0.index as int,
            fresh_node(None, bytes, r->Ok_0.generation, old[r->Ok_0.index as int].incarnation.wrapping_add(1)),
        )
    }
}

/// What `attenuate(parent, bytes)` does to the authority table, in the order
/// its refusals are checked.
pub open spec fn attenuated(
    old: Seq<Authority>,
    new: Seq<Authority>,
    stopped: bool,
    parent: AuthorityId,
    bytes: usize,
    r: Result<AuthorityId, Refusal>,
) -> bool {
    if stopped {
        r == Err::<AuthorityId, Refusal>(Refusal::Stopped) && new == old
    } else if bytes == 0 {
        r == Err::<AuthorityId, Refusal>(Refusal::Empty) && new == old
    } else if !resolves_authority(old, parent) {
        r == Err::<AuthorityId, Refusal>(Refusal::NotFound) && new == old
    } else if old[parent.index as int].remaining < bytes {
        r == Err::<AuthorityId, Refusal>(Refusal::Budget) && new == old
    } else if !authority_slot_free(old) {
        r == Err::<AuthorityId, Refusal>(Refusal::NoRoom) && new == old
    } else {
        let p = parent.index as int;
        let i = r->Ok_0.index as int;
        &&& r is Ok
        &&& first_free_authority(old, i)
        &&& r->Ok_0.generation == old[i].generation.wrapping_add(1)
        &&& new == old.update(p, reserving(old[p], bytes)).update(
            i,
            fresh_node(Some(parent.index), bytes, r->Ok_0.generation, old[i].incarnation.wrapping_add(1)),
        )
    }
}

/// What `allocate_rounded` does to the two tables, in the order its refusals
/// are checked.
pub open spec fn allocated_region(
    old_a: Seq<Authority>,
    new_a: Seq<Authority>,
    old_r: Seq<Region>,
    new_r: Seq<Region>,
    stopped: bool,
    authority: AuthorityId,
    bytes: usize,
    granule: usize,
    holder: u32,
    r: Result<RegionId, Refusal>,
) -> bool {
    if stopped {
        r == Err::<RegionId, Refusal>(Refusal::Stopped) && new_a == old_a && new_r == old_r
    } else if bytes == 0 {
        r == Err::<RegionId, Refusal>(Refusal::Empty) && new_a == old_a && new_r == old_r
    } else if rounded(bytes, granule) is None {
        r == Err::<RegionId, Refusal>(Refusal::BadArgument) && new_a == old_a && new_r == old_r
    } else if !resolves_authority(old_a, authority) {
        r == Err::<RegionId, Refusal>(Refusal::NotFound) && new_a == old_a && new_r == old_r
    } else if old_a[authority.index as int].remaining < rounded(bytes, granule)->0 {
        r == Err::<RegionId, Refusal>(Refusal::Budget) && new_a == old_a && new_r == old_r
    } else if !region_slot_free(old_r) {
        r == Err::<RegionId, Refusal>(Refusal::NoRoom) && new_a == old_a && new_r == old_r
    } else {
        let at = authority.index as int;
        let b = rounded(bytes, granule)->0;
        let i = r->Ok_0.index as int;
        &&& r is Ok
        &&& first_free_region(old_r, i)
        &&& r->Ok_0.generation == old_r[i].generation.wrapping_add(1)
        &&& new_a == old_a.update(at, spending(old_a[at], b))
        &&& new_r == old_r.update(
            i,
            Region {
                live: true,
                generation: r->Ok_0.generation,
                bytes: b,
                mutable: true,
                charged_to: authority.index,
                capabilities: 1,
                writable_mappings: 0,
                readable_mappings: 0,
                holder,
            },
        )
    }
}

/// What `charge_grant` does to the authority table and the ledger, in the
/// order its refusals are checked.
pub open spec fn charged_grant(
    old_a: Seq<Authority>,
    new_a: Seq<Authority>,
    old_c: Seq<Charge>,
    new_c: Seq<Charge>,
    stopped: bool,
    authority: AuthorityId,
    bytes: usize,
    granule: usize,
    r: Result<GrantCharge, Refusal>,
) -> bool {
    if stopped {
        r == Err::<GrantCharge, Refusal>(Refusal::Stopped) && new_a == old_a && new_c == old_c
    } else if rounded(bytes, granule) is None {
        r == Err::<GrantCharge, Refusal>(Refusal::BadArgument) && new_a == old_a && new_c == old_c
    } else if rounded(bytes, granule)->0 == 0 {
        r == Err::<GrantCharge, Refusal>(Refusal::Empty) && new_a == old_a && new_c == old_c
    } else if !resolves_authority(old_a, authority) {
        r == Err::<GrantCharge, Refusal>(Refusal::NotFound) && new_a == old_a && new_c == old_c
    } else if old_a[authority.index as int].remaining < rounded(bytes, granule)->0 {
        r == Err::<GrantCharge, Refusal>(Refusal::Budget) && new_a == old_a && new_c == old_c
    } else if !charge_slot_free(old_c) {
        r == Err::<GrantCharge, Refusal>(Refusal::NoRoom) && new_a == old_a && new_c == old_c
    } else {
        let at = authority.index as int;
        let b = rounded(bytes, granule)->0;
        let s = r->Ok_0.slot_spec() as int;
        &&& r is Ok
        &&& first_free_charge(old_c, s)
        &&& r->Ok_0.incarnation_spec() == old_c[s].incarnation
        &&& r->Ok_0.charged_spec() == b
        &&& new_a == old_a.update(at, spending(old_a[at], b))
        &&& new_c == old_c.update(
            s,
            Charge {
                live: true,
                incarnation: old_c[s].incarnation,
                authority: authority.index,
                authority_incarnation: old_a[at].incarnation,
                bytes: b,
            },
        )
    }
}

/// Whether `charge_grant(authority, bytes, granule)` succeeds on these tables:
/// none of its refusals applies.
pub open spec fn grant_fundable(
    a: Seq<Authority>,
    c: Seq<Charge>,
    stopped: bool,
    authority: AuthorityId,
    bytes: usize,
    granule: usize,
) -> bool {
    &&& !stopped
    &&& rounded(bytes, granule) is Some
    &&& rounded(bytes, granule)->0 != 0
    &&& resolves_authority(a, authority)
    &&& a[authority.index as int].remaining >= rounded(bytes, granule)->0
    &&& charge_slot_free(c)
}

/// How many ways a region can still be written.
pub open spec fn writable_aliases_spec(g: Region) -> int {
    if g.mutable {
        g.capabilities + g.writable_mappings
    } else {
        g.writable_mappings as int
    }
}

/// Whether nothing can reach a region any more.
pub open spec fn reclaimable(g: Region) -> bool {
    &&& g.live
    &&& g.capabilities == 0
    &&& g.writable_mappings == 0
    &&& g.readable_mappings == 0
}

/// The region table after `settle_region(at)`.
pub open spec fn settle_region_objects(r: Seq<Region>, at: int) -> Seq<Region> {
    if reclaimable(r[at]) {
        r.update(at, Region { live: false, holder: u32::MAX, ..r[at] })
    } else {
        r
    }
}

/// The authority table after `settle_region(at)`: a reclaimed region's bytes
/// go back to its funder, and from there up the lineage.
pub open spec fn settle_region_nodes(a: Seq<Authority>, r: Seq<Region>, at: int) -> Seq<Authority> {
    if reclaimable(r[at]) {
        let f = r[at].charged_to as int;
        let b = r[at].bytes as int;
        settle_authority_spec(
            keep_or_give_back_spec(a.update(f, Authority { allocated: (a[f].allocated - b) as usize, ..a[f] }), f, b),
            f,
        )
    } else {
        a
    }
}

/// What `refund_grant(charge)` does to the authority table and the ledger.
pub open spec fn refunded(
    old_a: Seq<Authority>,
    new_a: Seq<Authority>,
    old_c: Seq<Charge>,
    new_c: Seq<Charge>,
    charge: GrantCharge,
    r: Result<(), Refusal>,
) -> bool {
    let s = charge.slot_spec() as int;
    if s >= MAX_CHARGES || !old_c[s].live || old_c[s].incarnation != charge.incarnation_spec() {
        r == Err::<(), Refusal>(Refusal::NotFound) && new_a == old_a && new_c == old_c
    } else {
        let e = old_c[s];
        let at = e.authority as int;
        if !old_a[at].live || old_a[at].incarnation != e.authority_incarnation || old_a[at].allocated < e.bytes {
            r == Err::<(), Refusal>(Refusal::BadArgument) && new_a == old_a && new_c == old_c
        } else {
            &&& r == Ok::<(), Refusal>(())
            &&& new_c == old_c.update(s, Charge { live: false, incarnation: e.incarnation.wrapping_add(1), ..e })
            &&& new_a == settle_authority_spec(
                keep_or_give_back_spec(
                    old_a.update(at, Authority { allocated: (old_a[at].allocated - e.bytes) as usize, ..old_a[at] }),
                    at,
                    e.bytes as int,
                ),
                at,
            )
        }
    }
}

/// The node after the loss of its last name: nothing left to spend, and a new
/// generation so that stale handles fail.
pub open spec fn unnamed(n: Authority) -> Authority {
    Authority { names: 0, remaining: 0, generation: n.generation.wrapping_add(1), ..n }
}

/// The table after node `at` loses its last name: its remainder goes up the
/// lineage, and it retires if nothing is left under it.
pub open spec fn unnamed_spec(a: Seq<Authority>, at: int) -> Seq<Authority> {
    settle_authority_spec(give_back_spec(a.update(at, unnamed(a[at])), at, a[at].remaining as int), at)
}

/// What `release_name(id)` does to the authority table.
pub open spec fn released_name(old: Seq<Authority>, new: Seq<Authority>, id: AuthorityId, r: Result<(), Refusal>) -> bool {
    if !resolves_authority(old, id) {
        r == Err::<(), Refusal>(Refusal::NotFound) && new == old
    } else {
        let at = id.index as int;
        &&& r == Ok::<(), Refusal>(())
        &&& if old[at].names > 1 {
            new == old.update(at, Authority { names: (old[at].names - 1) as usize, ..old[at] })
        } else {
            new == unnamed_spec(old, at)
        }
    }
}

/// What `map(region, writable)` does to the region table: a writable mapping
/// of an immutable region is refused.
pub open spec fn mapped(old: Seq<Region>, new: Seq<Region>, region: RegionId, writable: bool, r: Result<(), Refusal>) -> bool {
    let g = old[region.index as int];
    if !resolves_region(old, region) {
        r == Err::<(), Refusal>(Refusal::NotFound) && new == old
    } else if writable && !g.mutable {
        r == Err::<(), Refusal>(Refusal::WrongMode) && new == old
    } else if writable {
        r == Ok::<(), Refusal>(()) && new == old.update(
            region.index as int,
            region_with(g, g.mutable, g.capabilities, (g.writable_mappings + 1) as usize, g.readable_mappings, g.holder),
        )
    } else {
        r == Ok::<(), Refusal>(()) && new == old.update(
            region.index as int,
            region_with(g, g.mutable, g.capabilities, g.writable_mappings, (g.readable_mappings + 1) as usize, g.holder),
        )
    }
}

/// What `freeze(region, holder)` does to the region table: the sole holder of
/// a mutable region makes it immutable, with no writable mapping left.
pub open spec fn frozen(old: Seq<Region>, new: Seq<Region>, region: RegionId, holder: u32, r: Result<(), Refusal>) -> bool {
    let g = old[region.index as int];
    if !resolves_region(old, region) {
        r == Err::<(), Refusal>(Refusal::NotFound) && new == old
    } else if !g.mutable {
        r == Err::<(), Refusal>(Refusal::WrongMode) && new == old
    } else if g.holder != holder || g.capabilities != 1 {
        r == Err::<(), Refusal>(Refusal::NotTheHolder) && new == old
    } else {
        r == Ok::<(), Refusal>(()) && new == old.update(
            region.index as int,
            region_with(g, false, g.capabilities, 0, g.readable_mappings, g.holder),
        )
    }
}

/// What `transfer(region, from, to)` does to the region table: an immutable
/// region held by `from` moves to `to`, with `from`'s mappings gone.
pub open spec fn transferred(old: Seq<Region>, new: Seq<Region>, region: RegionId, from: u32, to: u32, r: Result<(), Refusal>) -> bool {
    let g = old[region.index as int];
    if !resolves_region(old, region) {
        r == Err::<(), Refusal>(Refusal::NotFound) && new == old
    } else if g.mutable {
        r == Err::<(), Refusal>(Refusal::WrongMode) && new == old
    } else if g.holder != from {
        r == Err::<(), Refusal>(Refusal::NotTheHolder) && new == old
    } else {
        r == Ok::<(), Refusal>(()) && new == old.update(
            region.index as int,
            region_with(g, g.mutable, g.capabilities, g.writable_mappings, 0, to),
        )
    }
}

/// What `release(region)` does to the two tables: one capability fewer, and
/// the region reclaimed, its bytes going back to its funder, when that was the
/// last way to reach it.
pub open spec fn released(
    old_a: Seq<Authority>,
    new_a: Seq<Authority>,
    old_r: Seq<Region>,
    new_r: Seq<Region>,
    region: RegionId,
    r: Result<(), Refusal>,
) -> bool {
    let i = region.index as int;
    let g = old_r[i];
    let r2 = old_r.update(
        i,
        region_with(g, g.mutable, less_one(g.capabilities), g.writable_mappings, g.readable_mappings, g.holder),
    );
    if !resolves_region(old_r, region) {
        r == Err::<(), Refusal>(Refusal::NotFound) && new_r == old_r && new_a == old_a
    } else {
        &&& r == Ok::<(), Refusal>(())
        &&& new_r == settle_region_objects(r2, i)
        &&& new_a == settle_region_nodes(old_a, r2, i)
    }
}

/// Between two states of the region table: a region that was immutable is
/// still immutable for as long as the same region lives.
pub open spec fn frozen_kept(old: Seq<Region>, new: Seq<Region>) -> bool {
    forall|i: int|
        0 <= i < MAX_REGIONS && old[i].live && !old[i].mutable && #[trigger] new[i].live && new[i].generation == old[i].generation
            ==> !new[i].mutable
}

/// A region's table entry after its counters and mode changed in place.
pub open spec fn region_with(
    g: Region,
    mutable: bool,
    capabilities: usize,
    writable_mappings: usize,
    readable_mappings: usize,
    holder: u32,
) -> Region {
    Region { mutable, capabilities, writable_mappings, readable_mappings, holder, ..g }
}

/// Saturating decrement.
pub open spec fn less_one(x: usize) -> usize {
    if x == 0 {
        0
    } else {
        (x - 1) as usize
    }
}

/// The two tables after a process's regions are all reclaimed, one slot at a
/// time in slot order, over the first `n` slots.
pub open spec fn died_spec(a: Seq<Authority>, r: Seq<Region>, holder: u32, n: nat) -> (Seq<Authority>, Seq<Region>)
    decreases n,
{
    if n == 0 {
        (a, r)
    } else {
        let (a1, r1) = died_spec(a, r, holder, (n - 1) as nat);
        let j = n - 1;
        if r1[j].live && r1[j].holder == holder {
            let r2 = r1.update(j, region_with(r1[j], r1[j].mutable, 0, 0, 0, r1[j].holder));
            (settle_region_nodes(a1, r2, j), settle_region_objects(r2, j))
        } else {
            (a1, r1)
        }
    }
}

/// What is allocated under node `at` and everything reserved from it, down to
/// `fuel` generations of descendants.
pub open spec fn subtree_allocated_spec(a: Seq<Authority>, at: int, fuel: nat) -> int
    decreases fuel, MAX_AUTHORITIES + 1,
{
    a[at].allocated + children_allocated_spec(a, at, fuel, MAX_AUTHORITIES as nat)
}

/// The same, summed over the live children of `at` among the first `n` slots.
pub open spec fn children_allocated_spec(a: Seq<Authority>, at: int, fuel: nat, n: nat) -> int
    decreases fuel, n,
{
    if n == 0 || fuel == 0 || n > MAX_AUTHORITIES {
        0
    } else {
        children_allocated_spec(a, at, fuel, (n - 1) as nat) + (if a[n - 1].live && a[n - 1].parent == Some(at as u32) {
            subtree_allocated_spec(a, n - 1, (fuel - 1) as nat)
        } else {
            0
        })
    }
}

/// What every live node has allocated, summed over the table.
pub open spec fn committed_spec(a: Seq<Authority>) -> int {
    sum_to(|j: int| if a[j].live { a[j].allocated as int } else { 0int }, MAX_AUTHORITIES as int)
}

/// Whether any authority slot is free.
pub open spec fn authority_slot_free(a: Seq<Authority>) -> bool {
    exists|j: int| 0 <= j < MAX_AUTHORITIES && !#[trigger] a[j].live
}

/// `i` is the lowest free region slot.
pub open spec fn first_free_region(r: Seq<Region>, i: int) -> bool {
    &&& 0 <= i < MAX_REGIONS
    &&& !r[i].live
    &&& forall|j: int| 0 <= j < i ==> #[trigger] r[j].live
}

/// Whether any region slot is free.
pub open spec fn region_slot_free(r: Seq<Region>) -> bool {
    exists|j: int| 0 <= j < MAX_REGIONS && !#[trigger] r[j].live
}

/// `i` is the lowest free ledger slot.
pub open spec fn first_free_charge(c: Seq<Charge>, i: int) -> bool {
    &&& 0 <= i < MAX_CHARGES
    &&& !c[i].live
    &&& forall|j: int| 0 <= j < i ==> #[trigger] c[j].live
}

/// Whether any ledger slot is free.
pub open spec fn charge_slot_free(c: Seq<Charge>) -> bool {
    exists|j: int| 0 <= j < MAX_CHARGES && !#[trigger] c[j].live
}

/// A request rounded up to the granule, or `None` when that overflows.
pub open spec fn rounded(bytes: usize, granule: usize) -> Option<usize> {
    if granule <= 1 || bytes % granule == 0 {
        Some(bytes)
    } else if bytes + (granule - bytes % granule) > usize::MAX {
        None
    } else {
        Some((bytes + (granule - bytes % granule)) as usize)
    }
}

// ---------------------------------------------------------------------------
// The state transitions, as values.

/// Bytes handed from node `at` to its parent, or kept by a root.
pub open spec fn give_back_spec(a: Seq<Authority>, at: int, bytes: int) -> Seq<Authority> {
    if bytes == 0 {
        a
    } else {
        match a[at].parent {
            Some(p) => a.update(
                p as int,
                Authority {
                    reserved: (a[p as int].reserved - bytes) as usize,
                    remaining: (a[p as int].remaining + bytes) as usize,
                    ..a[p as int]
                },
            ).update(at, Authority { budget: (a[at].budget - bytes) as usize, ..a[at] }),
            None => a.update(at, Authority { remaining: (a[at].remaining + bytes) as usize, ..a[at] }),
        }
    }
}

/// Bytes returned to the node that funded them, or past it when it is no longer
/// named.
pub open spec fn keep_or_give_back_spec(a: Seq<Authority>, at: int, bytes: int) -> Seq<Authority> {
    if a[at].names > 0 {
        a.update(at, Authority { remaining: (a[at].remaining + bytes) as usize, ..a[at] })
    } else {
        give_back_spec(a, at, bytes)
    }
}

/// Whether node `at` is retired by `settle_authority`: not a root, not named,
/// and nothing left under it.
pub open spec fn retirable(n: Authority) -> bool {
    &&& n.live
    &&& n.parent is Some
    &&& n.names == 0
    &&& n.allocated == 0
    &&& n.children == 0
}

/// One retirement: the remainder goes to the parent, the node dies and the
/// parent has one child fewer.
pub open spec fn retire_spec(a: Seq<Authority>, at: int) -> Seq<Authority> {
    let p = a[at].parent->0 as int;
    let a1 = give_back_spec(
        a.update(at, Authority { remaining: 0, ..a[at] }),
        at,
        a[at].remaining as int,
    );
    let a2 = a1.update(at, Authority { live: false, ..a1[at] });
    a2.update(p, Authority { children: (a2[p].children - 1) as usize, ..a2[p] })
}

/// Retires node `at` when nothing is left under it, and then its ancestors
/// in turn, for as long as each is drained.
pub open spec fn settle_authority_spec(a: Seq<Authority>, at: int) -> Seq<Authority>
    decreases live_count(a),
    via settle_authority_decreases
{
    if 0 <= at < MAX_AUTHORITIES && a.len() == MAX_AUTHORITIES && retirable(a[at])
        && a[at].parent->0 < MAX_AUTHORITIES && a[at].parent->0 != at {
        let p = a[at].parent->0 as int;
        settle_authority_spec(retire_spec(a, at), p)
    } else {
        a
    }
}

#[via_fn]
proof fn settle_authority_decreases(a: Seq<Authority>, at: int) {
    if 0 <= at < MAX_AUTHORITIES && a.len() == MAX_AUTHORITIES && retirable(a[at])
        && a[at].parent->0 < MAX_AUTHORITIES && a[at].parent->0 != at {
        lemma_retire_live_count(a, at);
    }
}

pub proof fn lemma_live_count_update(a: Seq<Authority>, k: int, v: Authority)
    requires
        a.len() == MAX_AUTHORITIES,
        0 <= k < MAX_AUTHORITIES,
    ensures
        live_count(a.update(k, v)) == live_count(a) - (if a[k].live { 1int } else { 0int }) + (
        if v.live { 1int } else { 0int }),
{
    let f = |j: int| if a[j].live { 1int } else { 0int };
    let g = |j: int| if a.update(k, v)[j].live { 1int } else { 0int };
    lemma_sum_update(f, g, MAX_AUTHORITIES as int, k);
}

pub proof fn lemma_retire_live_count(a: Seq<Authority>, at: int)
    requires
        a.len() == MAX_AUTHORITIES,
        0 <= at < MAX_AUTHORITIES,
        retirable(a[at]),
        a[at].parent->0 < MAX_AUTHORITIES,
        a[at].parent->0 != at,
    ensures
        0 <= live_count(retire_spec(a, at)) < live_count(a),
{
    let r = retire_spec(a, at);
    lemma_sum_nonneg(|j: int| if r[j].live { 1int } else { 0int }, MAX_AUTHORITIES as int);
    let p = a[at].parent->0 as int;
    let a0 = a.update(at, Authority { remaining: 0, ..a[at] });
    lemma_live_count_update(a, at, Authority { remaining: 0, ..a[at] });
    let a1 = give_back_spec(a0, at, a[at].remaining as int);
    if a[at].remaining != 0 {
        let b0 = a0.update(
            p,
            Authority {
                reserved: (a0[p].reserved - a[at].remaining) as usize,
                remaining: (a0[p].remaining + a[at].remaining) as usize,
                ..a0[p]
            },
        );
        lemma_live_count_update(
            a0,
            p,
            Authority {
                reserved: (a0[p].reserved - a[at].remaining) as usize,
                remaining: (a0[p].remaining + a[at].remaining) as usize,
                ..a0[p]
            },
        );
        lemma_live_count_update(
            b0,
            at,
            Authority { budget: (b0[at].budget - a[at].remaining) as usize, ..b0[at] },
        );
    }
    let a2 = a1.update(at, Authority { live: false, ..a1[at] });
    lemma_live_count_update(a1, at, Authority { live: false, ..a1[at] });
    lemma_live_count_update(a2, p, Authority { children: (a2[p].children - 1) as usize, ..a2[p] });
}

/// The state-changing operations leave a root's budget where the boot put it.
pub open spec fn roots_kept(old: Seq<Authority>, new: Seq<Authority>) -> bool {
    forall|i: int|
        0 <= i < MAX_AUTHORITIES && #[trigger] old[i].live && old[i].parent is None ==> {
            &&& new[i].live
            &&& new[i].parent is None
            &&& new[i].budget == old[i].budget
        }
}


/// A freshly made node.
pub open spec fn fresh_node(parent: Option<u32>, bytes: usize, generation: u32, incarnation: u32) -> Authority {
    Authority {
        live: true,
        names: 1,
        generation,
        incarnation,
        parent,
        budget: bytes,
        remaining: bytes,
        reserved: 0,
        allocated: 0,
        children: 0,
    }
}

/// A parent after `bytes` of it were reserved for a new child.
pub open spec fn reserving(n: Authority, bytes: usize) -> Authority {
    Authority {
        remaining: (n.remaining - bytes) as usize,
        reserved: (n.reserved + bytes) as usize,
        children: (n.children + 1) as usize,
        ..n
    }
}

/// A node after spending `bytes` on something it funds itself.
pub open spec fn spending(n: Authority, bytes: usize) -> Authority {
    Authority {
        remaining: (n.remaining - bytes) as usize,
        allocated: (n.allocated + bytes) as usize,
        ..n
    }
}

/// An empty authority slot, as the table starts.
pub open spec fn empty_authority() -> Authority {
    Authority {
        live: false,
        names: 0,
        generation: 0,
        incarnation: 0,
        parent: None,
        budget: 0,
        remaining: 0,
        reserved: 0,
        allocated: 0,
        children: 0,
    }
}

/// An empty region slot, as the table starts.
pub open spec fn empty_region() -> Region {
    Region {
        live: false,
        generation: 0,
        bytes: 0,
        mutable: false,
        charged_to: 0,
        capabilities: 0,
        writable_mappings: 0,
        readable_mappings: 0,
        holder: u32::MAX,
    }
}

/// An empty ledger slot, as the table starts.
pub open spec fn empty_charge() -> Charge {
    Charge { live: false, incarnation: 0, authority: 0, authority_incarnation: 0, bytes: 0 }
}

// ---------------------------------------------------------------------------
// Frame lemmas.

proof fn lemma_authority_update_sums(a: Seq<Authority>, k: int, v: Authority)
    requires
        a.len() == MAX_AUTHORITIES,
        0 <= k < MAX_AUTHORITIES,
    ensures
        forall|p: int|
            #[trigger] child_budget_sum(a.update(k, v), p) == child_budget_sum(a, p) - budget_of_child(
                a[k],
                p,
            ) + budget_of_child(v, p),
        forall|p: int|
            #[trigger] child_count(a.update(k, v), p) == child_count(a, p) - count_of_child(a[k], p)
                + count_of_child(v, p),
{
    assert forall|p: int|
        #[trigger] child_budget_sum(a.update(k, v), p) == child_budget_sum(a, p) - budget_of_child(
            a[k],
            p,
        ) + budget_of_child(v, p) by {
        lemma_sum_update(
            |j: int| budget_of_child(a[j], p),
            |j: int| budget_of_child(a.update(k, v)[j], p),
            MAX_AUTHORITIES as int,
            k,
        );
    }
    assert forall|p: int|
        #[trigger] child_count(a.update(k, v), p) == child_count(a, p) - count_of_child(a[k], p)
            + count_of_child(v, p) by {
        lemma_sum_update(
            |j: int| count_of_child(a[j], p),
            |j: int| count_of_child(a.update(k, v)[j], p),
            MAX_AUTHORITIES as int,
            k,
        );
    }
}

proof fn lemma_region_update_sums(r: Seq<Region>, k: int, v: Region)
    requires
        r.len() == MAX_REGIONS,
        0 <= k < MAX_REGIONS,
    ensures
        forall|i: int|
            #[trigger] region_sum(r.update(k, v), i) == region_sum(r, i) - region_contribution(r[k], i)
                + region_contribution(v, i),
{
    assert forall|i: int|
        #[trigger] region_sum(r.update(k, v), i) == region_sum(r, i) - region_contribution(r[k], i)
            + region_contribution(v, i) by {
        lemma_sum_update(
            |j: int| region_contribution(r[j], i),
            |j: int| region_contribution(r.update(k, v)[j], i),
            MAX_REGIONS as int,
            k,
        );
    }
}

proof fn lemma_charge_update_sums(c: Seq<Charge>, k: int, v: Charge)
    requires
        c.len() == MAX_CHARGES,
        0 <= k < MAX_CHARGES,
    ensures
        forall|i: int|
            #[trigger] charge_sum(c.update(k, v), i) == charge_sum(c, i) - charge_contribution(c[k], i)
                + charge_contribution(v, i),
{
    assert forall|i: int|
        #[trigger] charge_sum(c.update(k, v), i) == charge_sum(c, i) - charge_contribution(c[k], i)
            + charge_contribution(v, i) by {
        lemma_sum_update(
            |j: int| charge_contribution(c[j], i),
            |j: int| charge_contribution(c.update(k, v)[j], i),
            MAX_CHARGES as int,
            k,
        );
    }
}

/// Each term of the four sums is at most the sum.
proof fn lemma_terms_bounded(a: Seq<Authority>, r: Seq<Region>, c: Seq<Charge>)
    requires
        a.len() == MAX_AUTHORITIES,
        r.len() == MAX_REGIONS,
        c.len() == MAX_CHARGES,
    ensures
        forall|p: int, k: int|
            0 <= k < MAX_AUTHORITIES ==> #[trigger] budget_of_child(a[k], p) <= child_budget_sum(a, p),
        forall|p: int, k: int|
            0 <= k < MAX_AUTHORITIES ==> #[trigger] count_of_child(a[k], p) <= child_count(a, p),
        forall|i: int, k: int|
            0 <= k < MAX_REGIONS ==> #[trigger] region_contribution(r[k], i) <= region_sum(r, i),
        forall|i: int, k: int|
            0 <= k < MAX_CHARGES ==> #[trigger] charge_contribution(c[k], i) <= charge_sum(c, i),
        forall|p: int| #[trigger] child_budget_sum(a, p) >= 0,
        forall|p: int| #[trigger] child_count(a, p) >= 0,
        forall|p: int| #[trigger] child_count(a, p) <= MAX_AUTHORITIES,
        forall|i: int| #[trigger] region_sum(r, i) >= 0,
        forall|i: int| #[trigger] charge_sum(c, i) >= 0,
{
    assert forall|p: int, k: int|
        0 <= k < MAX_AUTHORITIES implies #[trigger] budget_of_child(a[k], p) <= child_budget_sum(a, p) by {
        lemma_sum_ge_term(|j: int| budget_of_child(a[j], p), MAX_AUTHORITIES as int, k);
    }
    assert forall|p: int, k: int|
        0 <= k < MAX_AUTHORITIES implies #[trigger] count_of_child(a[k], p) <= child_count(a, p) by {
        lemma_sum_ge_term(|j: int| count_of_child(a[j], p), MAX_AUTHORITIES as int, k);
    }
    assert forall|i: int, k: int|
        0 <= k < MAX_REGIONS implies #[trigger] region_contribution(r[k], i) <= region_sum(r, i) by {
        lemma_sum_ge_term(|j: int| region_contribution(r[j], i), MAX_REGIONS as int, k);
    }
    assert forall|i: int, k: int|
        0 <= k < MAX_CHARGES implies #[trigger] charge_contribution(c[k], i) <= charge_sum(c, i) by {
        lemma_sum_ge_term(|j: int| charge_contribution(c[j], i), MAX_CHARGES as int, k);
    }
    assert forall|p: int| #[trigger] child_budget_sum(a, p) >= 0 by {
        lemma_sum_nonneg(|j: int| budget_of_child(a[j], p), MAX_AUTHORITIES as int);
    }
    assert forall|p: int| #[trigger] child_count(a, p) >= 0 by {
        lemma_sum_nonneg(|j: int| count_of_child(a[j], p), MAX_AUTHORITIES as int);
    }
    assert forall|p: int| #[trigger] child_count(a, p) <= MAX_AUTHORITIES by {
        lemma_sum_le(|j: int| count_of_child(a[j], p), |j: int| 1int, MAX_AUTHORITIES as int);
        lemma_sum_const_one(MAX_AUTHORITIES as int);
    }
    assert forall|i: int| #[trigger] region_sum(r, i) >= 0 by {
        lemma_sum_nonneg(|j: int| region_contribution(r[j], i), MAX_REGIONS as int);
    }
    assert forall|i: int| #[trigger] charge_sum(c, i) >= 0 by {
        lemma_sum_nonneg(|j: int| charge_contribution(c[j], i), MAX_CHARGES as int);
    }
}

/// A dead slot has no children, funds no region and holds no charge.
proof fn lemma_dead_slot_empty(a: Seq<Authority>, r: Seq<Region>, c: Seq<Charge>, k: int, slack: int, i: int)
    requires
        tables_ok(a, r, c, k, slack),
        0 <= i < MAX_AUTHORITIES,
        !a[i].live,
    ensures
        child_budget_sum(a, i) == 0,
        child_count(a, i) == 0,
        region_sum(r, i) == 0,
        charge_sum(c, i) == 0,
{
    assert forall|j: int| 0 <= j < MAX_AUTHORITIES implies #[trigger] budget_of_child(a[j], i) == 0 by {
        assert(node_ok(a, r, c, j, k, slack));
    }
    lemma_sum_zero(|j: int| budget_of_child(a[j], i), MAX_AUTHORITIES as int);
    assert forall|j: int| 0 <= j < MAX_AUTHORITIES implies #[trigger] count_of_child(a[j], i) == 0 by {
        assert(node_ok(a, r, c, j, k, slack));
    }
    lemma_sum_zero(|j: int| count_of_child(a[j], i), MAX_AUTHORITIES as int);
    assert forall|j: int| 0 <= j < MAX_REGIONS implies #[trigger] region_contribution(r[j], i) == 0 by {
        assert(region_ok(a, r, j));
    }
    lemma_sum_zero(|j: int| region_contribution(r[j], i), MAX_REGIONS as int);
    assert forall|j: int| 0 <= j < MAX_CHARGES implies #[trigger] charge_contribution(c[j], i) == 0 by {
        assert(charge_ok(a, c, j));
    }
    lemma_sum_zero(|j: int| charge_contribution(c[j], i), MAX_CHARGES as int);
}

/// Rounding lands on the next multiple of the granule at or above the request,
/// and never more than one granule above it.
pub proof fn lemma_rounded_is_next_multiple(bytes: usize, granule: usize)
    requires
        granule >= 1,
        rounded(bytes, granule) is Some,
    ensures
        rounded(bytes, granule)->0 >= bytes,
        rounded(bytes, granule)->0 % granule == 0,
        rounded(bytes, granule)->0 - bytes < granule,
{
    let x = rounded(bytes, granule)->0;
    if granule > 1 && bytes % granule != 0 {
        let b = bytes as int;
        let g = granule as int;
        assert(b % g < g) by (nonlinear_arith)
            requires
                g > 1,
        ;
        vstd::arithmetic::div_mod::lemma_fundamental_div_mod(b, g);
        assert(x == (b / g + 1) * g) by (nonlinear_arith)
            requires
                x == b + (g - b % g),
                b == g * (b / g) + b % g,
        ;
        vstd::arithmetic::div_mod::lemma_mod_multiples_basic(b / g + 1, g);
    }
}

/// Attenuation keeps the invariant.
proof fn lemma_attenuate_ok(a: Seq<Authority>, r: Seq<Region>, c: Seq<Charge>, p: int, i: int, bytes: usize, fresh: Authority)
    requires
        tables_ok(a, r, c, 0, 0),
        0 <= p < MAX_AUTHORITIES,
        a[p].live,
        a[p].remaining >= bytes,
        bytes > 0,
        first_free_authority(a, i),
        fresh == fresh_node(Some(p as u32), bytes, fresh.generation, fresh.incarnation),
    ensures
        tables_ok(a.update(p, reserving(a[p], bytes)).update(i, fresh), r, c, 0, 0),
        roots_kept(a, a.update(p, reserving(a[p], bytes)).update(i, fresh)),
{
    let a1 = a.update(p, reserving(a[p], bytes));
    let a2 = a1.update(i, fresh);
    lemma_terms_bounded(a, r, c);
    lemma_dead_slot_empty(a, r, c, 0, 0, i);
    lemma_authority_update_sums(a, p, reserving(a[p], bytes));
    lemma_authority_update_sums(a1, i, fresh);
    assert(node_ok(a, r, c, p, 0, 0));
    assert forall|q: int| 0 <= q < MAX_AUTHORITIES implies #[trigger] node_ok(a2, r, c, q, 0, 0) by {
        assert(node_ok(a, r, c, q, 0, 0));
        assert(child_budget_sum(a2, q) == child_budget_sum(a1, q) - budget_of_child(a1[i], q) + budget_of_child(fresh, q));
        assert(child_budget_sum(a1, q) == child_budget_sum(a, q) - budget_of_child(a[p], q) + budget_of_child(reserving(a[p], bytes), q));
        assert(child_count(a2, q) == child_count(a1, q) - count_of_child(a1[i], q) + count_of_child(fresh, q));
        assert(child_count(a1, q) == child_count(a, q) - count_of_child(a[p], q) + count_of_child(reserving(a[p], bytes), q));
        if q == i {
        } else if q == p {
        } else {
            if a[q].live {
                match a[q].parent {
                    Some(pp) => {
                        assert(a[pp as int].live);
                    },
                    None => {},
                }
            }
        }
    }
    assert forall|j: int| 0 <= j < MAX_REGIONS implies #[trigger] region_ok(a2, r, j) by {
        assert(region_ok(a, r, j));
    }
    assert forall|j: int| 0 <= j < MAX_CHARGES implies #[trigger] charge_ok(a2, c, j) by {
        assert(charge_ok(a, c, j));
    }
}

/// Making a root in a free slot keeps the invariant.
proof fn lemma_endow_root_ok(a: Seq<Authority>, r: Seq<Region>, c: Seq<Charge>, i: int, fresh: Authority)
    requires
        tables_ok(a, r, c, 0, 0),
        first_free_authority(a, i),
        fresh == fresh_node(None, fresh.budget, fresh.generation, fresh.incarnation),
    ensures
        tables_ok(a.update(i, fresh), r, c, 0, 0),
        roots_kept(a, a.update(i, fresh)),
{
    let a2 = a.update(i, fresh);
    lemma_dead_slot_empty(a, r, c, 0, 0, i);
    lemma_authority_update_sums(a, i, fresh);
    assert forall|q: int| 0 <= q < MAX_AUTHORITIES implies #[trigger] node_ok(a2, r, c, q, 0, 0) by {
        assert(node_ok(a, r, c, q, 0, 0));
        assert(child_budget_sum(a2, q) == child_budget_sum(a, q) - budget_of_child(a[i], q) + budget_of_child(fresh, q));
        assert(child_count(a2, q) == child_count(a, q) - count_of_child(a[i], q) + count_of_child(fresh, q));
        if q != i {
            if a[q].live {
                match a[q].parent {
                    Some(pp) => {
                        assert(a[pp as int].live);
                    },
                    None => {},
                }
            }
        }
    }
    assert forall|j: int| 0 <= j < MAX_REGIONS implies #[trigger] region_ok(a2, r, j) by {
        assert(region_ok(a, r, j));
    }
    assert forall|j: int| 0 <= j < MAX_CHARGES implies #[trigger] charge_ok(a2, c, j) by {
        assert(charge_ok(a, c, j));
    }
}

/// Spending on a new region keeps the invariant.
proof fn lemma_allocate_ok(a: Seq<Authority>, r: Seq<Region>, c: Seq<Charge>, at: int, i: int, reg: Region)
    requires
        tables_ok(a, r, c, 0, 0),
        0 <= at < MAX_AUTHORITIES,
        a[at].live,
        a[at].remaining >= reg.bytes,
        reg.bytes > 0,
        reg.live,
        reg.charged_to == at as u32,
        first_free_region(r, i),
    ensures
        tables_ok(a.update(at, spending(a[at], reg.bytes)), r.update(i, reg), c, 0, 0),
        roots_kept(a, a.update(at, spending(a[at], reg.bytes))),
{
    let a2 = a.update(at, spending(a[at], reg.bytes));
    let r2 = r.update(i, reg);
    lemma_terms_bounded(a, r, c);
    lemma_authority_update_sums(a, at, spending(a[at], reg.bytes));
    lemma_region_update_sums(r, i, reg);
    assert(node_ok(a, r, c, at, 0, 0));
    assert forall|q: int| 0 <= q < MAX_AUTHORITIES implies #[trigger] node_ok(a2, r2, c, q, 0, 0) by {
        assert(node_ok(a, r, c, q, 0, 0));
        assert(child_budget_sum(a2, q) == child_budget_sum(a, q) - budget_of_child(a[at], q) + budget_of_child(spending(a[at], reg.bytes), q));
        assert(child_count(a2, q) == child_count(a, q) - count_of_child(a[at], q) + count_of_child(spending(a[at], reg.bytes), q));
        assert(region_sum(r2, q) == region_sum(r, q) - region_contribution(r[i], q) + region_contribution(reg, q));
        if a[q].live {
            match a[q].parent {
                Some(pp) => {
                    assert(a[pp as int].live);
                },
                None => {},
            }
        }
    }
    assert forall|j: int| 0 <= j < MAX_REGIONS implies #[trigger] region_ok(a2, r2, j) by {
        assert(region_ok(a, r, j));
    }
    assert forall|j: int| 0 <= j < MAX_CHARGES implies #[trigger] charge_ok(a2, c, j) by {
        assert(charge_ok(a, c, j));
    }
}

/// Spending on a new ledger entry keeps the invariant.
proof fn lemma_charge_ok(a: Seq<Authority>, r: Seq<Region>, c: Seq<Charge>, at: int, s: int, ch: Charge)
    requires
        tables_ok(a, r, c, 0, 0),
        0 <= at < MAX_AUTHORITIES,
        a[at].live,
        a[at].remaining >= ch.bytes,
        ch.bytes > 0,
        ch.live,
        ch.authority == at as u32,
        ch.authority_incarnation == a[at].incarnation,
        first_free_charge(c, s),
    ensures
        tables_ok(a.update(at, spending(a[at], ch.bytes)), r, c.update(s, ch), 0, 0),
        roots_kept(a, a.update(at, spending(a[at], ch.bytes))),
{
    let a2 = a.update(at, spending(a[at], ch.bytes));
    let c2 = c.update(s, ch);
    lemma_terms_bounded(a, r, c);
    lemma_authority_update_sums(a, at, spending(a[at], ch.bytes));
    lemma_charge_update_sums(c, s, ch);
    assert(node_ok(a, r, c, at, 0, 0));
    assert forall|q: int| 0 <= q < MAX_AUTHORITIES implies #[trigger] node_ok(a2, r, c2, q, 0, 0) by {
        assert(node_ok(a, r, c, q, 0, 0));
        assert(child_budget_sum(a2, q) == child_budget_sum(a, q) - budget_of_child(a[at], q) + budget_of_child(spending(a[at], ch.bytes), q));
        assert(child_count(a2, q) == child_count(a, q) - count_of_child(a[at], q) + count_of_child(spending(a[at], ch.bytes), q));
        assert(charge_sum(c2, q) == charge_sum(c, q) - charge_contribution(c[s], q) + charge_contribution(ch, q));
        if a[q].live {
            match a[q].parent {
                Some(pp) => {
                    assert(a[pp as int].live);
                },
                None => {},
            }
        }
    }
    assert forall|j: int| 0 <= j < MAX_REGIONS implies #[trigger] region_ok(a2, r, j) by {
        assert(region_ok(a, r, j));
    }
    assert forall|j: int| 0 <= j < MAX_CHARGES implies #[trigger] charge_ok(a2, c2, j) by {
        assert(charge_ok(a, c, j));
    }
}

proof fn lemma_roots_kept_trans(x: Seq<Authority>, y: Seq<Authority>, z: Seq<Authority>)
    requires
        roots_kept(x, y),
        roots_kept(y, z),
    ensures
        roots_kept(x, z),
{
    assert forall|i: int| 0 <= i < MAX_AUTHORITIES && #[trigger] x[i].live && x[i].parent is None implies {
        &&& z[i].live
        &&& z[i].parent is None
        &&& z[i].budget == x[i].budget
    } by {
        assert(y[i].live);
    }
}

/// Changing a node's names, generation or remainder keeps the invariant, with
/// whatever the remainder lost in flight.
proof fn lemma_node_update_ok(a: Seq<Authority>, r: Seq<Region>, c: Seq<Charge>, k: int, v: Authority, slack: int)
    requires
        tables_ok(a, r, c, 0, 0),
        0 <= k < MAX_AUTHORITIES,
        v.live == a[k].live,
        v.parent == a[k].parent,
        v.budget == a[k].budget,
        v.reserved == a[k].reserved,
        v.allocated == a[k].allocated,
        v.children == a[k].children,
        v.incarnation == a[k].incarnation,
        a[k].remaining == v.remaining + slack,
    ensures
        tables_ok(a.update(k, v), r, c, k, slack),
        roots_kept(a, a.update(k, v)),
{
    let a2 = a.update(k, v);
    lemma_authority_update_sums(a, k, v);
    assert forall|q: int| 0 <= q < MAX_AUTHORITIES implies #[trigger] node_ok(a2, r, c, q, k, slack) by {
        assert(node_ok(a, r, c, q, 0, 0));
        assert(child_budget_sum(a2, q) == child_budget_sum(a, q) - budget_of_child(a[k], q) + budget_of_child(v, q));
        assert(child_count(a2, q) == child_count(a, q) - count_of_child(a[k], q) + count_of_child(v, q));
        if a[q].live {
            match a[q].parent {
                Some(qq) => {
                    assert(a[qq as int].live);
                },
                None => {},
            }
        }
    }
    assert forall|j: int| 0 <= j < MAX_REGIONS implies #[trigger] region_ok(a2, r, j) by {
        assert(region_ok(a, r, j));
    }
    assert forall|j: int| 0 <= j < MAX_CHARGES implies #[trigger] charge_ok(a2, c, j) by {
        assert(charge_ok(a, c, j));
    }
}

/// Changing a region's counters, mode or holder keeps the invariant.
proof fn lemma_region_fields_ok(a: Seq<Authority>, r: Seq<Region>, c: Seq<Charge>, k: int, v: Region)
    requires
        tables_ok(a, r, c, 0, 0),
        0 <= k < MAX_REGIONS,
        v.live == r[k].live,
        v.bytes == r[k].bytes,
        v.charged_to == r[k].charged_to,
    ensures
        tables_ok(a, r.update(k, v), c, 0, 0),
{
    let r2 = r.update(k, v);
    lemma_region_update_sums(r, k, v);
    assert forall|q: int| 0 <= q < MAX_AUTHORITIES implies #[trigger] node_ok(a, r2, c, q, 0, 0) by {
        assert(node_ok(a, r, c, q, 0, 0));
        assert(region_sum(r2, q) == region_sum(r, q) - region_contribution(r[k], q) + region_contribution(v, q));
    }
    assert forall|j: int| 0 <= j < MAX_REGIONS implies #[trigger] region_ok(a, r2, j) by {
        assert(region_ok(a, r, j));
    }
}

/// A partial sum of nonnegative terms is at most the whole.
proof fn lemma_sum_prefix_le(f: spec_fn(int) -> int, m: int, n: int)
    requires
        0 <= m <= n,
        forall|j: int| 0 <= j < n ==> #[trigger] f(j) >= 0,
    ensures
        sum_to(f, m) <= sum_to(f, n),
    decreases n - m,
{
    if m < n {
        lemma_sum_prefix_le(f, m, n - 1);
    }
}

/// Under the invariant, a subtree never holds more than its root's budget.
proof fn lemma_subtree_bounded(a: Seq<Authority>, r: Seq<Region>, c: Seq<Charge>, at: int, fuel: nat)
    requires
        tables_ok(a, r, c, 0, 0),
        0 <= at < MAX_AUTHORITIES,
        a[at].live,
    ensures
        0 <= subtree_allocated_spec(a, at, fuel) <= a[at].budget,
    decreases fuel, MAX_AUTHORITIES + 1,
{
    lemma_children_bounded(a, r, c, at, fuel, MAX_AUTHORITIES as nat);
    lemma_terms_bounded(a, r, c);
    assert(node_ok(a, r, c, at, 0, 0));
}

/// And the children's share is at most what the children were given.
proof fn lemma_children_bounded(a: Seq<Authority>, r: Seq<Region>, c: Seq<Charge>, at: int, fuel: nat, n: nat)
    requires
        tables_ok(a, r, c, 0, 0),
        0 <= at < MAX_AUTHORITIES,
        n <= MAX_AUTHORITIES,
    ensures
        0 <= children_allocated_spec(a, at, fuel, n) <= sum_to(|j: int| budget_of_child(a[j], at), n as int),
    decreases fuel, n,
{
    if n == 0 || fuel == 0 {
        lemma_sum_nonneg(|j: int| budget_of_child(a[j], at), n as int);
    } else {
        lemma_children_bounded(a, r, c, at, fuel, (n - 1) as nat);
        let j = n - 1;
        if a[j].live && a[j].parent == Some(at as u32) {
            lemma_subtree_bounded(a, r, c, j, (fuel - 1) as nat);
        }
    }
}

/// The invariant implies what the public accounting check reports.
pub proof fn lemma_wf_accounting(regions: &Regions)
    requires
        regions.wf(),
    ensures
        accounting_spec(regions.nodes()),
{
    let a = regions.nodes();
    assert forall|i: int| 0 <= i < MAX_AUTHORITIES && #[trigger] a[i].live implies {
        &&& a[i].allocated + a[i].reserved + a[i].remaining == a[i].budget
        &&& a[i].reserved == child_budget_sum(a, i)
        &&& a[i].children == child_count(a, i)
    } by {
        assert(node_ok(a, regions.objects(), regions.ledger(), i, 0, 0));
    }
}

/// With no bytes in flight the slack is immaterial.
proof fn lemma_no_slack(a: Seq<Authority>, r: Seq<Region>, c: Seq<Charge>, k: int)
    requires
        tables_ok(a, r, c, k, 0),
    ensures
        tables_ok(a, r, c, 0, 0),
{
    assert forall|i: int| 0 <= i < MAX_AUTHORITIES implies #[trigger] node_ok(a, r, c, i, 0, 0) by {
        assert(node_ok(a, r, c, i, k, 0));
    }
}

/// Handing bytes in flight to the parent, or back to a root, restores the
/// invariant.
proof fn lemma_give_back_ok(a: Seq<Authority>, r: Seq<Region>, c: Seq<Charge>, at: int, bytes: int)
    requires
        tables_ok(a, r, c, at, bytes),
        0 <= at < MAX_AUTHORITIES,
        a[at].live,
        bytes >= 0,
    ensures
        tables_ok(give_back_spec(a, at, bytes), r, c, 0, 0),
        roots_kept(a, give_back_spec(a, at, bytes)),
        give_back_spec(a, at, bytes).len() == MAX_AUTHORITIES,
        forall|i: int| 0 <= i < MAX_AUTHORITIES ==> (#[trigger] give_back_spec(a, at, bytes)[i]).live == a[i].live,
        forall|i: int| 0 <= i < MAX_AUTHORITIES ==> (#[trigger] give_back_spec(a, at, bytes)[i]).names == a[i].names,
        forall|i: int| 0 <= i < MAX_AUTHORITIES ==> (#[trigger] give_back_spec(a, at, bytes)[i]).allocated == a[i].allocated,
        forall|i: int| 0 <= i < MAX_AUTHORITIES ==> (#[trigger] give_back_spec(a, at, bytes)[i]).children == a[i].children,
        forall|i: int| 0 <= i < MAX_AUTHORITIES ==> (#[trigger] give_back_spec(a, at, bytes)[i]).parent == a[i].parent,
        forall|i: int| 0 <= i < MAX_AUTHORITIES ==> (#[trigger] give_back_spec(a, at, bytes)[i]).incarnation == a[i].incarnation,
        forall|i: int| 0 <= i < MAX_AUTHORITIES ==> (#[trigger] give_back_spec(a, at, bytes)[i]).generation == a[i].generation,
{
    lemma_terms_bounded(a, r, c);
    assert(node_ok(a, r, c, at, at, bytes));
    if bytes == 0 {
        lemma_no_slack(a, r, c, at);
    } else {
        match a[at].parent {
            Some(pp) => {
                let p = pp as int;
                assert(node_ok(a, r, c, p, at, bytes));
                let pn = Authority {
                    reserved: (a[p].reserved - bytes) as usize,
                    remaining: (a[p].remaining + bytes) as usize,
                    ..a[p]
                };
                let a1 = a.update(p, pn);
                let an = Authority { budget: (a1[at].budget - bytes) as usize, ..a1[at] };
                let a2 = a1.update(at, an);
                assert(budget_of_child(a[at], p) <= child_budget_sum(a, p));
                lemma_authority_update_sums(a, p, pn);
                lemma_authority_update_sums(a1, at, an);
                assert forall|q: int| 0 <= q < MAX_AUTHORITIES implies #[trigger] node_ok(a2, r, c, q, 0, 0) by {
                    assert(node_ok(a, r, c, q, at, bytes));
                    assert(child_budget_sum(a1, q) == child_budget_sum(a, q) - budget_of_child(a[p], q) + budget_of_child(pn, q));
                    assert(child_budget_sum(a2, q) == child_budget_sum(a1, q) - budget_of_child(a1[at], q) + budget_of_child(an, q));
                    assert(child_count(a1, q) == child_count(a, q) - count_of_child(a[p], q) + count_of_child(pn, q));
                    assert(child_count(a2, q) == child_count(a1, q) - count_of_child(a1[at], q) + count_of_child(an, q));
                    if a[q].live {
                        match a[q].parent {
                            Some(qq) => {
                                assert(a[qq as int].live);
                            },
                            None => {},
                        }
                    }
                }
                assert forall|j: int| 0 <= j < MAX_REGIONS implies #[trigger] region_ok(a2, r, j) by {
                    assert(region_ok(a, r, j));
                }
                assert forall|j: int| 0 <= j < MAX_CHARGES implies #[trigger] charge_ok(a2, c, j) by {
                    assert(charge_ok(a, c, j));
                }
                assert(give_back_spec(a, at, bytes) == a2);
            },
            None => {
                let an = Authority { remaining: (a[at].remaining + bytes) as usize, ..a[at] };
                let a2 = a.update(at, an);
                lemma_authority_update_sums(a, at, an);
                assert forall|q: int| 0 <= q < MAX_AUTHORITIES implies #[trigger] node_ok(a2, r, c, q, 0, 0) by {
                    assert(node_ok(a, r, c, q, at, bytes));
                    assert(child_budget_sum(a2, q) == child_budget_sum(a, q) - budget_of_child(a[at], q) + budget_of_child(an, q));
                    assert(child_count(a2, q) == child_count(a, q) - count_of_child(a[at], q) + count_of_child(an, q));
                    if a[q].live {
                        match a[q].parent {
                            Some(qq) => {
                                assert(a[qq as int].live);
                            },
                            None => {},
                        }
                    }
                }
                assert forall|j: int| 0 <= j < MAX_REGIONS implies #[trigger] region_ok(a2, r, j) by {
                    assert(region_ok(a, r, j));
                }
                assert forall|j: int| 0 <= j < MAX_CHARGES implies #[trigger] charge_ok(a2, c, j) by {
                    assert(charge_ok(a, c, j));
                }
            },
        }
    }
}

/// A drained, unnamed node with no parent-side obligations can be retired.
proof fn lemma_retire_ok(a: Seq<Authority>, r: Seq<Region>, c: Seq<Charge>, at: int)
    requires
        tables_ok(a, r, c, 0, 0),
        0 <= at < MAX_AUTHORITIES,
        retirable(a[at]),
        a[at].remaining == 0,
    ensures
        ({
            let p = a[at].parent->0 as int;
            let a2 = a.update(at, Authority { live: false, ..a[at] });
            let a3 = a2.update(p, Authority { children: (a2[p].children - 1) as usize, ..a2[p] });
            &&& tables_ok(a3, r, c, 0, 0)
            &&& roots_kept(a, a3)
        }),
{
    let p = a[at].parent->0 as int;
    let dead = Authority { live: false, ..a[at] };
    let a2 = a.update(at, dead);
    let pn = Authority { children: (a2[p].children - 1) as usize, ..a2[p] };
    let a3 = a2.update(p, pn);
    lemma_terms_bounded(a, r, c);
    assert(node_ok(a, r, c, at, 0, 0));
    assert(node_ok(a, r, c, p, 0, 0));
    // No live child, so no reserved budget, so no budget at all.
    assert forall|j: int| 0 <= j < MAX_AUTHORITIES implies #[trigger] budget_of_child(a[j], at) == 0 by {
        lemma_sum_zero_terms(|j: int| count_of_child(a[j], at), MAX_AUTHORITIES as int, j);
    }
    lemma_sum_zero(|j: int| budget_of_child(a[j], at), MAX_AUTHORITIES as int);
    assert(a[at].budget == 0);
    // Nothing is funded by it.
    assert forall|j: int| 0 <= j < MAX_REGIONS implies #[trigger] region_contribution(r[j], at) == 0 by {
        lemma_sum_zero_terms(|j: int| region_contribution(r[j], at), MAX_REGIONS as int, j);
    }
    assert forall|j: int| 0 <= j < MAX_CHARGES implies #[trigger] charge_contribution(c[j], at) == 0 by {
        lemma_sum_zero_terms(|j: int| charge_contribution(c[j], at), MAX_CHARGES as int, j);
    }
    assert(count_of_child(a[at], p) == 1);
    lemma_authority_update_sums(a, at, dead);
    lemma_authority_update_sums(a2, p, pn);
    assert forall|q: int| 0 <= q < MAX_AUTHORITIES implies #[trigger] node_ok(a3, r, c, q, 0, 0) by {
        assert(node_ok(a, r, c, q, 0, 0));
        assert(child_budget_sum(a2, q) == child_budget_sum(a, q) - budget_of_child(a[at], q) + budget_of_child(dead, q));
        assert(child_budget_sum(a3, q) == child_budget_sum(a2, q) - budget_of_child(a2[p], q) + budget_of_child(pn, q));
        assert(child_count(a2, q) == child_count(a, q) - count_of_child(a[at], q) + count_of_child(dead, q));
        assert(child_count(a3, q) == child_count(a2, q) - count_of_child(a2[p], q) + count_of_child(pn, q));
        if a[q].live {
            match a[q].parent {
                Some(qq) => {
                    assert(a[qq as int].live);
                    if qq as int == at {
                        assert(count_of_child(a[q], at) == 1);
                        lemma_sum_zero_terms(|j: int| count_of_child(a[j], at), MAX_AUTHORITIES as int, q);
                    }
                },
                None => {},
            }
        }
    }
    assert forall|j: int| 0 <= j < MAX_REGIONS implies #[trigger] region_ok(a3, r, j) by {
        assert(region_ok(a, r, j));
        if r[j].live && r[j].charged_to as int == at {
            assert(region_contribution(r[j], at) == 0);
        }
    }
    assert forall|j: int| 0 <= j < MAX_CHARGES implies #[trigger] charge_ok(a3, c, j) by {
        assert(charge_ok(a, c, j));
        if c[j].live && c[j].authority as int == at {
            assert(charge_contribution(c[j], at) == 0);
        }
    }
}

/// A request rounded up to the granule it is charged in; an overflow is a
/// refusal rather than a wrap.
fn round_up(bytes: usize, granule: usize) -> (r: Result<usize, Refusal>)
    ensures
        r == match rounded(bytes, granule) {
            Some(x) => Ok::<usize, Refusal>(x),
            None => Err(Refusal::BadArgument),
        },
{
    if granule <= 1 {
        return Ok(bytes);
    }
    let over = bytes % granule;
    if over == 0 {
        return Ok(bytes);
    }
    match bytes.checked_add(granule - over) {
        Some(x) => Ok(x),
        None => Err(Refusal::BadArgument),
    }
}

// ---------------------------------------------------------------------------
// The tables.

/// The nucleus's memory-authority and region state.
pub struct Regions {
    authorities: Vec<Authority>,
    regions: Vec<Region>,
    charges: Vec<Charge>,
    /// Set once the pool and this tree have been found to disagree, and never
    /// cleared.
    stopped: bool,
}

impl Regions {
    /// The authority table.
    pub closed spec fn nodes(&self) -> Seq<Authority> {
        self.authorities@
    }

    /// The region table.
    pub closed spec fn objects(&self) -> Seq<Region> {
        self.regions@
    }

    /// The charge ledger.
    pub closed spec fn ledger(&self) -> Seq<Charge> {
        self.charges@
    }

    /// Whether the tree has been stopped.
    pub closed spec fn is_stopped(&self) -> bool {
        self.stopped
    }

    /// The accounting invariant over all three tables.
    pub open spec fn wf(&self) -> bool {
        tables_ok(self.nodes(), self.objects(), self.ledger(), 0, 0)
    }

    /// Empty tables: no authority, no region, no charge.
    pub fn new() -> (r: Regions)
        ensures
            r.wf(),
            r.nodes() == Seq::new(MAX_AUTHORITIES as nat, |i: int| empty_authority()),
            r.objects() == Seq::new(MAX_REGIONS as nat, |i: int| empty_region()),
            r.ledger() == Seq::new(MAX_CHARGES as nat, |i: int| empty_charge()),
            !r.is_stopped(),
    {
        let mut authorities: Vec<Authority> = Vec::new();
        let mut i: usize = 0;
        while i < MAX_AUTHORITIES
            invariant
                i <= MAX_AUTHORITIES,
                authorities@.len() == i,
                forall|j: int| 0 <= j < i ==> #[trigger] authorities@[j] == empty_authority(),
            decreases MAX_AUTHORITIES - i,
        {
            authorities.push(
                Authority {
                    live: false,
                    names: 0,
                    generation: 0,
                    incarnation: 0,
                    parent: None,
                    budget: 0,
                    remaining: 0,
                    reserved: 0,
                    allocated: 0,
                    children: 0,
                },
            );
            i = i + 1;
        }
        let mut regions: Vec<Region> = Vec::new();
        let mut i: usize = 0;
        while i < MAX_REGIONS
            invariant
                i <= MAX_REGIONS,
                regions@.len() == i,
                forall|j: int| 0 <= j < i ==> #[trigger] regions@[j] == empty_region(),
            decreases MAX_REGIONS - i,
        {
            regions.push(
                Region {
                    live: false,
                    generation: 0,
                    bytes: 0,
                    mutable: false,
                    charged_to: 0,
                    capabilities: 0,
                    writable_mappings: 0,
                    readable_mappings: 0,
                    holder: u32::MAX,
                },
            );
            i = i + 1;
        }
        let mut charges: Vec<Charge> = Vec::new();
        let mut i: usize = 0;
        while i < MAX_CHARGES
            invariant
                i <= MAX_CHARGES,
                charges@.len() == i,
                forall|j: int| 0 <= j < i ==> #[trigger] charges@[j] == empty_charge(),
            decreases MAX_CHARGES - i,
        {
            charges.push(
                Charge { live: false, incarnation: 0, authority: 0, authority_incarnation: 0, bytes: 0 },
            );
            i = i + 1;
        }
        let r = Regions { authorities, regions, charges, stopped: false };
        assert(r.nodes() =~= Seq::new(MAX_AUTHORITIES as nat, |i: int| empty_authority()));
        assert(r.objects() =~= Seq::new(MAX_REGIONS as nat, |i: int| empty_region()));
        assert(r.ledger() =~= Seq::new(MAX_CHARGES as nat, |i: int| empty_charge()));
        assert forall|i: int| 0 <= i < MAX_AUTHORITIES implies #[trigger] node_ok(
            r.nodes(),
            r.objects(),
            r.ledger(),
            i,
            0,
            0,
        ) by {}
        assert forall|j: int| 0 <= j < MAX_REGIONS implies #[trigger] region_ok(r.nodes(), r.objects(), j) by {}
        assert forall|j: int| 0 <= j < MAX_CHARGES implies #[trigger] charge_ok(r.nodes(), r.ledger(), j) by {}
        r
    }

    /// Stops the whole tree from committing or reserving anything further.
    /// Giving back keeps working.
    pub fn poison(&mut self)
        requires
            old(self).wf(),
        ensures
            final(self).wf(),
            final(self).is_stopped(),
            final(self).nodes() == old(self).nodes(),
            final(self).objects() == old(self).objects(),
            final(self).ledger() == old(self).ledger(),
    {
        self.stopped = true;
    }

    /// Whether the tree has been stopped.
    pub fn stopped(&self) -> (r: bool)
        ensures
            r == self.is_stopped(),
    {
        self.stopped
    }

    /// The root authority over a pool, once the fixed reserves are out of it.
    /// Refused with `Budget` when the reserves are the whole pool or more.
    pub fn endow_root_after_reserves(&mut self, usable: usize, reserved: usize) -> (r: Result<
        AuthorityId,
        Refusal,
    >)
        requires
            old(self).wf(),
        ensures
            final(self).wf(),
            final(self).objects() == old(self).objects(),
            final(self).ledger() == old(self).ledger(),
            final(self).is_stopped() == old(self).is_stopped(),
            roots_kept(old(self).nodes(), final(self).nodes()),
            usable <= reserved ==> r == Err::<AuthorityId, Refusal>(Refusal::Budget) && final(self).nodes() == old(self).nodes(),
            usable > reserved ==> endowed(old(self).nodes(), final(self).nodes(), (usable - reserved) as usize, r),
    {
        if usable <= reserved {
            return Err(Refusal::Budget);
        }
        self.endow_root(usable - reserved)
    }

    /// The root authority of a boot. Every other authority is reserved out of
    /// one that already exists.
    pub fn endow_root(&mut self, bytes: usize) -> (r: Result<AuthorityId, Refusal>)
        requires
            old(self).wf(),
        ensures
            final(self).wf(),
            final(self).objects() == old(self).objects(),
            final(self).ledger() == old(self).ledger(),
            final(self).is_stopped() == old(self).is_stopped(),
            roots_kept(old(self).nodes(), final(self).nodes()),
            endowed(old(self).nodes(), final(self).nodes(), bytes, r),
    {
        if bytes == 0 {
            return Err(Refusal::Empty);
        }
        let index = self.free_authority()?;
        let generation = self.authorities[index].generation.wrapping_add(1);
        let incarnation = self.authorities[index].incarnation.wrapping_add(1);
        let fresh = Authority {
            live: true,
            names: 1,
            generation,
            incarnation,
            parent: None,
            budget: bytes,
            remaining: bytes,
            reserved: 0,
            allocated: 0,
            children: 0,
        };
        proof {
            lemma_endow_root_ok(self.nodes(), self.objects(), self.ledger(), index as int, fresh);
        }
        self.authorities.set(index, fresh);
        Ok(AuthorityId { index: index as u32, generation })
    }

    /// Reserves `bytes` out of an authority and returns the child that holds
    /// them. The parent can no longer spend what the child now may.
    pub fn attenuate(&mut self, parent: AuthorityId, bytes: usize) -> (r: Result<AuthorityId, Refusal>)
        requires
            old(self).wf(),
        ensures
            final(self).wf(),
            final(self).objects() == old(self).objects(),
            final(self).ledger() == old(self).ledger(),
            final(self).is_stopped() == old(self).is_stopped(),
            roots_kept(old(self).nodes(), final(self).nodes()),
            attenuated(old(self).nodes(), final(self).nodes(), old(self).is_stopped(), parent, bytes, r),
    {
        if self.stopped {
            return Err(Refusal::Stopped);
        }
        if bytes == 0 {
            return Err(Refusal::Empty);
        }
        let at = self.authority(parent)?;
        if self.authorities[at].remaining < bytes {
            return Err(Refusal::Budget);
        }
        let index = self.free_authority()?;
        let generation = self.authorities[index].generation.wrapping_add(1);
        let incarnation = self.authorities[index].incarnation.wrapping_add(1);
        let ghost a = self.nodes();
        proof {
            lemma_terms_bounded(a, self.objects(), self.ledger());
            assert(node_ok(a, self.objects(), self.ledger(), at as int, 0, 0));
            assert(count_of_child(a[index as int], at as int) == 0);
            lemma_authority_update_sums(a, index as int, fresh_node(Some(at as u32), bytes, generation, incarnation));
            let a9 = a.update(index as int, fresh_node(Some(at as u32), bytes, generation, incarnation));
            assert(child_count(a9, at as int) == child_count(a, at as int) + 1);
            lemma_terms_bounded(a9, self.objects(), self.ledger());
            assert(child_count(a9, at as int) <= MAX_AUTHORITIES) by {
                lemma_sum_le(
                    |j: int| count_of_child(a9[j], at as int),
                    |j: int| 1int,
                    MAX_AUTHORITIES as int,
                );
                lemma_sum_const_one(MAX_AUTHORITIES as int);
            }
        }
        let mut node = self.authorities[at];
        node.remaining = node.remaining - bytes;
        node.reserved = node.reserved + bytes;
        node.children = node.children + 1;
        let fresh = Authority {
            live: true,
            names: 1,
            generation,
            incarnation,
            parent: Some(at as u32),
            budget: bytes,
            remaining: bytes,
            reserved: 0,
            allocated: 0,
            children: 0,
        };
        proof {
            lemma_attenuate_ok(a, self.objects(), self.ledger(), at as int, index as int, bytes, fresh);
        }
        self.authorities.set(at, node);
        self.authorities.set(index, fresh);
        Ok(AuthorityId { index: index as u32, generation })
    }

    /// Charges a process grant to an authority. The receipt is the record of
    /// it, and nothing else can undo the charge.
    pub fn charge_grant(&mut self, authority: AuthorityId, bytes: usize, granule: usize) -> (r: Result<
        GrantCharge,
        Refusal,
    >)
        requires
            old(self).wf(),
        ensures
            ledger_steps(old(self).ledger(), final(self).ledger()),
            final(self).wf(),
            final(self).objects() == old(self).objects(),
            final(self).is_stopped() == old(self).is_stopped(),
            roots_kept(old(self).nodes(), final(self).nodes()),
            charged_grant(
                old(self).nodes(),
                final(self).nodes(),
                old(self).ledger(),
                final(self).ledger(),
                old(self).is_stopped(),
                authority,
                bytes,
                granule,
                r,
            ),
    {
        if self.stopped {
            return Err(Refusal::Stopped);
        }
        let charged = round_up(bytes, granule)?;
        if charged == 0 {
            return Err(Refusal::Empty);
        }
        let at = self.authority(authority)?;
        if self.authorities[at].remaining < charged {
            return Err(Refusal::Budget);
        }
        let slot = self.free_charge()?;
        let mut node = self.authorities[at];
        let ghost a = self.nodes();
        proof {
            assert(node_ok(a, self.objects(), self.ledger(), at as int, 0, 0));
        }
        node.remaining = node.remaining - charged;
        node.allocated = node.allocated + charged;
        let entry = Charge {
            live: true,
            incarnation: self.charges[slot].incarnation,
            authority: at as u32,
            authority_incarnation: self.authorities[at].incarnation,
            bytes: charged,
        };
        proof {
            lemma_charge_ok(a, self.objects(), self.ledger(), at as int, slot as int, entry);
        }
        self.authorities.set(at, node);
        self.charges.set(slot, entry);
        Ok(GrantCharge { slot: slot as u32, incarnation: entry.incarnation, charged })
    }

    /// Spends `bytes` of an authority and creates a mutable region.
    pub fn allocate(&mut self, authority: AuthorityId, bytes: usize, holder: u32) -> (r: Result<
        RegionId,
        Refusal,
    >)
        requires
            old(self).wf(),
        ensures
            final(self).wf(),
            final(self).ledger() == old(self).ledger(),
            final(self).is_stopped() == old(self).is_stopped(),
            roots_kept(old(self).nodes(), final(self).nodes()),
            allocated_region(
                old(self).nodes(),
                final(self).nodes(),
                old(self).objects(),
                final(self).objects(),
                old(self).is_stopped(),
                authority,
                bytes,
                1,
                holder,
                r,
            ),
    {
        self.allocate_rounded(authority, bytes, 1, holder)
    }

    /// The same, charged to a granule: what is charged is `bytes` rounded up.
    pub fn allocate_rounded(&mut self, authority: AuthorityId, bytes: usize, granule: usize, holder: u32) -> (r:
        Result<RegionId, Refusal>)
        requires
            old(self).wf(),
        ensures
            frozen_kept(old(self).objects(), final(self).objects()),
            final(self).wf(),
            final(self).ledger() == old(self).ledger(),
            final(self).is_stopped() == old(self).is_stopped(),
            roots_kept(old(self).nodes(), final(self).nodes()),
            allocated_region(
                old(self).nodes(),
                final(self).nodes(),
                old(self).objects(),
                final(self).objects(),
                old(self).is_stopped(),
                authority,
                bytes,
                granule,
                holder,
                r,
            ),
    {
        if self.stopped {
            return Err(Refusal::Stopped);
        }
        if bytes == 0 {
            return Err(Refusal::Empty);
        }
        let bytes_in = bytes;
        let bytes = round_up(bytes, granule)?;
        let at = self.authority(authority)?;
        if self.authorities[at].remaining < bytes {
            return Err(Refusal::Budget);
        }
        let index = self.free_region()?;
        let generation = self.regions[index].generation.wrapping_add(1);
        let ghost a = self.nodes();
        proof {
            assert(node_ok(a, self.objects(), self.ledger(), at as int, 0, 0));
            if granule >= 1 {
                lemma_rounded_is_next_multiple(bytes_in, granule);
            }
        }
        let mut node = self.authorities[at];
        node.remaining = node.remaining - bytes;
        node.allocated = node.allocated + bytes;
        let region = Region {
            live: true,
            generation,
            bytes,
            mutable: true,
            charged_to: at as u32,
            capabilities: 1,
            writable_mappings: 0,
            readable_mappings: 0,
            holder,
        };
        proof {
            lemma_allocate_ok(a, self.objects(), self.ledger(), at as int, index as int, region);
        }
        self.authorities.set(at, node);
        self.regions.set(index, region);
        Ok(RegionId { index: index as u32, generation })
    }

    /// Hands bytes in flight at `at` to its parent, or lets them stay at a root.
    fn give_back(&mut self, at: usize, bytes: usize)
        requires
            tables_ok(old(self).nodes(), old(self).objects(), old(self).ledger(), at as int, bytes as int),
            at < MAX_AUTHORITIES,
            old(self).nodes()[at as int].live,
        ensures
            final(self).wf(),
            final(self).nodes() == give_back_spec(old(self).nodes(), at as int, bytes as int),
            final(self).objects() == old(self).objects(),
            final(self).ledger() == old(self).ledger(),
            final(self).is_stopped() == old(self).is_stopped(),
    {
        proof {
            lemma_give_back_ok(self.nodes(), self.objects(), self.ledger(), at as int, bytes as int);
            lemma_terms_bounded(self.nodes(), self.objects(), self.ledger());
            assert(node_ok(self.nodes(), self.objects(), self.ledger(), at as int, at as int, bytes as int));
        }
        if bytes == 0 {
            return;
        }
        match self.authorities[at].parent {
            Some(parent) => {
                let parent = parent as usize;
                proof {
                    assert(node_ok(self.nodes(), self.objects(), self.ledger(), parent as int, at as int, bytes as int));
                    assert(budget_of_child(self.nodes()[at as int], parent as int) <= child_budget_sum(self.nodes(), parent as int));
                }
                let mut pn = self.authorities[parent];
                pn.reserved = pn.reserved - bytes;
                pn.remaining = pn.remaining + bytes;
                self.authorities.set(parent, pn);
                let mut node = self.authorities[at];
                node.budget = node.budget - bytes;
                self.authorities.set(at, node);
            },
            None => {
                let mut node = self.authorities[at];
                node.remaining = node.remaining + bytes;
                self.authorities.set(at, node);
            },
        }
    }

    /// Returns reclaimed bytes to the authority that funded them, or past it to
    /// its parent when it is no longer named.
    fn give_back_or_keep(&mut self, at: usize, bytes: usize)
        requires
            tables_ok(old(self).nodes(), old(self).objects(), old(self).ledger(), at as int, bytes as int),
            at < MAX_AUTHORITIES,
            old(self).nodes()[at as int].live,
        ensures
            final(self).wf(),
            final(self).nodes() == keep_or_give_back_spec(old(self).nodes(), at as int, bytes as int),
            final(self).objects() == old(self).objects(),
            final(self).ledger() == old(self).ledger(),
            final(self).is_stopped() == old(self).is_stopped(),
    {
        if self.authorities[at].names > 0 {
            let ghost a = self.nodes();
            let mut node = self.authorities[at];
            proof {
                assert(node_ok(a, self.objects(), self.ledger(), at as int, at as int, bytes as int));
                lemma_terms_bounded(a, self.objects(), self.ledger());
            }
            node.remaining = node.remaining + bytes;
            proof {
                let a2 = a.update(at as int, node);
                lemma_authority_update_sums(a, at as int, node);
                assert forall|q: int| 0 <= q < MAX_AUTHORITIES implies #[trigger] node_ok(a2, self.objects(), self.ledger(), q, 0, 0) by {
                    assert(node_ok(a, self.objects(), self.ledger(), q, at as int, bytes as int));
                    assert(child_budget_sum(a2, q) == child_budget_sum(a, q) - budget_of_child(a[at as int], q) + budget_of_child(node, q));
                    assert(child_count(a2, q) == child_count(a, q) - count_of_child(a[at as int], q) + count_of_child(node, q));
                    if a[q].live {
                        match a[q].parent {
                            Some(qq) => {
                                assert(a[qq as int].live);
                            },
                            None => {},
                        }
                    }
                }
                assert forall|j: int| 0 <= j < MAX_REGIONS implies #[trigger] region_ok(a2, self.objects(), j) by {
                    assert(region_ok(a, self.objects(), j));
                }
                assert forall|j: int| 0 <= j < MAX_CHARGES implies #[trigger] charge_ok(a2, self.ledger(), j) by {
                    assert(charge_ok(a, self.ledger(), j));
                }
            }
            self.authorities.set(at, node);
        } else {
            self.give_back(at, bytes);
        }
    }

    /// Retires an authority that is no longer named and has nothing left under
    /// it, and then each ancestor that this leaves drained.
    fn settle_authority(&mut self, at: usize)
        requires
            old(self).wf(),
            at < MAX_AUTHORITIES,
        ensures
            final(self).wf(),
            final(self).nodes() == settle_authority_spec(old(self).nodes(), at as int),
            final(self).objects() == old(self).objects(),
            final(self).ledger() == old(self).ledger(),
            final(self).is_stopped() == old(self).is_stopped(),
            roots_kept(old(self).nodes(), final(self).nodes()),
        decreases live_count(old(self).nodes()),
    {
        let node = self.authorities[at];
        // The root is never retired: it has nowhere to return to.
        if !node.live || node.parent.is_none() || node.names > 0 || node.allocated != 0 || node.children != 0 {
            return;
        }
        let ghost a = self.nodes();
        proof {
            assert(node_ok(a, self.objects(), self.ledger(), at as int, 0, 0));
        }
        let parent = match node.parent {
            Some(parent) => parent as usize,
            None => return,
        };
        let remainder = node.remaining;
        let mut emptied = node;
        emptied.remaining = 0;
        self.authorities.set(at, emptied);
        proof {
            let a0 = self.nodes();
            lemma_authority_update_sums(a, at as int, emptied);
            assert forall|q: int| 0 <= q < MAX_AUTHORITIES implies #[trigger] node_ok(a0, self.objects(), self.ledger(), q, at as int, remainder as int) by {
                assert(node_ok(a, self.objects(), self.ledger(), q, 0, 0));
                assert(child_budget_sum(a0, q) == child_budget_sum(a, q) - budget_of_child(a[at as int], q) + budget_of_child(emptied, q));
                assert(child_count(a0, q) == child_count(a, q) - count_of_child(a[at as int], q) + count_of_child(emptied, q));
                if a[q].live {
                    match a[q].parent {
                        Some(qq) => {
                            assert(a[qq as int].live);
                        },
                        None => {},
                    }
                }
            }
            assert forall|j: int| 0 <= j < MAX_REGIONS implies #[trigger] region_ok(a0, self.objects(), j) by {
                assert(region_ok(a, self.objects(), j));
            }
            assert forall|j: int| 0 <= j < MAX_CHARGES implies #[trigger] charge_ok(a0, self.ledger(), j) by {
                assert(charge_ok(a, self.ledger(), j));
            }
        }
        self.give_back(at, remainder);
        let ghost a1 = self.nodes();
        proof {
            lemma_give_back_ok(a.update(at as int, emptied), self.objects(), self.ledger(), at as int, remainder as int);
            assert(node_ok(a1, self.objects(), self.ledger(), at as int, 0, 0));
            lemma_retire_ok(a1, self.objects(), self.ledger(), at as int);
            lemma_terms_bounded(a1, self.objects(), self.ledger());
            assert(node_ok(a1, self.objects(), self.ledger(), parent as int, 0, 0));
            assert(count_of_child(a1[at as int], parent as int) == 1);
            let a0 = a.update(at as int, emptied);
            assert(roots_kept(a, a0));
            lemma_roots_kept_trans(a, a0, a1);
        }
        let mut dead = self.authorities[at];
        dead.live = false;
        self.authorities.set(at, dead);
        let mut pn = self.authorities[parent];
        pn.children = pn.children - 1;
        self.authorities.set(parent, pn);
        proof {
            assert(self.nodes() == retire_spec(a, at as int));
            lemma_retire_live_count(a, at as int);
            lemma_roots_kept_trans(a, a1, self.nodes());
        }
        let ghost a3 = self.nodes();
        self.settle_authority(parent);
        proof {
            lemma_roots_kept_trans(a, a3, self.nodes());
        }
    }

    /// Reclaims a region whose last way of being reached has gone.
    fn settle_region(&mut self, at: usize)
        requires
            old(self).wf(),
            at < MAX_REGIONS,
        ensures
            final(self).wf(),
            final(self).nodes() == settle_region_nodes(old(self).nodes(), old(self).objects(), at as int),
            final(self).objects() == settle_region_objects(old(self).objects(), at as int),
            final(self).ledger() == old(self).ledger(),
            final(self).is_stopped() == old(self).is_stopped(),
            roots_kept(old(self).nodes(), final(self).nodes()),
    {
        let region = self.regions[at];
        if !region.live || region.capabilities != 0 || region.writable_mappings != 0 || region.readable_mappings != 0 {
            return;
        }
        let ghost a = self.nodes();
        let ghost r = self.objects();
        let funder = region.charged_to as usize;
        proof {
            assert(region_ok(a, r, at as int));
            assert(node_ok(a, r, self.ledger(), funder as int, 0, 0));
            lemma_terms_bounded(a, r, self.ledger());
            assert(region_contribution(r[at as int], funder as int) <= region_sum(r, funder as int));
        }
        let mut dead = region;
        dead.live = false;
        dead.holder = u32::MAX;
        self.regions.set(at, dead);
        let mut node = self.authorities[funder];
        node.allocated = node.allocated - region.bytes;
        self.authorities.set(funder, node);
        proof {
            let a1 = self.nodes();
            let r1 = self.objects();
            let c = self.ledger();
            lemma_authority_update_sums(a, funder as int, node);
            lemma_region_update_sums(r, at as int, dead);
            assert forall|q: int| 0 <= q < MAX_AUTHORITIES implies #[trigger] node_ok(a1, r1, c, q, funder as int, region.bytes as int) by {
                assert(node_ok(a, r, c, q, 0, 0));
                assert(child_budget_sum(a1, q) == child_budget_sum(a, q) - budget_of_child(a[funder as int], q) + budget_of_child(node, q));
                assert(child_count(a1, q) == child_count(a, q) - count_of_child(a[funder as int], q) + count_of_child(node, q));
                assert(region_sum(r1, q) == region_sum(r, q) - region_contribution(r[at as int], q) + region_contribution(dead, q));
                if a[q].live {
                    match a[q].parent {
                        Some(qq) => {
                            assert(a[qq as int].live);
                        },
                        None => {},
                    }
                }
            }
            assert forall|j: int| 0 <= j < MAX_REGIONS implies #[trigger] region_ok(a1, r1, j) by {
                assert(region_ok(a, r, j));
            }
            assert forall|j: int| 0 <= j < MAX_CHARGES implies #[trigger] charge_ok(a1, c, j) by {
                assert(charge_ok(a, c, j));
            }
        }
        let ghost a1 = self.nodes();
        proof {
            assert(roots_kept(a, a1));
        }
        self.give_back_or_keep(funder, region.bytes);
        let ghost a2 = self.nodes();
        proof {
            lemma_give_back_ok(a1, self.objects(), self.ledger(), funder as int, region.bytes as int);
            lemma_roots_kept_trans(a, a1, a2);
        }
        self.settle_authority(funder);
        proof {
            lemma_roots_kept_trans(a, a2, self.nodes());
        }
    }

    /// Returns a process grant, consuming the receipt that made it. The bytes
    /// travel to the authority that funded them while it is named, and past it
    /// to its parent when it is not.
    pub fn refund_grant(&mut self, charge: GrantCharge) -> (r: Result<(), Refusal>)
        requires
            old(self).wf(),
        ensures
            ledger_steps(old(self).ledger(), final(self).ledger()),
            final(self).wf(),
            final(self).objects() == old(self).objects(),
            final(self).is_stopped() == old(self).is_stopped(),
            roots_kept(old(self).nodes(), final(self).nodes()),
            refunded(old(self).nodes(), final(self).nodes(), old(self).ledger(), final(self).ledger(), charge, r),
    {
        let slot = charge.slot as usize;
        if slot >= MAX_CHARGES {
            return Err(Refusal::NotFound);
        }
        let entry = self.charges[slot];
        if !entry.live || entry.incarnation != charge.incarnation {
            return Err(Refusal::NotFound);
        }
        proof {
            assert(charge_ok(self.nodes(), self.ledger(), slot as int));
        }
        let at = entry.authority as usize;
        let node = self.authorities[at];
        if !node.live || node.incarnation != entry.authority_incarnation || node.allocated < entry.bytes {
            return Err(Refusal::BadArgument);
        }
        let ghost a = self.nodes();
        let ghost c = self.ledger();
        let ghost r = self.objects();
        let mut settled = entry;
        settled.live = false;
        settled.incarnation = entry.incarnation.wrapping_add(1);
        self.charges.set(slot, settled);
        let mut funder = node;
        funder.allocated = node.allocated - entry.bytes;
        self.authorities.set(at, funder);
        proof {
            let a1 = self.nodes();
            let c1 = self.ledger();
            lemma_authority_update_sums(a, at as int, funder);
            lemma_charge_update_sums(c, slot as int, settled);
            assert forall|q: int| 0 <= q < MAX_AUTHORITIES implies #[trigger] node_ok(a1, r, c1, q, at as int, entry.bytes as int) by {
                assert(node_ok(a, r, c, q, 0, 0));
                assert(child_budget_sum(a1, q) == child_budget_sum(a, q) - budget_of_child(a[at as int], q) + budget_of_child(funder, q));
                assert(child_count(a1, q) == child_count(a, q) - count_of_child(a[at as int], q) + count_of_child(funder, q));
                assert(charge_sum(c1, q) == charge_sum(c, q) - charge_contribution(c[slot as int], q) + charge_contribution(settled, q));
                if a[q].live {
                    match a[q].parent {
                        Some(qq) => {
                            assert(a[qq as int].live);
                        },
                        None => {},
                    }
                }
            }
            assert forall|j: int| 0 <= j < MAX_REGIONS implies #[trigger] region_ok(a1, r, j) by {
                assert(region_ok(a, r, j));
            }
            assert forall|j: int| 0 <= j < MAX_CHARGES implies #[trigger] charge_ok(a1, c1, j) by {
                assert(charge_ok(a, c, j));
            }
            assert(roots_kept(a, a1));
        }
        let ghost a1 = self.nodes();
        self.give_back_or_keep(at, entry.bytes);
        let ghost a2 = self.nodes();
        proof {
            lemma_give_back_ok(a1, self.objects(), self.ledger(), at as int, entry.bytes as int);
            lemma_roots_kept_trans(a, a1, a2);
        }
        self.settle_authority(at);
        proof {
            lemma_roots_kept_trans(a, a2, self.nodes());
        }
        Ok(())
    }

    /// The node loses its last name: remainder upward, generation onward.
    fn drop_last_name(&mut self, at: usize)
        requires
            old(self).wf(),
            at < MAX_AUTHORITIES,
            old(self).nodes()[at as int].live,
        ensures
            final(self).wf(),
            final(self).nodes() == unnamed_spec(old(self).nodes(), at as int),
            final(self).objects() == old(self).objects(),
            final(self).ledger() == old(self).ledger(),
            final(self).is_stopped() == old(self).is_stopped(),
            roots_kept(old(self).nodes(), final(self).nodes()),
    {
        let ghost a = self.nodes();
        let node = self.authorities[at];
        let returning = node.remaining;
        let mut emptied = node;
        emptied.names = 0;
        emptied.remaining = 0;
        emptied.generation = node.generation.wrapping_add(1);
        proof {
            lemma_node_update_ok(a, self.objects(), self.ledger(), at as int, emptied, returning as int);
        }
        self.authorities.set(at, emptied);
        let ghost a1 = self.nodes();
        self.give_back(at, returning);
        let ghost a2 = self.nodes();
        proof {
            lemma_give_back_ok(a1, self.objects(), self.ledger(), at as int, returning as int);
            lemma_roots_kept_trans(a, a1, a2);
        }
        self.settle_authority(at);
        proof {
            lemma_roots_kept_trans(a, a2, self.nodes());
        }
    }

    /// Takes one more live reference to an authority: several names, one
    /// budget.
    pub fn retain(&mut self, authority: AuthorityId) -> (r: Result<(), Refusal>)
        requires
            old(self).wf(),
            resolves_authority(old(self).nodes(), authority) ==> old(self).nodes()[authority.index as int].names
                < usize::MAX,
        ensures
            final(self).wf(),
            final(self).objects() == old(self).objects(),
            final(self).ledger() == old(self).ledger(),
            final(self).is_stopped() == old(self).is_stopped(),
            !resolves_authority(old(self).nodes(), authority) ==> r == Err::<(), Refusal>(Refusal::NotFound)
                && final(self).nodes() == old(self).nodes(),
            resolves_authority(old(self).nodes(), authority) ==> r == Ok::<(), Refusal>(()) && final(self).nodes()
                == old(self).nodes().update(
                authority.index as int,
                Authority {
                    names: (old(self).nodes()[authority.index as int].names + 1) as usize,
                    ..old(self).nodes()[authority.index as int]
                },
            ),
    {
        let at = self.authority(authority)?;
        let mut node = self.authorities[at];
        node.names = node.names + 1;
        proof {
            lemma_node_update_ok(self.nodes(), self.objects(), self.ledger(), at as int, node, 0);
            lemma_no_slack(self.nodes().update(at as int, node), self.objects(), self.ledger(), at as int);
        }
        self.authorities.set(at, node);
        Ok(())
    }

    /// Drops one live reference. Only the loss of the last one returns the
    /// unspent remainder upward and moves the generation on.
    pub fn release_name(&mut self, authority: AuthorityId) -> (r: Result<(), Refusal>)
        requires
            old(self).wf(),
        ensures
            final(self).wf(),
            final(self).objects() == old(self).objects(),
            final(self).ledger() == old(self).ledger(),
            final(self).is_stopped() == old(self).is_stopped(),
            roots_kept(old(self).nodes(), final(self).nodes()),
            released_name(old(self).nodes(), final(self).nodes(), authority, r),
    {
        let at = self.authority(authority)?;
        let node = self.authorities[at];
        if node.names > 1 {
            let mut named = node;
            named.names = node.names - 1;
            proof {
                lemma_node_update_ok(self.nodes(), self.objects(), self.ledger(), at as int, named, 0);
                lemma_no_slack(self.nodes().update(at as int, named), self.objects(), self.ledger(), at as int);
            }
            self.authorities.set(at, named);
            return Ok(());
        }
        self.drop_last_name(at);
        Ok(())
    }

    /// How many live references name this node.
    pub fn names(&self, authority: AuthorityId) -> (r: Result<usize, Refusal>)
        requires
            self.wf(),
        ensures
            r == if resolves_authority(self.nodes(), authority) {
                Ok::<usize, Refusal>(self.nodes()[authority.index as int].names)
            } else {
                Err(Refusal::NotFound)
            },
    {
        let at = self.authority(authority)?;
        Ok(self.authorities[at].names)
    }

    /// Drops every name at once, whoever held them. The node survives while
    /// anything it funded is still alive.
    pub fn revoke(&mut self, authority: AuthorityId) -> (r: Result<(), Refusal>)
        requires
            old(self).wf(),
        ensures
            final(self).wf(),
            final(self).objects() == old(self).objects(),
            final(self).ledger() == old(self).ledger(),
            final(self).is_stopped() == old(self).is_stopped(),
            roots_kept(old(self).nodes(), final(self).nodes()),
            !resolves_authority(old(self).nodes(), authority) ==> r == Err::<(), Refusal>(Refusal::NotFound)
                && final(self).nodes() == old(self).nodes(),
            resolves_authority(old(self).nodes(), authority) ==> r == Ok::<(), Refusal>(()) && final(self).nodes()
                == unnamed_spec(old(self).nodes(), authority.index as int),
    {
        let at = self.authority(authority)?;
        self.drop_last_name(at);
        Ok(())
    }

    /// What a region may be done to.
    pub fn mode(&self, region: RegionId) -> (r: Result<Mode, Refusal>)
        requires
            self.wf(),
        ensures
            r == if !resolves_region(self.objects(), region) {
                Err::<Mode, Refusal>(Refusal::NotFound)
            } else if self.objects()[region.index as int].mutable {
                Ok(Mode::Mutable)
            } else {
                Ok(Mode::Immutable)
            },
    {
        let at = self.region(region)?;
        Ok(if self.regions[at].mutable {
            Mode::Mutable
        } else {
            Mode::Immutable
        })
    }

    /// The bytes an authority may still spend itself.
    pub fn remaining(&self, authority: AuthorityId) -> (r: Result<usize, Refusal>)
        requires
            self.wf(),
        ensures
            r == if resolves_authority(self.nodes(), authority) {
                Ok::<usize, Refusal>(self.nodes()[authority.index as int].remaining)
            } else {
                Err(Refusal::NotFound)
            },
    {
        let at = self.authority(authority)?;
        Ok(self.authorities[at].remaining)
    }

    /// Maps a region into its holder, writably or not. A writable mapping of
    /// an immutable region is refused.
    pub fn map(&mut self, region: RegionId, writable: bool) -> (r: Result<(), Refusal>)
        requires
            old(self).wf(),
            resolves_region(old(self).objects(), region) && writable ==> old(self).objects()[region.index as int].writable_mappings
                < usize::MAX,
            resolves_region(old(self).objects(), region) && !writable ==> old(self).objects()[region.index as int].readable_mappings
                < usize::MAX,
        ensures
            frozen_kept(old(self).objects(), final(self).objects()),
            final(self).wf(),
            final(self).nodes() == old(self).nodes(),
            final(self).ledger() == old(self).ledger(),
            final(self).is_stopped() == old(self).is_stopped(),
            mapped(old(self).objects(), final(self).objects(), region, writable, r),
    {
        let at = self.region(region)?;
        let mut g = self.regions[at];
        if writable && !g.mutable {
            return Err(Refusal::WrongMode);
        }
        if writable {
            g.writable_mappings = g.writable_mappings + 1;
        } else {
            g.readable_mappings = g.readable_mappings + 1;
        }
        proof {
            lemma_region_fields_ok(self.nodes(), self.objects(), self.ledger(), at as int, g);
        }
        self.regions.set(at, g);
        Ok(())
    }

    /// Drops one mapping, and reclaims the region if that was the last way to
    /// reach it.
    pub fn unmap(&mut self, region: RegionId, writable: bool) -> (r: Result<(), Refusal>)
        requires
            old(self).wf(),
        ensures
            frozen_kept(old(self).objects(), final(self).objects()),
            final(self).wf(),
            final(self).ledger() == old(self).ledger(),
            final(self).is_stopped() == old(self).is_stopped(),
            roots_kept(old(self).nodes(), final(self).nodes()),
            ({
                let i = region.index as int;
                let g = old(self).objects()[i];
                let g2 = if writable {
                    region_with(g, g.mutable, g.capabilities, less_one(g.writable_mappings), g.readable_mappings, g.holder)
                } else {
                    region_with(g, g.mutable, g.capabilities, g.writable_mappings, less_one(g.readable_mappings), g.holder)
                };
                let r2 = old(self).objects().update(i, g2);
                if !resolves_region(old(self).objects(), region) {
                    r == Err::<(), Refusal>(Refusal::NotFound) && final(self).objects() == old(self).objects()
                        && final(self).nodes() == old(self).nodes()
                } else {
                    &&& r == Ok::<(), Refusal>(())
                    &&& final(self).objects() == settle_region_objects(r2, i)
                    &&& final(self).nodes() == settle_region_nodes(old(self).nodes(), r2, i)
                }
            }),
    {
        let at = self.region(region)?;
        let mut g = self.regions[at];
        if writable {
            g.writable_mappings = g.writable_mappings.saturating_sub(1);
        } else {
            g.readable_mappings = g.readable_mappings.saturating_sub(1);
        }
        proof {
            lemma_region_fields_ok(self.nodes(), self.objects(), self.ledger(), at as int, g);
        }
        self.regions.set(at, g);
        self.settle_region(at);
        Ok(())
    }

    /// The consuming transition: a writable region becomes permanently
    /// immutable, with no writable mapping left. Only the sole holder may do
    /// it.
    pub fn freeze(&mut self, region: RegionId, holder: u32) -> (r: Result<(), Refusal>)
        requires
            old(self).wf(),
        ensures
            frozen_kept(old(self).objects(), final(self).objects()),
            final(self).wf(),
            final(self).nodes() == old(self).nodes(),
            final(self).ledger() == old(self).ledger(),
            final(self).is_stopped() == old(self).is_stopped(),
            frozen(old(self).objects(), final(self).objects(), region, holder, r),
            r is Ok ==> writable_aliases_spec(final(self).objects()[region.index as int]) == 0,
    {
        let at = self.region(region)?;
        let mut g = self.regions[at];
        if !g.mutable {
            return Err(Refusal::WrongMode);
        }
        if g.holder != holder || g.capabilities != 1 {
            return Err(Refusal::NotTheHolder);
        }
        g.writable_mappings = 0;
        g.mutable = false;
        proof {
            lemma_region_fields_ok(self.nodes(), self.objects(), self.ledger(), at as int, g);
        }
        self.regions.set(at, g);
        Ok(())
    }

    /// How many ways this region can still be written. Zero after a freeze.
    pub fn writable_aliases(&self, region: RegionId) -> (r: Result<usize, Refusal>)
        requires
            self.wf(),
            resolves_region(self.objects(), region) ==> writable_aliases_spec(self.objects()[region.index as int])
                <= usize::MAX,
        ensures
            r == if resolves_region(self.objects(), region) {
                Ok::<usize, Refusal>(writable_aliases_spec(self.objects()[region.index as int]) as usize)
            } else {
                Err(Refusal::NotFound)
            },
    {
        let at = self.region(region)?;
        let g = self.regions[at];
        Ok(if g.mutable {
            g.capabilities + g.writable_mappings
        } else {
            g.writable_mappings
        })
    }

    /// Moves an immutable region into exactly one other holder. The sender's
    /// mappings are gone before ownership moves.
    pub fn transfer(&mut self, region: RegionId, from: u32, to: u32) -> (r: Result<(), Refusal>)
        requires
            old(self).wf(),
        ensures
            frozen_kept(old(self).objects(), final(self).objects()),
            final(self).wf(),
            final(self).nodes() == old(self).nodes(),
            final(self).ledger() == old(self).ledger(),
            final(self).is_stopped() == old(self).is_stopped(),
            transferred(old(self).objects(), final(self).objects(), region, from, to, r),
    {
        let at = self.region(region)?;
        let mut g = self.regions[at];
        if g.mutable {
            return Err(Refusal::WrongMode);
        }
        if g.holder != from {
            return Err(Refusal::NotTheHolder);
        }
        g.readable_mappings = 0;
        g.holder = to;
        proof {
            lemma_region_fields_ok(self.nodes(), self.objects(), self.ledger(), at as int, g);
        }
        self.regions.set(at, g);
        Ok(())
    }

    /// Releases one capability over a region, reclaiming it if that was the
    /// last way to reach it.
    pub fn release(&mut self, region: RegionId) -> (r: Result<(), Refusal>)
        requires
            old(self).wf(),
        ensures
            frozen_kept(old(self).objects(), final(self).objects()),
            final(self).wf(),
            final(self).ledger() == old(self).ledger(),
            final(self).is_stopped() == old(self).is_stopped(),
            roots_kept(old(self).nodes(), final(self).nodes()),
            released(old(self).nodes(), final(self).nodes(), old(self).objects(), final(self).objects(), region, r),
    {
        let at = self.region(region)?;
        let mut g = self.regions[at];
        g.capabilities = g.capabilities.saturating_sub(1);
        proof {
            lemma_region_fields_ok(self.nodes(), self.objects(), self.ledger(), at as int, g);
        }
        self.regions.set(at, g);
        self.settle_region(at);
        Ok(())
    }

    /// A process ended: its handles and its mappings go with it, and every
    /// region it held is reclaimed.
    pub fn process_died(&mut self, holder: u32)
        requires
            old(self).wf(),
        ensures
            frozen_kept(old(self).objects(), final(self).objects()),
            final(self).wf(),
            final(self).ledger() == old(self).ledger(),
            final(self).is_stopped() == old(self).is_stopped(),
            roots_kept(old(self).nodes(), final(self).nodes()),
            (final(self).nodes(), final(self).objects()) == died_spec(
                old(self).nodes(),
                old(self).objects(),
                holder,
                MAX_REGIONS as nat,
            ),
            forall|j: int|
                0 <= j < MAX_REGIONS ==> !((#[trigger] final(self).objects()[j]).live && final(self).objects()[j].holder
                    == holder),
            forall|j: int|
                0 <= j < MAX_REGIONS && !(old(self).objects()[j].live && old(self).objects()[j].holder == holder)
                    ==> #[trigger] final(self).objects()[j] == old(self).objects()[j],
    {
        let ghost a0 = self.nodes();
        let ghost r0 = self.objects();
        let mut at: usize = 0;
        while at < MAX_REGIONS
            invariant
                self.wf(),
                at <= MAX_REGIONS,
                self.ledger() == old(self).ledger(),
                self.is_stopped() == old(self).is_stopped(),
                a0 == old(self).nodes(),
                r0 == old(self).objects(),
                roots_kept(a0, self.nodes()),
                (self.nodes(), self.objects()) == died_spec(a0, r0, holder, at as nat),
                forall|j: int| 0 <= j < at ==> !((#[trigger] self.objects()[j]).live && self.objects()[j].holder == holder),
                forall|j: int|
                    0 <= j < MAX_REGIONS && !(r0[j].live && r0[j].holder == holder) ==> #[trigger] self.objects()[j]
                        == r0[j],
                forall|j: int| at <= j < MAX_REGIONS ==> #[trigger] self.objects()[j] == r0[j],
                frozen_kept(r0, self.objects()),
            decreases MAX_REGIONS - at,
        {
            let g = self.regions[at];
            if g.live && g.holder == holder {
                let ghost a1 = self.nodes();
                let mut h = g;
                h.capabilities = 0;
                h.writable_mappings = 0;
                h.readable_mappings = 0;
                proof {
                    lemma_region_fields_ok(self.nodes(), self.objects(), self.ledger(), at as int, h);
                }
                self.regions.set(at, h);
                self.settle_region(at);
                proof {
                    lemma_roots_kept_trans(a0, a1, self.nodes());
                }
            }
            at = at + 1;
        }
    }

    /// What is allocated under an authority and everything reserved from it.
    pub fn allocated(&self, authority: AuthorityId) -> (r: Result<usize, Refusal>)
        requires
            self.wf(),
        ensures
            r == if resolves_authority(self.nodes(), authority) {
                Ok::<usize, Refusal>(
                    subtree_allocated_spec(self.nodes(), authority.index as int, MAX_AUTHORITIES as nat) as usize,
                )
            } else {
                Err(Refusal::NotFound)
            },
            r is Ok ==> r->Ok_0 <= self.nodes()[authority.index as int].budget,
    {
        let at = self.authority(authority)?;
        let total = self.subtree_allocated(at, MAX_AUTHORITIES);
        Ok(total)
    }

    /// The backing charged to this node and everything under it, down to
    /// `fuel` generations of descendants.
    fn subtree_allocated(&self, at: usize, fuel: usize) -> (r: usize)
        requires
            self.wf(),
            at < MAX_AUTHORITIES,
            self.nodes()[at as int].live,
        ensures
            r == subtree_allocated_spec(self.nodes(), at as int, fuel as nat),
            r <= self.nodes()[at as int].budget,
        decreases fuel,
    {
        let ghost a = self.nodes();
        proof {
            lemma_subtree_bounded(a, self.objects(), self.ledger(), at as int, fuel as nat);
            assert(node_ok(a, self.objects(), self.ledger(), at as int, 0, 0));
            lemma_terms_bounded(a, self.objects(), self.ledger());
        }
        let mut total = self.authorities[at].allocated;
        if fuel == 0 {
            return total;
        }
        let mut other: usize = 0;
        while other < MAX_AUTHORITIES
            invariant
                self.wf(),
                a == self.nodes(),
                at < MAX_AUTHORITIES,
                a[at as int].live,
                fuel > 0,
                other <= MAX_AUTHORITIES,
                total == a[at as int].allocated + children_allocated_spec(a, at as int, fuel as nat, other as nat),
                children_allocated_spec(a, at as int, fuel as nat, other as nat) <= sum_to(
                    |j: int| budget_of_child(a[j], at as int),
                    other as int,
                ),
            decreases MAX_AUTHORITIES - other,
        {
            let node = self.authorities[other];
            proof {
                lemma_children_bounded(a, self.objects(), self.ledger(), at as int, fuel as nat, (other + 1) as nat);
                lemma_sum_prefix_le(|j: int| budget_of_child(a[j], at as int), (other + 1) as int, MAX_AUTHORITIES as int);
                assert(node_ok(a, self.objects(), self.ledger(), at as int, 0, 0));
            }
            if node.live && node.parent == Some(at as u32) {
                let below = self.subtree_allocated(other, fuel - 1);
                total = total + below;
            }
            other = other + 1;
        }
        total
    }

    /// Whether the accounting holds at every node: nothing spent twice, and no
    /// subtree spending more than it was given.
    pub fn accounting_holds(&self) -> (r: bool)
        requires
            self.wf(),
        ensures
            r == accounting_spec(self.nodes()),
            r,
    {
        let ghost a = self.nodes();
        proof {
            lemma_wf_accounting(self);
        }
        let mut at: usize = 0;
        while at < MAX_AUTHORITIES
            invariant
                self.wf(),
                a == self.nodes(),
                at <= MAX_AUTHORITIES,
                forall|i: int| 0 <= i < at && #[trigger] a[i].live ==> {
                    &&& a[i].allocated + a[i].reserved + a[i].remaining == a[i].budget
                    &&& a[i].reserved == child_budget_sum(a, i)
                    &&& a[i].children == child_count(a, i)
                },
            decreases MAX_AUTHORITIES - at,
        {
            let node = self.authorities[at];
            if node.live {
                proof {
                    assert(node_ok(a, self.objects(), self.ledger(), at as int, 0, 0));
                }
                if node.allocated + node.reserved + node.remaining != node.budget {
                    return false;
                }
                let mut reserved: usize = 0;
                let mut children: usize = 0;
                let mut other: usize = 0;
                while other < MAX_AUTHORITIES
                    invariant
                        self.wf(),
                        a == self.nodes(),
                        at < MAX_AUTHORITIES,
                        node == a[at as int],
                        node.live,
                        other <= MAX_AUTHORITIES,
                        reserved == sum_to(|j: int| budget_of_child(a[j], at as int), other as int),
                        children == sum_to(|j: int| count_of_child(a[j], at as int), other as int),
                        node.reserved == child_budget_sum(a, at as int),
                        node.children == child_count(a, at as int),
                    decreases MAX_AUTHORITIES - other,
                {
                    proof {
                        lemma_sum_prefix_le(|j: int| budget_of_child(a[j], at as int), (other + 1) as int, MAX_AUTHORITIES as int);
                        lemma_sum_prefix_le(|j: int| count_of_child(a[j], at as int), (other + 1) as int, MAX_AUTHORITIES as int);
                        lemma_terms_bounded(a, self.objects(), self.ledger());
                    }
                    let candidate = self.authorities[other];
                    if candidate.live && candidate.parent == Some(at as u32) {
                        reserved = reserved + candidate.budget;
                        children = children + 1;
                    }
                    other = other + 1;
                }
                if reserved != node.reserved || children != node.children {
                    return false;
                }
            }
            at = at + 1;
        }
        true
    }

    /// What is charged: the bytes every live authority has allocated, summed.
    pub fn committed(&self) -> (r: usize)
        requires
            self.wf(),
            committed_spec(self.nodes()) <= usize::MAX,
        ensures
            r == committed_spec(self.nodes()),
    {
        let ghost a = self.nodes();
        let ghost f = |j: int| if a[j].live { a[j].allocated as int } else { 0int };
        let mut total: usize = 0;
        let mut at: usize = 0;
        while at < MAX_AUTHORITIES
            invariant
                self.wf(),
                a == self.nodes(),
                f == (|j: int| if a[j].live { a[j].allocated as int } else { 0int }),
                sum_to(f, MAX_AUTHORITIES as int) <= usize::MAX,
                at <= MAX_AUTHORITIES,
                total == sum_to(f, at as int),
            decreases MAX_AUTHORITIES - at,
        {
            proof {
                lemma_sum_prefix_le(f, (at + 1) as int, MAX_AUTHORITIES as int);
            }
            if self.authorities[at].live {
                total = total + self.authorities[at].allocated;
            }
            at = at + 1;
        }
        total
    }

    fn authority(&self, id: AuthorityId) -> (r: Result<usize, Refusal>)
        requires
            self.wf(),
        ensures
            r is Ok <==> resolves_authority(self.nodes(), id),
            r is Ok ==> r->Ok_0 == id.index,
            r is Err ==> r == Err::<usize, Refusal>(Refusal::NotFound),
    {
        let at = id.index as usize;
        if at >= MAX_AUTHORITIES {
            return Err(Refusal::NotFound);
        }
        let node = self.authorities[at];
        if !node.live || node.names == 0 || node.generation != id.generation {
            return Err(Refusal::NotFound);
        }
        Ok(at)
    }

    fn region(&self, id: RegionId) -> (r: Result<usize, Refusal>)
        requires
            self.wf(),
        ensures
            r is Ok <==> resolves_region(self.objects(), id),
            r is Ok ==> r->Ok_0 == id.index,
            r is Err ==> r == Err::<usize, Refusal>(Refusal::NotFound),
    {
        let at = id.index as usize;
        if at >= MAX_REGIONS {
            return Err(Refusal::NotFound);
        }
        let region = self.regions[at];
        if !region.live || region.generation != id.generation {
            return Err(Refusal::NotFound);
        }
        Ok(at)
    }

    fn free_authority(&self) -> (r: Result<usize, Refusal>)
        requires
            self.wf(),
        ensures
            r is Ok ==> first_free_authority(self.nodes(), r->Ok_0 as int),
            r is Ok <==> authority_slot_free(self.nodes()),
            r is Err ==> r == Err::<usize, Refusal>(Refusal::NoRoom),
    {
        let mut at: usize = 0;
        while at < MAX_AUTHORITIES
            invariant
                self.wf(),
                at <= MAX_AUTHORITIES,
                forall|j: int| 0 <= j < at ==> #[trigger] self.nodes()[j].live,
            decreases MAX_AUTHORITIES - at,
        {
            if !self.authorities[at].live {
                return Ok(at);
            }
            at = at + 1;
        }
        Err(Refusal::NoRoom)
    }

    fn free_region(&self) -> (r: Result<usize, Refusal>)
        requires
            self.wf(),
        ensures
            r is Ok ==> first_free_region(self.objects(), r->Ok_0 as int),
            r is Ok <==> region_slot_free(self.objects()),
            r is Err ==> r == Err::<usize, Refusal>(Refusal::NoRoom),
    {
        let mut at: usize = 0;
        while at < MAX_REGIONS
            invariant
                self.wf(),
                at <= MAX_REGIONS,
                forall|j: int| 0 <= j < at ==> #[trigger] self.objects()[j].live,
            decreases MAX_REGIONS - at,
        {
            if !self.regions[at].live {
                return Ok(at);
            }
            at = at + 1;
        }
        Err(Refusal::NoRoom)
    }

    fn free_charge(&self) -> (r: Result<usize, Refusal>)
        requires
            self.wf(),
        ensures
            r is Ok ==> first_free_charge(self.ledger(), r->Ok_0 as int),
            r is Ok <==> charge_slot_free(self.ledger()),
            r is Err ==> r == Err::<usize, Refusal>(Refusal::NoRoom),
    {
        let mut at: usize = 0;
        while at < MAX_CHARGES
            invariant
                self.wf(),
                at <= MAX_CHARGES,
                forall|j: int| 0 <= j < at ==> #[trigger] self.ledger()[j].live,
            decreases MAX_CHARGES - at,
        {
            if !self.charges[at].live {
                return Ok(at);
            }
            at = at + 1;
        }
        Err(Refusal::NoRoom)
    }
}


// ---------------------------------------------------------------------------
// Laws over several calls.

/// Spending `b` of a named node and then having it back leaves the authority
/// table as it was.
proof fn lemma_spend_then_return(a0: Seq<Authority>, at: int, b: usize)
    requires
        a0.len() == MAX_AUTHORITIES,
        0 <= at < MAX_AUTHORITIES,
        a0[at].live,
        a0[at].names > 0,
        a0[at].remaining >= b,
        a0[at].allocated + b <= usize::MAX,
    ensures
        ({
            let a1 = a0.update(at, spending(a0[at], b));
            settle_authority_spec(
                keep_or_give_back_spec(
                    a1.update(at, Authority { allocated: (a1[at].allocated - b) as usize, ..a1[at] }),
                    at,
                    b as int,
                ),
                at,
            ) == a0
        }),
{
    let a1 = a0.update(at, spending(a0[at], b));
    let a2 = a1.update(at, Authority { allocated: (a1[at].allocated - b) as usize, ..a1[at] });
    let a3 = keep_or_give_back_spec(a2, at, b as int);
    assert(a3[at] == a0[at]);
    assert(a3 =~= a0);
    assert(!retirable(a3[at]));
}

/// A grant charged and then refunded with its receipt leaves every authority
/// as it was, so what each may still spend, what each has allocated, the
/// committed total and the accounting all read as before; the ledger slot is
/// free again, under its next incarnation.
pub proof fn lemma_refund_undoes_charge(
    before: &Regions,
    charged: &Regions,
    after: &Regions,
    authority: AuthorityId,
    bytes: usize,
    granule: usize,
    receipt: GrantCharge,
    refund: Result<(), Refusal>,
)
    requires
        before.wf(),
        resolves_authority(before.nodes(), authority),
        charged_grant(
            before.nodes(),
            charged.nodes(),
            before.ledger(),
            charged.ledger(),
            before.is_stopped(),
            authority,
            bytes,
            granule,
            Ok::<GrantCharge, Refusal>(receipt),
        ),
        refunded(charged.nodes(), after.nodes(), charged.ledger(), after.ledger(), receipt, refund),
    ensures
        refund == Ok::<(), Refusal>(()),
        after.nodes() == before.nodes(),
        committed_spec(after.nodes()) == committed_spec(before.nodes()),
        accounting_spec(after.nodes()) == accounting_spec(before.nodes()),
        !after.ledger()[receipt.slot_spec() as int].live,
        after.ledger()[receipt.slot_spec() as int].incarnation == before.ledger()[receipt.slot_spec() as int].incarnation.wrapping_add(1),
        forall|j: int| 0 <= j < MAX_CHARGES && j != receipt.slot_spec() as int ==> #[trigger] after.ledger()[j] == before.ledger()[j],
{
    let at = authority.index as int;
    assert(node_ok(before.nodes(), before.objects(), before.ledger(), at, 0, 0));
    lemma_spend_then_return(before.nodes(), at, receipt.charged_spec());
}

/// A region allocated and then released through its only capability, with
/// nothing mapped in between, is reclaimed: every authority reads as before
/// the allocation, the id names nothing, and releasing it again is refused.
pub proof fn lemma_release_undoes_allocate(
    before: &Regions,
    allocated: &Regions,
    after: &Regions,
    authority: AuthorityId,
    bytes: usize,
    granule: usize,
    holder: u32,
    id: RegionId,
    release: Result<(), Refusal>,
)
    requires
        before.wf(),
        resolves_authority(before.nodes(), authority),
        allocated_region(
            before.nodes(),
            allocated.nodes(),
            before.objects(),
            allocated.objects(),
            before.is_stopped(),
            authority,
            bytes,
            granule,
            holder,
            Ok::<RegionId, Refusal>(id),
        ),
        released(allocated.nodes(), after.nodes(), allocated.objects(), after.objects(), id, release),
    ensures
        release == Ok::<(), Refusal>(()),
        after.nodes() == before.nodes(),
        committed_spec(after.nodes()) == committed_spec(before.nodes()),
        !resolves_region(after.objects(), id),
        forall|j: int| 0 <= j < MAX_REGIONS && j != id.index as int ==> #[trigger] after.objects()[j] == before.objects()[j],
        forall|a: Seq<Authority>, o: Seq<Region>, again: Result<(), Refusal>|
            #[trigger] released(after.nodes(), a, after.objects(), o, id, again) ==> again == Err::<(), Refusal>(
                Refusal::NotFound,
            ),
{
    let at = authority.index as int;
    assert(node_ok(before.nodes(), before.objects(), before.ledger(), at, 0, 0));
    let b = rounded(bytes, granule)->0;
    lemma_spend_then_return(before.nodes(), at, b);
}

/// A receipt that names a live charge is always honoured, whether or not the
/// tree has been stopped: giving back never depends on being allowed to spend.
pub proof fn lemma_live_receipt_refunds(
    state: &Regions,
    receipt: GrantCharge,
    nodes: Seq<Authority>,
    ledger: Seq<Charge>,
    refund: Result<(), Refusal>,
)
    requires
        state.wf(),
        receipt.slot_spec() < MAX_CHARGES,
        state.ledger()[receipt.slot_spec() as int].live,
        state.ledger()[receipt.slot_spec() as int].incarnation == receipt.incarnation_spec(),
        refunded(state.nodes(), nodes, state.ledger(), ledger, receipt, refund),
    ensures
        refund == Ok::<(), Refusal>(()),
{
    let s = receipt.slot_spec() as int;
    let a = state.nodes();
    let c = state.ledger();
    let r = state.objects();
    assert(charge_ok(a, c, s));
    let at = c[s].authority as int;
    assert(node_ok(a, r, c, at, 0, 0));
    lemma_sum_nonneg(|j: int| region_contribution(r[j], at), MAX_REGIONS as int);
    lemma_sum_ge_term(|j: int| charge_contribution(c[j], at), MAX_CHARGES as int, s);
}

/// Once the tree is stopped, nothing spends: a charge, an allocation and a
/// reservation are each refused with `Stopped` and change nothing.
pub proof fn lemma_stopped_tree_spends_nothing(state: &Regions)
    requires
        state.is_stopped(),
    ensures
        forall|a: Seq<Authority>, c: Seq<Charge>, authority: AuthorityId, bytes: usize, granule: usize, r: Result<GrantCharge, Refusal>|
            #[trigger] charged_grant(state.nodes(), a, state.ledger(), c, state.is_stopped(), authority, bytes, granule, r)
                ==> r == Err::<GrantCharge, Refusal>(Refusal::Stopped) && a == state.nodes() && c == state.ledger(),
        forall|a: Seq<Authority>, o: Seq<Region>, authority: AuthorityId, bytes: usize, granule: usize, holder: u32, r: Result<RegionId, Refusal>|
            #[trigger] allocated_region(state.nodes(), a, state.objects(), o, state.is_stopped(), authority, bytes, granule, holder, r)
                ==> r == Err::<RegionId, Refusal>(Refusal::Stopped) && a == state.nodes() && o == state.objects(),
        forall|a: Seq<Authority>, parent: AuthorityId, bytes: usize, r: Result<AuthorityId, Refusal>|
            #[trigger] attenuated(state.nodes(), a, state.is_stopped(), parent, bytes, r)
                ==> r == Err::<AuthorityId, Refusal>(Refusal::Stopped) && a == state.nodes(),
{
}

/// A frozen region refuses the writable mapping that would undo the freeze.
pub proof fn lemma_frozen_refuses_writable_map(
    before: Seq<Region>,
    frozen_table: Seq<Region>,
    later: Seq<Region>,
    id: RegionId,
    holder: u32,
    r: Result<(), Refusal>,
)
    requires
        before.len() == MAX_REGIONS,
        frozen(before, frozen_table, id, holder, Ok::<(), Refusal>(())),
        mapped(frozen_table, later, id, true, r),
    ensures
        r == Err::<(), Refusal>(Refusal::WrongMode),
        later == frozen_table,
        writable_aliases_spec(frozen_table[id.index as int]) == 0,
{
}

/// After a transfer the region belongs to its new holder: the old holder can
/// no longer send it on, and the new one can.
pub proof fn lemma_transfer_moves_holder(
    before: Seq<Region>,
    moved: Seq<Region>,
    id: RegionId,
    from: u32,
    to: u32,
    next: u32,
)
    requires
        before.len() == MAX_REGIONS,
        from != to,
        transferred(before, moved, id, from, to, Ok::<(), Refusal>(())),
    ensures
        moved[id.index as int].holder == to,
        moved[id.index as int].readable_mappings == 0,
        forall|o: Seq<Region>, r: Result<(), Refusal>|
            #[trigger] transferred(moved, o, id, from, next, r) ==> r == Err::<(), Refusal>(Refusal::NotTheHolder) && o == moved,
        forall|o: Seq<Region>, r: Result<(), Refusal>|
            #[trigger] transferred(moved, o, id, to, next, r) ==> r == Ok::<(), Refusal>(()),
{
}

/// How one call may move ledger slot `s`: its occupant stays, or a live
/// charge is settled and the slot's incarnation moves on by one.
pub open spec fn ledger_slot_step(c0: Seq<Charge>, c1: Seq<Charge>, s: int) -> bool {
    ||| c1[s].incarnation == c0[s].incarnation
    ||| (c0[s].live && !c1[s].live && c1[s].incarnation == c0[s].incarnation.wrapping_add(1))
}

/// One call's effect on every ledger slot, as `ledger_slot_step` allows.
pub open spec fn ledger_steps(c0: Seq<Charge>, c1: Seq<Charge>) -> bool {
    &&& c1.len() == c0.len()
    &&& forall|s: int| 0 <= s < c0.len() ==> #[trigger] ledger_slot_step(c0, c1, s)
}

/// A charge moves a ledger slot as `ledger_slot_step` allows.
pub proof fn lemma_charge_steps(
    a0: Seq<Authority>,
    a1: Seq<Authority>,
    c0: Seq<Charge>,
    c1: Seq<Charge>,
    stopped: bool,
    authority: AuthorityId,
    bytes: usize,
    granule: usize,
    r: Result<GrantCharge, Refusal>,
    s: int,
)
    requires
        c0.len() == MAX_CHARGES,
        0 <= s < MAX_CHARGES,
        charged_grant(a0, a1, c0, c1, stopped, authority, bytes, granule, r),
    ensures
        ledger_slot_step(c0, c1, s),
{
}

/// So does a refund.
pub proof fn lemma_refund_steps(
    a0: Seq<Authority>,
    a1: Seq<Authority>,
    c0: Seq<Charge>,
    c1: Seq<Charge>,
    charge: GrantCharge,
    r: Result<(), Refusal>,
    s: int,
)
    requires
        c0.len() == MAX_CHARGES,
        0 <= s < MAX_CHARGES,
        refunded(a0, a1, c0, c1, charge, r),
    ensures
        ledger_slot_step(c0, c1, s),
{
}

/// A receipt whose charge was settled names nothing afterwards: across any
/// later run of calls, each moving the ledger as charges and refunds do, a
/// second receipt for it is refused with `NotFound`, whatever was charged
/// since, until the slot's incarnation counter has come all the way round.
pub proof fn lemma_settled_receipt_names_nothing(
    before: Seq<Charge>,
    history: Seq<Seq<Charge>>,
    receipt: GrantCharge,
    duplicate: GrantCharge,
)
    requires
        history.len() >= 1,
        history.len() < u32::MAX,
        duplicate.slot_spec() == receipt.slot_spec(),
        duplicate.incarnation_spec() == receipt.incarnation_spec(),
        receipt.slot_spec() < MAX_CHARGES,
        before[receipt.slot_spec() as int].live,
        before[receipt.slot_spec() as int].incarnation == receipt.incarnation_spec(),
        !history[0][receipt.slot_spec() as int].live,
        history[0][receipt.slot_spec() as int].incarnation == receipt.incarnation_spec().wrapping_add(1),
        forall|k: int| 0 <= k < history.len() - 1 ==> ledger_slot_step(#[trigger] history[k], history[k + 1], receipt.slot_spec() as int),
    ensures
        forall|a: Seq<Authority>, a1: Seq<Authority>, c1: Seq<Charge>, r: Result<(), Refusal>|
            #[trigger] refunded(a, a1, history.last(), c1, duplicate, r) ==> r == Err::<(), Refusal>(Refusal::NotFound)
                && c1 == history.last(),
{
    let s = receipt.slot_spec() as int;
    let inc = receipt.incarnation_spec() as int;
    let k = history.len() - 1;
    lemma_slot_counted(history, s, inc, k);
    let m = choose|m: int| 1 <= m <= k + 1 && history[k][s].incarnation == #[trigger] counted_on(inc, m);
    assert(counted_on(inc, m) != inc);
}

/// Along such a run, the slot's incarnation stands between one and `k + 1`
/// steps past `inc` at the `k`-th state.
proof fn lemma_slot_counted(history: Seq<Seq<Charge>>, s: int, inc: int, k: int)
    requires
        0 <= k < history.len(),
        history.len() < u32::MAX,
        0 <= inc <= u32::MAX,
        history[0][s].incarnation == counted_on(inc, 1),
        forall|j: int| 0 <= j < history.len() - 1 ==> ledger_slot_step(#[trigger] history[j], history[j + 1], s),
    ensures
        exists|m: int| 1 <= m <= k + 1 && history[k][s].incarnation == #[trigger] counted_on(inc, m),
    decreases k,
{
    if k == 0 {
        assert(history[0][s].incarnation == counted_on(inc, 1));
    } else {
        lemma_slot_counted(history, s, inc, k - 1);
        let m = choose|m: int| 1 <= m <= k && history[k - 1][s].incarnation == #[trigger] counted_on(inc, m);
        assert(ledger_slot_step(history[k - 1], history[k], s));
        if history[k][s].incarnation != history[k - 1][s].incarnation {
            assert(history[k][s].incarnation == counted_on(inc, m + 1));
        } else {
            assert(history[k][s].incarnation == counted_on(inc, m));
        }
    }
}

/// Where a `u32` counter that stood at `start` stands after `m` wrapping
/// steps, for `m` below one full turn.
spec fn counted_on(start: int, m: int) -> int {
    if start + m <= u32::MAX {
        start + m
    } else {
        start + m - 0x1_0000_0000
    }
}


/// A frozen region stays read-only for as long as it lives: across any run
/// of calls, each keeping `frozen_kept` as every call on the tables does, it
/// is still immutable at the end, with no writable alias but the mappings it
/// had, and a writable mapping of it is refused with `WrongMode`.
pub proof fn lemma_frozen_stays_frozen(history: Seq<Seq<Region>>, id: RegionId)
    requires
        history.len() >= 1,
        forall|k: int| 0 <= k < history.len() - 1 ==> frozen_kept(#[trigger] history[k], history[k + 1]),
        forall|k: int| 0 <= k < history.len() ==> resolves_region(#[trigger] history[k], id),
        !history[0][id.index as int].mutable,
    ensures
        !history.last()[id.index as int].mutable,
        writable_aliases_spec(history.last()[id.index as int]) == history.last()[id.index as int].writable_mappings,
        forall|o: Seq<Region>, r: Result<(), Refusal>|
            #[trigger] mapped(history.last(), o, id, true, r) ==> r == Err::<(), Refusal>(Refusal::WrongMode) && o == history.last(),
{
    lemma_frozen_through(history, id, history.len() - 1);
}

proof fn lemma_frozen_through(history: Seq<Seq<Region>>, id: RegionId, k: int)
    requires
        0 <= k < history.len(),
        forall|j: int| 0 <= j < history.len() - 1 ==> frozen_kept(#[trigger] history[j], history[j + 1]),
        forall|j: int| 0 <= j < history.len() ==> resolves_region(#[trigger] history[j], id),
        !history[0][id.index as int].mutable,
    ensures
        !history[k][id.index as int].mutable,
    decreases k,
{
    if k > 0 {
        lemma_frozen_through(history, id, k - 1);
        assert(frozen_kept(history[k - 1], history[k]));
        assert(resolves_region(history[k - 1], id));
        assert(resolves_region(history[k], id));
    }
}

} // verus!
