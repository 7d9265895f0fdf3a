//! What this boot is able to launch: the source set every process of the
//! boot is built from, and what the boot can say about where it came from.
//! A supervisor chooses which module a process runs; it does not restate the
//! set, which was validated once before anything ran.
use vstd::prelude::*;
use crate::process::{relative, relative_path};

verus! {

/// How many source units one boot may offer.
pub const MAX_BOOT_MODULES: usize = 1024;
/// How many bytes the declared identity of a source set may take.
pub const MAX_SOURCE_SET: usize = 96;

/// What this boot can say about the source it came from: the declared
/// identity of the set, and the digest of its one boot-canonical file.
pub struct SourceFacts {
    pub set: Vec<u8>,
    pub boot_content_digest: [u8; 32],
}

/// One source unit: its capsule path, and its bytes.
pub type Unit = (Vec<u8>, Vec<u8>);

/// A unit as the model holds it.
pub open spec fn unit_view(u: Unit) -> (Seq<u8>, Seq<u8>) {
    (u.0@, u.1@)
}

/// What every process of this boot is built from.
pub struct Template {
    units: Vec<Unit>,
    identity: u64,
    source_set: Vec<u8>,
    boot_content_digest: [u8; 32],
}

/// The lowest unit from `k` on whose module-root-relative path is `path`.
pub open spec fn index_from(units: Seq<(Seq<u8>, Seq<u8>)>, path: Seq<u8>, k: int) -> Option<int>
    decreases units.len() - k,
{
    if k < 0 || k >= units.len() {
        None
    } else if relative_path(units[k].0) == path {
        Some(k)
    } else {
        index_from(units, path, k + 1)
    }
}

/// Whether two byte strings are the same.
fn same_bytes(a: &[u8], b: &[u8]) -> (r: bool)
    ensures
        r == (a@ == b@),
{
    if a.len() != b.len() {
        return false;
    }
    let mut i: usize = 0;
    while i < a.len()
        invariant
            a.len() == b.len(),
            i <= a.len(),
            forall|j: int| 0 <= j < i ==> a@[j] == b@[j],
        decreases a.len() - i,
    {
        if a[i] != b[i] {
            return false;
        }
        i = i + 1;
    }
    proof {
        assert(a@ =~= b@);
    }
    true
}

/// The first `n` bytes of a slice, copied.
fn prefix(s: &[u8], n: usize) -> (v: Vec<u8>)
    requires
        n <= s@.len(),
    ensures
        v@ == s@.take(n as int),
{
    let mut v: Vec<u8> = Vec::new();
    let mut i: usize = 0;
    while i < n
        invariant
            n <= s@.len(),
            i <= n,
            v@ == s@.take(i as int),
        decreases n - i,
    {
        v.push(s[i]);
        i = i + 1;
        proof {
            assert(v@ =~= s@.take(i as int));
        }
    }
    v
}

/// How many bytes the module-root-relative paths of the first `n` units take,
/// laid end to end.
pub open spec fn paths_length(units: Seq<(Seq<u8>, Seq<u8>)>, n: int) -> int
    decreases n,
{
    if n <= 0 || n > units.len() {
        0
    } else {
        paths_length(units, n - 1) + relative_path(units[n - 1].0).len()
    }
}

/// Laying more paths end to end never takes fewer bytes.
pub proof fn lemma_paths_length_grows(units: Seq<(Seq<u8>, Seq<u8>)>, m: int, n: int)
    requires
        0 <= m <= n <= units.len(),
    ensures
        paths_length(units, m) <= paths_length(units, n),
    decreases n - m,
{
    if m < n {
        lemma_paths_length_grows(units, m, n - 1);
    }
}

impl Template {
    /// The source set, as the model holds it.
    pub closed spec fn units_view(&self) -> Seq<(Seq<u8>, Seq<u8>)> {
        self.units@.map_values(|u: Unit| unit_view(u))
    }

    /// Which nucleus build grants memory.
    pub closed spec fn identity_view(&self) -> u64 {
        self.identity
    }

    /// Which nucleus build grants memory.
    pub fn identity(&self) -> (i: u64)
        ensures
            i == self.identity_view(),
    {
        self.identity
    }

    /// The declared identity of the set.
    pub closed spec fn source_set_view(&self) -> Seq<u8> {
        self.source_set@
    }

    /// The boot-canonical file's digest.
    pub closed spec fn digest_view(&self) -> Seq<u8> {
        self.boot_content_digest@
    }

    /// Fixes what this boot can launch: at most `MAX_BOOT_MODULES` units and
    /// `MAX_SOURCE_SET` bytes of declared identity are kept.
    pub fn establish(units: Vec<Unit>, identity: u64, source: SourceFacts) -> (t: Template)
        ensures
            t.units_view() == units@.map_values(|u: Unit| unit_view(u)).take(
                if units@.len() < MAX_BOOT_MODULES { units@.len() as int } else { MAX_BOOT_MODULES as int },
            ),
            t.identity_view() == identity,
            t.source_set_view() == source.set@.take(
                if source.set@.len() < MAX_SOURCE_SET { source.set@.len() as int } else { MAX_SOURCE_SET as int },
            ),
            t.digest_view() == source.boot_content_digest@,
    {
        let mut units = units;
        let ghost all = units@.map_values(|u: Unit| unit_view(u));
        if units.len() > MAX_BOOT_MODULES {
            units.truncate(MAX_BOOT_MODULES);
        }
        let n = if source.set.len() < MAX_SOURCE_SET { source.set.len() } else { MAX_SOURCE_SET };
        let source_set = prefix(source.set.as_slice(), n);
        let t = Template { units, identity, source_set, boot_content_digest: source.boot_content_digest };
        proof {
            let k = if all.len() < MAX_BOOT_MODULES { all.len() as int } else { MAX_BOOT_MODULES as int };
            assert(t.units_view() =~= all.take(k));
        }
        t
    }

    /// The source set this boot offers.
    pub fn units(&self) -> (u: &[Unit])
        ensures
            u@.map_values(|x: Unit| unit_view(x)) == self.units_view(),
    {
        let u = self.units.as_slice();
        proof {
            assert(u@.map_values(|x: Unit| unit_view(x)) =~= self.units_view());
        }
        u
    }

    /// The declared identity of that set.
    pub fn source_set(&self) -> (s: &[u8])
        ensures
            s@ == self.source_set_view(),
    {
        self.source_set.as_slice()
    }

    /// The boot-canonical file's validated content digest.
    pub fn boot_content_digest(&self) -> (d: &[u8; 32])
        ensures
            d@ == self.digest_view(),
    {
        &self.boot_content_digest
    }

    /// Where unit `index`'s path goes in a record that lays the paths end to
    /// end: the sum of the module-root-relative path lengths before it, the
    /// same lengths that were reserved, so no path walks past the last.
    pub fn path_offset(&self, index: usize) -> (r: u64)
        requires
            index <= self.units_view().len(),
            paths_length(self.units_view(), index as int) <= u64::MAX,
        ensures
            r == paths_length(self.units_view(), index as int),
    {
        let mut total: u64 = 0;
        let mut k: usize = 0;
        while k < index
            invariant
                index <= self.units_view().len(),
                self.units_view().len() == self.units.len(),
                paths_length(self.units_view(), index as int) <= u64::MAX,
                k <= index,
                total == paths_length(self.units_view(), k as int),
            decreases index - k,
        {
            let name = self.units[k].0.as_slice();
            proof {
                assert(self.units_view()[k as int].0 == name@);
                lemma_paths_length_grows(self.units_view(), k as int + 1, index as int);
            }
            let length = relative(name).len() as u64;
            total = total + length;
            k = k + 1;
        }
        total
    }

    /// Whether `index` names a unit of this boot's set.
    pub fn holds(&self, index: usize) -> (b: bool)
        ensures
            b == (index < self.units_view().len()),
    {
        index < self.units.len()
    }

    /// Which unit a module-root-relative path names: the first whose
    /// capsule path, less a leading `/`, is exactly `path`.
    pub fn index_of(&self, path: &[u8]) -> (r: Option<usize>)
        ensures
            match index_from(self.units_view(), path@, 0) {
                Some(k) => r is Some && r.unwrap() as int == k,
                None => r is None,
            },
    {
        let mut k: usize = 0;
        while k < self.units.len()
            invariant
                k <= self.units.len(),
                index_from(self.units_view(), path@, 0) == index_from(self.units_view(), path@, k as int),
            decreases self.units.len() - k,
        {
            let name = self.units[k].0.as_slice();
            proof {
                assert(self.units_view()[k as int].0 == name@);
            }
            if same_bytes(relative(name), path) {
                return Some(k);
            }
            k = k + 1;
        }
        None
    }
}

} // verus!
