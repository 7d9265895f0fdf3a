//! What the boot reads and says about its own text: the first logical line
//! of the boot-canonical file, and the declared identity of the source set.
use vstd::prelude::*;

verus! {

/// Whether a byte is leading white space on a line.
pub open spec fn blank(b: u8) -> bool {
    b == 32 || b == 9 || b == 13
}

/// Where the line starting at `i` ends: the next newline, or the end.
pub open spec fn line_end(c: Seq<u8>, i: int) -> int
    decreases c.len() - i,
{
    if i >= c.len() {
        c.len() as int
    } else if c[i] == 10 {
        i
    } else {
        line_end(c, i + 1)
    }
}

/// The first byte of `[i, e)` that is not leading white space, or `e`.
pub open spec fn trimmed(c: Seq<u8>, i: int, e: int) -> int
    decreases e - i,
{
    if i >= e {
        e
    } else if blank(c[i]) {
        trimmed(c, i + 1, e)
    } else {
        i
    }
}

/// Whether the trimmed line `[j, e)` says nothing: empty, or a comment.
pub open spec fn skipped(c: Seq<u8>, j: int, e: int) -> bool {
    j >= e || c[j] == 35 || (j + 1 < e && c[j] == 47 && c[j + 1] == 47)
}

/// The first logical line from the line starting at `i`, as the bounds of
/// its trimmed text.
pub open spec fn logical_from(c: Seq<u8>, i: int) -> Option<(int, int)>
    decreases c.len() - i + 1,
{
    if i < 0 || i > c.len() {
        None
    } else {
        let e = line_end(c, i);
        let j = trimmed(c, i, e);
        if !skipped(c, j, e) {
            Some((j, e))
        } else if e >= c.len() {
            None
        } else {
            proof {
                lemma_line_end(c, i);
            }
            logical_from(c, e + 1)
        }
    }
}

pub proof fn lemma_line_end(c: Seq<u8>, i: int)
    requires
        0 <= i <= c.len(),
    ensures
        i <= line_end(c, i) <= c.len(),
        line_end(c, i) < c.len() ==> c[line_end(c, i)] == 10,
    decreases c.len() - i,
{
    if i < c.len() && c[i] != 10 {
        lemma_line_end(c, i + 1);
    }
}

/// The first line of boot text that is non-empty and not a comment, with
/// its leading white space trimmed.
pub fn first_logical_line(content: &[u8]) -> (r: Option<&[u8]>)
    ensures
        match logical_from(content@, 0) {
            Some((j, e)) => r is Some && r.unwrap()@ == content@.subrange(j, e),
            None => r is None,
        },
{
    let mut i: usize = 0;
    while i <= content.len()
        invariant
            i <= content.len() + 1,
            logical_from(content@, 0) == logical_from(content@, i as int),
        decreases content.len() + 1 - i,
    {
        let mut e = i;
        while e < content.len() && content[e] != 10
            invariant
                i <= e <= content.len(),
                line_end(content@, i as int) == line_end(content@, e as int),
            decreases content.len() - e,
        {
            e = e + 1;
        }
        let mut j = i;
        while j < e && (content[j] == 32 || content[j] == 9 || content[j] == 13)
            invariant
                i <= j <= e,
                e <= content.len(),
                trimmed(content@, i as int, e as int) == trimmed(content@, j as int, e as int),
            decreases e - j,
        {
            j = j + 1;
        }
        let skip = j >= e || content[j] == 35 || (j + 1 < e && content[j] == 47 && content[j + 1] == 47);
        if !skip {
            return Some(vstd::slice::slice_subrange(content, j, e));
        }
        if e >= content.len() {
            return None;
        }
        i = e + 1;
    }
    None
}

/// The lowercase hexadecimal digit for a nibble.
pub open spec fn hex_digit(n: int) -> u8 {
    if n < 10 {
        (48 + n) as u8
    } else {
        (87 + n) as u8
    }
}

/// Lowercase hexadecimal of a byte string, two digits per byte, high
/// nibble first.
pub open spec fn hex_of(v: Seq<u8>) -> Seq<u8> {
    Seq::new(2 * v.len(), |k: int| if k % 2 == 0 { hex_digit((v[k / 2] / 16) as int) } else { hex_digit((v[k / 2] % 16) as int) })
}

/// The declared identity of a source tree: its kind, a colon, and the
/// digest in hexadecimal, cut at the ninety-six bytes the record holds.
pub open spec fn identity_text(kind: Seq<u8>, value: Seq<u8>) -> Seq<u8> {
    let all = kind + seq![58u8] + hex_of(value);
    if all.len() <= 96 {
        all
    } else {
        all.take(96)
    }
}

/// The declared identity of the capsule's source tree: a detached tree's
/// whole-tree digest or a git object id, each named by its kind.
pub fn source_set_identity(kind: &[u8], value: &[u8; 32], out: &mut [u8; 96]) -> (n: usize)
    ensures
        n == identity_text(kind@, value@).len(),
        final(out)@.take(n as int) == identity_text(kind@, value@),
        final(out)@.skip(n as int) == old(out)@.skip(n as int),
{
    let ghost all = kind@ + seq![58u8] + hex_of(value@);
    let mut at: usize = 0;
    let mut k: usize = 0;
    while at < 96 && (k < kind.len() || k - kind.len() < 65)
        invariant
            all == kind@ + seq![58u8] + hex_of(value@),
            all.len() == kind@.len() + 65,
            at == k,
            at <= 96,
            k <= kind@.len() + 65,
            out@.len() == 96,
            forall|j: int| 0 <= j < at ==> out@[j] == all[j],
            forall|j: int| at <= j < 96 ==> out@[j] == old(out)@[j],
        decreases 96 - k,
    {
        let b: u8 = if k < kind.len() {
            kind[k]
        } else if k == kind.len() {
            58
        } else {
            let h = k - kind.len() - 1;
            let byte = value[h / 2];
            let nibble = if h % 2 == 0 { byte / 16 } else { byte % 16 };
            if nibble < 10 {
                48 + nibble
            } else {
                87 + nibble
            }
        };
        proof {
            if k > kind.len() {
                let h = k - kind.len() - 1;
                assert(all[k as int] == hex_of(value@)[h as int]);
            }
        }
        out[at] = b;
        at = at + 1;
        k = k + 1;
    }
    proof {
        assert(out@.take(at as int) =~= identity_text(kind@, value@));
        assert(out@.skip(at as int) =~= old(out)@.skip(at as int));
    }
    at
}


/// Bytes one memory-map descriptor occupies.
pub const MEMORY_RANGE_BYTES: u64 = 24;

/// How many descriptors a memory map of `length` bytes holds: `None` when it
/// is empty or does not end on a descriptor boundary.
pub fn memory_map_count(length: u64) -> (r: Option<u64>)
    ensures
        r == if length == 0 || length % MEMORY_RANGE_BYTES != 0 {
            None::<u64>
        } else {
            Some((length / MEMORY_RANGE_BYTES) as u64)
        },
{
    if length == 0 || length % MEMORY_RANGE_BYTES != 0 {
        None
    } else {
        Some(length / MEMORY_RANGE_BYTES)
    }
}

/// Whether the loader's capsule is there at all and can be borrowed whole:
/// a non-null address and a length that is neither zero nor beyond `usize`.
pub fn capsule_present(phys: u64, length: u64) -> (b: bool)
    ensures
        b == (phys != 0 && length != 0 && length <= usize::MAX),
{
    phys != 0 && length != 0 && (length as u128) <= (usize::MAX as u128)
}

/// The file-name suffix of a source module: `.tos`.
pub open spec fn module_suffix() -> Seq<u8> {
    seq![46u8, 116u8, 111u8, 115u8]
}

/// Whether `name` names a source module: it ends in `.tos`.
pub open spec fn is_module_name(name: Seq<u8>) -> bool {
    name.len() >= 4 && name.subrange(name.len() - 4, name.len() as int) == module_suffix()
}

/// Whether a capsule file is a module of the source set.
pub fn names_module(name: &[u8]) -> (b: bool)
    ensures
        b == is_module_name(name@),
{
    let n = name.len();
    if n < 4 {
        return false;
    }
    let b = name[n - 4] == 46u8 && name[n - 3] == 116u8 && name[n - 2] == 111u8 && name[n - 1] == 115u8;
    proof {
        let tail = name@.subrange(n - 4, n as int);
        if b {
            assert(tail =~= module_suffix());
        } else {
            assert(tail[0] != module_suffix()[0] || tail[1] != module_suffix()[1] || tail[2] != module_suffix()[2]
                || tail[3] != module_suffix()[3]);
        }
    }
    b
}

/// The positions, in order, of the names among `names` that are modules.
pub open spec fn module_positions(names: Seq<Seq<u8>>) -> Seq<usize>
    decreases names.len(),
{
    if names.len() == 0 {
        Seq::empty()
    } else {
        let rest = module_positions(names.drop_last());
        if is_module_name(names.last()) {
            rest.push((names.len() - 1) as usize)
        } else {
            rest
        }
    }
}

/// The capsule's file names, each by its bytes.
pub open spec fn name_bytes(names: Seq<&[u8]>) -> Seq<Seq<u8>> {
    names.map_values(|n: &[u8]| n@)
}

/// Which of the capsule's files make up the source set: every `.tos` file, in
/// capsule order, and nothing else. A capsule with more modules than a boot
/// holds is refused.
pub fn module_files(names: &[&[u8]]) -> (r: Option<Vec<usize>>)
    ensures
        match r {
            Some(v) => v@ == module_positions(name_bytes(names@)) && v@.len() <= crate::launch::MAX_BOOT_MODULES,
            None => module_positions(name_bytes(names@)).len() > crate::launch::MAX_BOOT_MODULES,
        },
{
    let mut found: Vec<usize> = Vec::new();
    let mut i: usize = 0;
    while i < names.len()
        invariant
            i <= names.len(),
            found@ == module_positions(name_bytes(names@).take(i as int)),
            found@.len() <= crate::launch::MAX_BOOT_MODULES,
        decreases names.len() - i,
    {
        proof {
            assert(name_bytes(names@).take(i + 1).drop_last() =~= name_bytes(names@).take(i as int));
        }
        if names_module(names[i]) {
            if found.len() == crate::launch::MAX_BOOT_MODULES {
                proof {
                    lemma_positions_grow(name_bytes(names@), i as int + 1);
                }
                return None;
            }
            found.push(i);
        }
        i = i + 1;
    }
    proof {
        assert(name_bytes(names@).take(names.len() as int) =~= name_bytes(names@));
    }
    Some(found)
}

/// More names never mean fewer modules.
proof fn lemma_positions_grow(names: Seq<Seq<u8>>, k: int)
    requires
        0 <= k <= names.len(),
    ensures
        module_positions(names.take(k)).len() <= module_positions(names).len(),
    decreases names.len() - k,
{
    if k < names.len() {
        lemma_positions_grow(names, k + 1);
        assert(names.take(k + 1).drop_last() =~= names.take(k));
    } else {
        assert(names.take(k) =~= names);
    }
}

/// The first position in `modules` whose name is `boot`, or `0` when none is.
pub open spec fn entry_position(modules: Seq<Seq<u8>>, boot: Seq<u8>) -> usize {
    if exists|i: int| 0 <= i < modules.len() && modules[i] == boot {
        let i = choose|i: int| 0 <= i < modules.len() && modules[i] == boot && forall|j: int| 0 <= j < i ==> modules[j] != boot;
        i as usize
    } else {
        0
    }
}

/// Which module the boot enters: the one named by the capsule's boot file,
/// or the first when none carries that name.
pub fn entry_module(modules: &[&[u8]], boot: &[u8]) -> (r: usize)
    ensures
        r == entry_position(name_bytes(modules@), boot@),
        modules@.len() > 0 ==> r < modules@.len(),
{
    let mut i: usize = 0;
    while i < modules.len()
        invariant
            i <= modules.len(),
            forall|j: int| 0 <= j < i ==> name_bytes(modules@)[j] != boot@,
        decreases modules.len() - i,
    {
        if same_bytes(modules[i], boot) {
            proof {
                let m = name_bytes(modules@);
                assert(m[i as int] == boot@);
                let k = choose|k: int| 0 <= k < m.len() && m[k] == boot@ && forall|j: int| 0 <= j < k ==> m[j] != boot@;
                assert(k == i as int) by {
                    if k < i as int {
                        assert(m[k] != boot@);
                    } else if k > i as int {
                        assert(m[i as int] != boot@);
                    }
                }
            }
            return i;
        }
        i = i + 1;
    }
    0
}

/// Whether two names are the same bytes.
fn same_bytes(a: &[u8], b: &[u8]) -> (r: bool)
    ensures
        r == (a@ == b@),
{
    if a.len() != b.len() {
        return false;
    }
    let mut i: usize = 0;
    while i < a.len()
        invariant
            a.len() == b.len(),
            i <= a.len(),
            forall|j: int| 0 <= j < i ==> a@[j] == b@[j],
        decreases a.len() - i,
    {
        if a[i] != b[i] {
            return false;
        }
        i = i + 1;
    }
    proof {
        assert(a@ =~= b@);
    }
    true
}

} // verus!
