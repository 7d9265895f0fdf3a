//! Which of two measured series a boot is: one artifact, two modes chosen
//! at run time, so everything but the work being measured is shared.
//!
//! The mode is published by the emulator's firmware-configuration interface
//! as a named file. Reading its ports is the caller's; what is decided from
//! what they answer is here: whether the interface is there at all, how much
//! of its directory is walked, which entry is the mode's, and what its value
//! selects. Absence of any of it means the production series.
use vstd::prelude::*;

verus! {

/// Which of the two measured series this boot is.
#[derive(Clone, Copy, Debug, PartialEq, Eq, Structural)]
pub enum Mode {
    /// Everything a production boot validates, up to the canonical boot-text
    /// digest.
    FullExact,
    /// Exactly the unavoidable cryptographic work of that same boot.
    UnavoidableCrypto,
}

/// The word a mode is recorded under.
pub open spec fn mode_name(m: Mode) -> Seq<u8> {
    match m {
        Mode::FullExact => seq![102, 117, 108, 108, 45, 101, 120, 97, 99, 116],
        Mode::UnavoidableCrypto => seq![117, 110, 97, 118, 111, 105, 100, 97, 98, 108, 101, 45, 99, 114, 121, 112, 116, 111],
    }
}

impl Mode {
    /// The word this mode is recorded under, so a reader of the log can tell
    /// which series a sample belongs to.
    pub fn name(self) -> (n: Vec<u8>)
        ensures
            n@ == mode_name(self),
    {
        let n = match self {
            Mode::FullExact => vec![102u8, 117u8, 108u8, 108u8, 45u8, 101u8, 120u8, 97u8, 99u8, 116u8],
            Mode::UnavoidableCrypto => vec![117u8, 110u8, 97u8, 118u8, 111u8, 105u8, 100u8, 97u8, 98u8, 108u8, 101u8, 45u8, 99u8, 114u8, 121u8, 112u8, 116u8, 111u8],
        };
        proof {
            assert(n@ =~= mode_name(self));
        }
        n
    }
}

/// The name the harness publishes the mode under.
pub open spec fn mode_file() -> Seq<u8> {
    seq![111, 112, 116, 47, 116, 111, 115, 47, 109, 101, 97, 115, 117, 114, 101, 109, 101, 110, 116, 45, 109, 111, 100, 101]
}

/// How many directory entries are walked at most: the directory is data the
/// emulator supplies, and walking it without a bound is how a boot hangs.
pub const MAX_DIRECTORY_ENTRIES: u32 = 256;
/// One directory entry: size, select key, reserved, then the name.
pub const ENTRY_BYTES: usize = 64;
/// Where an entry's name starts, and how long it may be.
pub const NAME_AT: usize = 8;
pub const NAME_BYTES: usize = 56;

/// Whether the signature key answered that the interface is present.
pub fn interface_present(signature: [u8; 4]) -> (b: bool)
    ensures
        b == (signature@ == seq![81u8, 69u8, 77u8, 85u8]),
{
    let b = signature[0] == 81 && signature[1] == 69 && signature[2] == 77 && signature[3] == 85;
    proof {
        if b {
            assert(signature@ =~= seq![81u8, 69u8, 77u8, 85u8]);
        } else if signature@ == seq![81u8, 69u8, 77u8, 85u8] {
            assert(signature@[0] == 81u8);
        }
    }
    b
}

/// How many directory entries to walk: the count the directory states,
/// big-endian, and never more than the bound.
pub fn entries_to_walk(count: [u8; 4]) -> (n: u32)
    ensures
        ({
            let stated = count[0] as int * 0x100_0000 + count[1] as int * 0x1_0000 + count[2] as int * 0x100 + count[3] as int;
            n == (if stated < MAX_DIRECTORY_ENTRIES { stated } else { MAX_DIRECTORY_ENTRIES as int })
        }),
{
    let stated: u64 = (count[0] as u64) * 0x100_0000 + (count[1] as u64) * 0x1_0000 + (count[2] as u64) * 0x100 + (count[3] as u64);
    if stated < MAX_DIRECTORY_ENTRIES as u64 {
        stated as u32
    } else {
        MAX_DIRECTORY_ENTRIES
    }
}

/// Whether a directory entry's name is the mode file's: it begins with that
/// name and ends there, so a longer name sharing the prefix does not answer
/// for it.
pub open spec fn names_mode_file(entry: Seq<u8>) -> bool {
    &&& entry.subrange(NAME_AT as int, NAME_AT + 24) == mode_file()
    &&& entry[NAME_AT + 24] == 0
}

/// The key the mode's value is read from, when this directory entry is the
/// mode file's; its select key is big-endian.
pub fn mode_key(entry: &[u8]) -> (r: Option<u16>)
    requires
        entry@.len() == ENTRY_BYTES,
    ensures
        r == (if names_mode_file(entry@) {
            Some((entry@[4] as int * 0x100 + entry@[5] as int) as u16)
        } else {
            None
        }),
{
    let name: [u8; 24] = [111, 112, 116, 47, 116, 111, 115, 47, 109, 101, 97, 115, 117, 114, 101, 109, 101, 110, 116, 45, 109, 111, 100, 101];
    let mut i: usize = 0;
    while i < 24
        invariant
            entry@.len() == ENTRY_BYTES,
            i <= 24,
            name@ == mode_file(),
            forall|j: int| 0 <= j < i ==> entry@[NAME_AT + j] == mode_file()[j],
        decreases 24 - i,
    {
        if entry[NAME_AT + i] != name[i] {
            proof {
                assert(entry@.subrange(NAME_AT as int, NAME_AT + 24)[i as int] != mode_file()[i as int]);
            }
            return None;
        }
        i = i + 1;
    }
    proof {
        assert(entry@.subrange(NAME_AT as int, NAME_AT + 24) =~= mode_file());
    }
    if entry[NAME_AT + 24] != 0 {
        return None;
    }
    Some((entry[4] as u16) * 0x100 + (entry[5] as u16))
}

/// What the mode file's value selects: `c` is the cryptographic baseline,
/// anything else the production series.
pub fn mode_of(value: u8) -> (m: Mode)
    ensures
        m == (if value == 99 {
            Mode::UnavoidableCrypto
        } else {
            Mode::FullExact
        }),
{
    if value == 99 {
        Mode::UnavoidableCrypto
    } else {
        Mode::FullExact
    }
}

} // verus!
