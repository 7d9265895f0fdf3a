//! The descriptors the nucleus installs for architected exceptions: one
//! interrupt gate per vector, and the task-state descriptor whose
//! interrupt stack the double fault runs on.
use vstd::prelude::*;

verus! {

/// How many architected exception vectors there are.
pub const EXCEPTION_VECTOR_COUNT: usize = 32;
/// The interrupt-stack slot the double fault uses.
pub const DF_IST_INDEX: u8 = 1;
/// The vector of the double fault.
pub const DOUBLE_FAULT: usize = 8;
pub const CODE_SELECTOR: u16 = 0x08;
pub const DATA_SELECTOR: u16 = 0x10;
pub const TSS_SELECTOR: u16 = 0x18;
pub const KERNEL_CODE_DESCRIPTOR: u64 = 0x00af_9a00_0000_ffff;
pub const KERNEL_DATA_DESCRIPTOR: u64 = 0x00cf_9200_0000_ffff;
/// Present, privilege level zero, 64-bit interrupt gate.
pub const INTERRUPT_GATE: u8 = 0x8e;

/// One interrupt-descriptor-table entry.
#[derive(Clone, Copy, Debug, PartialEq, Eq, Structural)]
pub struct IdtEntry {
    pub offset_low: u16,
    pub selector: u16,
    pub ist: u8,
    pub type_attributes: u8,
    pub offset_mid: u16,
    pub offset_high: u32,
    pub reserved: u32,
}

/// The descriptor that sends a vector to `handler`, on stack slot `ist`.
pub open spec fn gate(handler: u64, ist: u8) -> IdtEntry {
    IdtEntry {
        offset_low: (handler & 0xffff) as u16,
        selector: CODE_SELECTOR,
        ist,
        type_attributes: INTERRUPT_GATE,
        offset_mid: ((handler >> 16u64) & 0xffff) as u16,
        offset_high: (handler >> 32u64) as u32,
        reserved: 0,
    }
}

/// The handler address a gate jumps to.
pub open spec fn target(e: IdtEntry) -> u64 {
    (e.offset_low as u64) | ((e.offset_mid as u64) << 16u64) | ((e.offset_high as u64) << 32u64)
}

impl IdtEntry {
    /// An absent gate.
    pub fn empty() -> (e: IdtEntry)
        ensures
            e == (IdtEntry { offset_low: 0, selector: 0, ist: 0, type_attributes: 0, offset_mid: 0, offset_high: 0, reserved: 0 }),
    {
        IdtEntry { offset_low: 0, selector: 0, ist: 0, type_attributes: 0, offset_mid: 0, offset_high: 0, reserved: 0 }
    }

    /// Points this gate at `handler`, on interrupt stack `ist`.
    pub fn set(&mut self, handler: u64, ist: u8)
        ensures
            *final(self) == gate(handler, ist),
            target(*final(self)) == handler,
    {
        self.offset_low = (handler & 0xffff) as u16;
        self.selector = CODE_SELECTOR;
        self.ist = ist;
        self.type_attributes = INTERRUPT_GATE;
        self.offset_mid = ((handler >> 16u64) & 0xffff) as u16;
        self.offset_high = (handler >> 32u64) as u32;
        self.reserved = 0;
        proof {
            lemma_gate_targets(handler);
        }
    }
}

/// A gate jumps exactly where it was pointed: the three offset pieces put
/// back together are the handler.
pub proof fn lemma_gate_targets(handler: u64)
    ensures
        target(gate(handler, 0)) == handler,
        forall|ist: u8| #[trigger] target(gate(handler, ist)) == handler,
{
    assert((((handler & 0xffff) as u16) as u64) | (((((handler >> 16u64) & 0xffff) as u16) as u64) << 16u64) | ((((handler
        >> 32u64) as u32) as u64) << 32u64) == handler) by (bit_vector);
}

/// The table of gates: every vector to its stub, the double fault on its
/// own interrupt stack.
pub fn gates(handlers: &[u64]) -> (t: Vec<IdtEntry>)
    requires
        handlers@.len() == EXCEPTION_VECTOR_COUNT,
    ensures
        t@.len() == EXCEPTION_VECTOR_COUNT,
        forall|v: int| 0 <= v < EXCEPTION_VECTOR_COUNT ==> #[trigger] t@[v] == gate(
            handlers@[v],
            if v == DOUBLE_FAULT { DF_IST_INDEX } else { 0u8 },
        ),
{
    let mut t: Vec<IdtEntry> = Vec::new();
    let mut v: usize = 0;
    while v < EXCEPTION_VECTOR_COUNT
        invariant
            v <= EXCEPTION_VECTOR_COUNT,
            handlers@.len() == EXCEPTION_VECTOR_COUNT,
            t@.len() == v,
            forall|j: int| 0 <= j < v ==> #[trigger] t@[j] == gate(handlers@[j], if j == DOUBLE_FAULT { DF_IST_INDEX } else { 0u8 }),
        decreases EXCEPTION_VECTOR_COUNT - v,
    {
        let mut e = IdtEntry::empty();
        e.set(handlers[v], if v == DOUBLE_FAULT { DF_IST_INDEX } else { 0 });
        t.push(e);
        v = v + 1;
    }
    t
}

/// The two words of an available 64-bit task-state descriptor for a
/// segment at `base` with limit `limit`.
pub open spec fn tss_words(base: u64, limit: u64) -> (u64, u64) {
    (
        (limit & 0xffff) | ((base & 0x00ff_ffff) << 16u64) | (0x89u64 << 40u64) | (((limit >> 16u64) & 0x0f) << 48u64)
            | (((base >> 24u64) & 0xff) << 56u64),
        base >> 32u64,
    )
}

/// The global descriptor table: null, kernel code, kernel data, and the
/// task-state descriptor's two words.
pub fn global_descriptors(tss_base: u64, tss_limit: u64) -> (g: [u64; 5])
    ensures
        g@ == seq![0u64, KERNEL_CODE_DESCRIPTOR, KERNEL_DATA_DESCRIPTOR, tss_words(tss_base, tss_limit).0, tss_words(tss_base, tss_limit).1],
{
    let low = (tss_limit & 0xffff) | ((tss_base & 0x00ff_ffff) << 16u64) | (0x89u64 << 40u64) | (((tss_limit >> 16u64)
        & 0x0f) << 48u64) | (((tss_base >> 24u64) & 0xff) << 56u64);
    let high = tss_base >> 32u64;
    let g = [0u64, KERNEL_CODE_DESCRIPTOR, KERNEL_DATA_DESCRIPTOR, low, high];
    proof {
        assert(g@ =~= seq![0u64, KERNEL_CODE_DESCRIPTOR, KERNEL_DATA_DESCRIPTOR, tss_words(tss_base, tss_limit).0, tss_words(tss_base, tss_limit).1]);
    }
    g
}

/// A task-state descriptor names the base it was made from, and the low
/// twenty bits of its limit.
pub proof fn lemma_tss_descriptor_names_its_segment(base: u64, limit: u64)
    ensures
        ({
            let (low, high) = tss_words(base, limit);
            &&& ((low >> 16u64) & 0x00ff_ffff) | (((low >> 56u64) & 0xff) << 24u64) | (high << 32u64) == base
            &&& (low & 0xffff) | (((low >> 48u64) & 0x0f) << 16u64) == limit & 0xf_ffff
            &&& (low >> 40u64) & 0xff == 0x89
        }),
{
    let low = (limit & 0xffff) | ((base & 0x00ff_ffff) << 16u64) | (0x89u64 << 40u64) | (((limit >> 16u64) & 0x0f) << 48u64)
        | (((base >> 24u64) & 0xff) << 56u64);
    let high = base >> 32u64;
    assert(((low >> 16u64) & 0x00ff_ffff) | (((low >> 56u64) & 0xff) << 24u64) | (high << 32u64) == base) by (bit_vector)
        requires
            low == (limit & 0xffff) | ((base & 0x00ff_ffff) << 16u64) | (0x89u64 << 40u64) | (((limit >> 16u64) & 0x0f) << 48u64)
                | (((base >> 24u64) & 0xff) << 56u64),
            high == base >> 32u64,
    ;
    assert((low & 0xffff) | (((low >> 48u64) & 0x0f) << 16u64) == limit & 0xf_ffff) by (bit_vector)
        requires
            low == (limit & 0xffff) | ((base & 0x00ff_ffff) << 16u64) | (0x89u64 << 40u64) | (((limit >> 16u64) & 0x0f) << 48u64)
                | (((base >> 24u64) & 0xff) << 56u64),
    ;
    assert((low >> 40u64) & 0xff == 0x89) by (bit_vector)
        requires
            low == (limit & 0xffff) | ((base & 0x00ff_ffff) << 16u64) | (0x89u64 << 40u64) | (((limit >> 16u64) & 0x0f) << 48u64)
                | (((base >> 24u64) & 0xff) << 56u64),
    ;
}

} // verus!
