//! Fault injection for the creation-rollback evidence: which refusal a test
//! boot arms, and whether the page tables should refuse now.
use vstd::prelude::*;

verus! {

/// Which refusal is armed.
#[derive(Clone, Copy, Debug, PartialEq, Eq, Structural)]
pub enum Case {
    /// The pool refuses part-way through the image's writable data.
    DataFrame,
    /// The pool refuses part-way through the arena.
    GrantFrame,
    /// The reserve refuses after a user frame has left the pool and before
    /// its leaf exists.
    GrantTable,
    /// The pool cannot carve the launch record.
    RecordCarve,
    /// The reserve refuses part-way through mapping the launch record.
    RecordMapping,
    /// A record larger than any record may be.
    RecordTooLarge,
    /// Bytes that are not a runtime image.
    BadHeader,
    /// A funding request larger than the root authority holds.
    OverBudget,
}

/// What is armed, and whether the table refusals are live yet.
pub struct Injection {
    pub armed: Option<Case>,
    pub live: bool,
}

impl Injection {
    /// Nothing armed.
    pub fn new() -> (i: Injection)
        ensures
            i.armed is None,
            !i.live,
    {
        Injection { armed: None, live: false }
    }

    /// Arms one case.
    pub fn arm(&mut self, case: Case)
        ensures
            final(self).armed == Some(case),
            final(self).live == old(self).live,
    {
        self.armed = Some(case);
    }

    /// Disarms everything, the table refusals included.
    pub fn disarm(&mut self)
        ensures
            final(self).armed is None,
            !final(self).live,
    {
        self.armed = None;
        self.live = false;
    }

    /// Makes the table refusals live: until now the boot's own tables were
    /// being built, and refusing them would test nothing.
    pub fn enable(&mut self)
        ensures
            final(self).live,
            final(self).armed == old(self).armed,
    {
        self.live = true;
    }

    /// Whether `case` is the armed one.
    pub fn armed(&self, case: Case) -> (b: bool)
        ensures
            b == (self.armed == Some(case)),
    {
        match self.armed {
            Some(c) => c == case,
            None => false,
        }
    }

    /// Whether page-table reserves should refuse now.
    pub fn tables_refuse(&self) -> (b: bool)
        ensures
            b == (self.live && (self.armed == Some(Case::GrantTable) || self.armed == Some(Case::RecordMapping))),
    {
        self.live && match self.armed {
            Some(Case::GrantTable) => true,
            Some(Case::RecordMapping) => true,
            _ => false,
        }
    }
}

} // verus!
