//! The reference path, presented on the boot console.
//!
//! The second consumer of events the boot path already produces: the serial
//! log is normative, and this draws the same facts for a person watching the
//! screen. Nothing here re-derives what the pipeline did. Stage progress
//! arrives as "entering" before a stage runs, and the diagnosis is read from
//! the structured result of the run rather than parsed back out of text. And
//! nothing here can affect the run.
use vstd::prelude::*;
use crate::console::{decimal, truncated, BootConsole, ConsoleView, Status, Text};

verus! {

/// The stages of the reference path, in its order.
#[derive(Clone, Copy, Debug, PartialEq, Eq, Structural)]
pub enum PipelineStage {
    Read,
    Parse,
    Check,
    Resolve,
    Lower,
    Verify,
    Execute,
}

/// What a stage is called on a screen a person reads.
pub open spec fn stage_text(stage: PipelineStage) -> Seq<u8> {
    match stage {
        PipelineStage::Read => seq![82u8, 101u8, 97u8, 100u8, 105u8, 110u8, 103u8, 32u8, 99u8, 97u8, 110u8, 111u8, 110u8, 105u8, 99u8, 97u8, 108u8, 32u8, 115u8, 111u8, 117u8, 114u8, 99u8, 101u8], // Reading canonical source
        PipelineStage::Parse => seq![80u8, 97u8, 114u8, 115u8, 105u8, 110u8, 103u8, 32u8, 84u8, 79u8, 83u8, 32u8, 67u8, 111u8, 114u8, 101u8, 32u8, 86u8, 49u8], // Parsing TOS Core V1
        PipelineStage::Check => seq![67u8, 104u8, 101u8, 99u8, 107u8, 105u8, 110u8, 103u8, 32u8, 115u8, 111u8, 117u8, 114u8, 99u8, 101u8], // Checking source
        PipelineStage::Resolve => seq![82u8, 101u8, 115u8, 111u8, 108u8, 118u8, 105u8, 110u8, 103u8, 32u8, 109u8, 111u8, 100u8, 117u8, 108u8, 101u8, 115u8], // Resolving modules
        PipelineStage::Lower => seq![76u8, 111u8, 119u8, 101u8, 114u8, 105u8, 110u8, 103u8, 32u8, 116u8, 111u8, 32u8, 116u8, 111u8, 115u8, 45u8, 105u8, 114u8, 47u8, 118u8, 49u8], // Lowering to tos-ir/v1
        PipelineStage::Verify => seq![86u8, 101u8, 114u8, 105u8, 102u8, 121u8, 105u8, 110u8, 103u8, 32u8, 116u8, 111u8, 115u8, 45u8, 105u8, 114u8, 47u8, 118u8, 49u8], // Verifying tos-ir/v1
        PipelineStage::Execute => seq![69u8, 120u8, 101u8, 99u8, 117u8, 116u8, 105u8, 110u8, 103u8, 32u8, 98u8, 111u8, 111u8, 116u8, 32u8, 109u8, 111u8, 100u8, 117u8, 108u8, 101u8], // Executing boot module
    }
}

/// What a stage is called on a screen a person reads.
pub fn stage_label(stage: PipelineStage) -> (label: Vec<u8>)
    ensures
        label@ == stage_text(stage),
{
    let label = match stage {
        PipelineStage::Read => vec![82u8, 101u8, 97u8, 100u8, 105u8, 110u8, 103u8, 32u8, 99u8, 97u8, 110u8, 111u8, 110u8, 105u8, 99u8, 97u8, 108u8, 32u8, 115u8, 111u8, 117u8, 114u8, 99u8, 101u8],
        PipelineStage::Parse => vec![80u8, 97u8, 114u8, 115u8, 105u8, 110u8, 103u8, 32u8, 84u8, 79u8, 83u8, 32u8, 67u8, 111u8, 114u8, 101u8, 32u8, 86u8, 49u8],
        PipelineStage::Check => vec![67u8, 104u8, 101u8, 99u8, 107u8, 105u8, 110u8, 103u8, 32u8, 115u8, 111u8, 117u8, 114u8, 99u8, 101u8],
        PipelineStage::Resolve => vec![82u8, 101u8, 115u8, 111u8, 108u8, 118u8, 105u8, 110u8, 103u8, 32u8, 109u8, 111u8, 100u8, 117u8, 108u8, 101u8, 115u8],
        PipelineStage::Lower => vec![76u8, 111u8, 119u8, 101u8, 114u8, 105u8, 110u8, 103u8, 32u8, 116u8, 111u8, 32u8, 116u8, 111u8, 115u8, 45u8, 105u8, 114u8, 47u8, 118u8, 49u8],
        PipelineStage::Verify => vec![86u8, 101u8, 114u8, 105u8, 102u8, 121u8, 105u8, 110u8, 103u8, 32u8, 116u8, 111u8, 115u8, 45u8, 105u8, 114u8, 47u8, 118u8, 49u8],
        PipelineStage::Execute => vec![69u8, 120u8, 101u8, 99u8, 117u8, 116u8, 105u8, 110u8, 103u8, 32u8, 98u8, 111u8, 111u8, 116u8, 32u8, 109u8, 111u8, 100u8, 117u8, 108u8, 101u8],
    };
    proof {
        assert(label@ =~= stage_text(stage));
    }
    label
}

/// Every stage has a label of its own, and none is empty: a screen that
/// named two stages the same could not report which one stalled.
pub proof fn lemma_stage_labels_distinct(a: PipelineStage, b: PipelineStage)
    ensures
        stage_text(a).len() > 0,
        a != b ==> stage_text(a) != stage_text(b),
{
    if a != b && stage_text(a) =~= stage_text(b) {
        assert(stage_text(a)[0] == stage_text(b)[0]);
        assert(stage_text(a)[1] == stage_text(b)[1]);
        assert(stage_text(a)[2] == stage_text(b)[2]);
    }
}

/// ` byte `
pub open spec fn byte_word_text() -> Seq<u8> {
    seq![32u8, 98u8, 121u8, 116u8, 101u8, 32u8]
}

fn byte_word() -> (w: Vec<u8>)
    ensures
        w@ == byte_word_text(),
{
    let w = vec![32u8, 98u8, 121u8, 116u8, 101u8, 32u8];
    proof {
        assert(w@ =~= byte_word_text());
    }
    w
}

/// `:`
pub open spec fn colon_text() -> Seq<u8> {
    seq![58u8]
}

fn colon() -> (w: Vec<u8>)
    ensures
        w@ == colon_text(),
{
    let w = vec![58u8];
    proof {
        assert(w@ =~= colon_text());
    }
    w
}

/// ` stage `
pub open spec fn stage_word_text() -> Seq<u8> {
    seq![32u8, 115u8, 116u8, 97u8, 103u8, 101u8, 32u8]
}

fn stage_word() -> (w: Vec<u8>)
    ensures
        w@ == stage_word_text(),
{
    let w = vec![32u8, 115u8, 116u8, 97u8, 103u8, 101u8, 32u8];
    proof {
        assert(w@ =~= stage_word_text());
    }
    w
}

/// `REFUSED`
pub open spec fn refused_code_text() -> Seq<u8> {
    seq![82u8, 69u8, 70u8, 85u8, 83u8, 69u8, 68u8]
}

fn refused_code() -> (w: Vec<u8>)
    ensures
        w@ == refused_code_text(),
{
    let w = vec![82u8, 69u8, 70u8, 85u8, 83u8, 69u8, 68u8];
    proof {
        assert(w@ =~= refused_code_text());
    }
    w
}

/// ` bytes `
pub open spec fn bytes_word_text() -> Seq<u8> {
    seq![32u8, 98u8, 121u8, 116u8, 101u8, 115u8, 32u8]
}

fn bytes_word() -> (w: Vec<u8>)
    ensures
        w@ == bytes_word_text(),
{
    let w = vec![32u8, 98u8, 121u8, 116u8, 101u8, 115u8, 32u8];
    proof {
        assert(w@ =~= bytes_word_text());
    }
    w
}

/// `..`
pub open spec fn range_dots_text() -> Seq<u8> {
    seq![46u8, 46u8]
}

fn range_dots() -> (w: Vec<u8>)
    ensures
        w@ == range_dots_text(),
{
    let w = vec![46u8, 46u8];
    proof {
        assert(w@ =~= range_dots_text());
    }
    w
}

/// `NOT_LOWERED`
pub open spec fn not_lowered_code_text() -> Seq<u8> {
    seq![78u8, 79u8, 84u8, 95u8, 76u8, 79u8, 87u8, 69u8, 82u8, 69u8, 68u8]
}

fn not_lowered_code() -> (w: Vec<u8>)
    ensures
        w@ == not_lowered_code_text(),
{
    let w = vec![78u8, 79u8, 84u8, 95u8, 76u8, 79u8, 87u8, 69u8, 82u8, 69u8, 68u8];
    proof {
        assert(w@ =~= not_lowered_code_text());
    }
    w
}

/// `ENGINE_REFUSED`
pub open spec fn engine_refused_code_text() -> Seq<u8> {
    seq![69u8, 78u8, 71u8, 73u8, 78u8, 69u8, 95u8, 82u8, 69u8, 70u8, 85u8, 83u8, 69u8, 68u8]
}

fn engine_refused_code() -> (w: Vec<u8>)
    ensures
        w@ == engine_refused_code_text(),
{
    let w = vec![69u8, 78u8, 71u8, 73u8, 78u8, 69u8, 95u8, 82u8, 69u8, 70u8, 85u8, 83u8, 69u8, 68u8];
    proof {
        assert(w@ =~= engine_refused_code_text());
    }
    w
}

/// ` <unmapped>`
pub open spec fn unmapped_word_text() -> Seq<u8> {
    seq![32u8, 60u8, 117u8, 110u8, 109u8, 97u8, 112u8, 112u8, 101u8, 100u8, 62u8]
}

fn unmapped_word() -> (w: Vec<u8>)
    ensures
        w@ == unmapped_word_text(),
{
    let w = vec![32u8, 60u8, 117u8, 110u8, 109u8, 97u8, 112u8, 112u8, 101u8, 100u8, 62u8];
    proof {
        assert(w@ =~= unmapped_word_text());
    }
    w
}


/// One diagnostic of a run: its code, its severity, the module it is in if
/// it names one, and the position it starts at.
pub struct Diagnostic {
    pub code: Vec<u8>,
    pub is_error: bool,
    pub module: Option<Vec<u8>>,
    pub line: usize,
    pub column: usize,
}

/// A source position a trap was raised at.
pub struct Site {
    pub path: Vec<u8>,
    pub line: usize,
    pub column: usize,
}

/// How a run of the reference path ended, holding what the presentation
/// reads of it. Every variant is kept apart: they are refusals by different
/// components.
pub enum Run {
    /// The run completed.
    Completed,
    /// The reader refused the source, at a byte of the refused unit.
    SourceRejected { code: Vec<u8>, byte_offset: usize, path: Vec<u8> },
    /// A stage refused, with the diagnostics it produced.
    Diagnosed { stage_symbol: Vec<u8>, diagnostics: Vec<Diagnostic> },
    /// A construct the lowering does not cover, at a byte range.
    NotLowered { construct: Vec<u8>, byte_start: usize, byte_end: usize },
    /// The verifier's finding, with its location if it has one.
    Unverified { code: Vec<u8>, location: Vec<u8> },
    /// The engine refused the module.
    Refused,
    /// The program trapped, at a site when it could be mapped to one.
    Trapped { code: Vec<u8>, site: Option<Site> },
}

/// Room for a location line; anything longer is truncated.
pub const LOCATION_BYTES: usize = 72;

/// The first error among a run's diagnostics, if any.
pub open spec fn first_error(d: Seq<Diagnostic>, from: int) -> Option<int>
    decreases d.len() - from,
{
    if from < 0 || from >= d.len() {
        None
    } else if d[from].is_error {
        Some(from)
    } else {
        first_error(d, from + 1)
    }
}

/// The code and the full location text a failed run shows, before the
/// location is cut to the room it has; `None` when the run completed.
pub open spec fn failure_text(run: &Run, path: Seq<u8>) -> Option<(Seq<u8>, Seq<u8>)> {
    match run {
        Run::Completed => None,
        Run::SourceRejected { code, byte_offset, path: unit } => Some((code@, unit@ + byte_word_text() + decimal(*byte_offset as nat))),
        Run::Diagnosed { stage_symbol, diagnostics } => match first_error(diagnostics@, 0) {
            Some(i) => {
                let entry = &diagnostics@[i];
                let at = match &entry.module {
                    Some(m) => m@,
                    None => path,
                };
                Some((entry.code@, at + colon_text() + decimal(entry.line as nat) + colon_text() + decimal(entry.column as nat)))
            },
            None => Some((refused_code_text(), path + stage_word_text() + stage_symbol@)),
        },
        Run::NotLowered { construct, byte_start, byte_end } => Some((
            not_lowered_code_text(),
            construct@ + bytes_word_text() + decimal(*byte_start as nat) + range_dots_text() + decimal(*byte_end as nat),
        )),
        Run::Unverified { code, location } => Some((code@, if location@.len() == 0 { path } else { location@ })),
        Run::Refused => Some((engine_refused_code_text(), path)),
        Run::Trapped { code, site } => match site {
            Some(site) => Some((code@, site.path@ + colon_text() + decimal(site.line as nat) + colon_text() + decimal(site.column as nat))),
            None => Some((code@, path + unmapped_word_text())),
        },
    }
}

/// Cutting twice is cutting once.
proof fn lemma_truncated_append(s: Seq<u8>, t: Seq<u8>, n: int)
    requires
        n >= 0,
    ensures
        truncated(truncated(s, n) + t, n) == truncated(s + t, n),
{
    if s.len() > n {
        assert(truncated(s.take(n) + t, n) =~= (s + t).take(n));
    } else {
        assert(truncated(s, n) + t == s + t);
    }
}

fn find_error(d: &Vec<Diagnostic>) -> (r: Option<usize>)
    ensures
        match r {
            Some(i) => i < d.len() && first_error(d@, 0) == Some(i as int),
            None => first_error(d@, 0) is None,
        },
{
    let mut i: usize = 0;
    while i < d.len()
        invariant
            i <= d.len(),
            first_error(d@, 0) == first_error(d@, i as int),
        decreases d.len() - i,
    {
        if d[i].is_error {
            return Some(i);
        }
        i = i + 1;
    }
    None
}

/// The code and location a failed run should show, read from the structured
/// result; the location is truncated to the room it has. `None` when the run
/// completed.
pub fn failure(run: &Run, path: &[u8]) -> (r: Option<(Vec<u8>, Text<72>)>)
    ensures
        match failure_text(run, path@) {
            None => r is None,
            Some((code, location)) => r matches Some((c, l)) && c@ == code && l.wf() && l@ == truncated(location, 72),
        },
{
    let mut location: Text<72> = Text::new();
    proof {
        assert forall|a: Seq<u8>, b: Seq<u8>| truncated(truncated(a, 72) + b, 72) == truncated(a + b, 72) by {
            lemma_truncated_append(a, b, 72);
        }
        assert(Seq::<u8>::empty().len() <= 72);
    }
    let code = match run {
        Run::Completed => return None,
        Run::SourceRejected { code, byte_offset, path: unit } => {
            location.push(unit.as_slice()).push(byte_word().as_slice()).push_number(*byte_offset);
            proof {
                assert(Seq::<u8>::empty() + unit@ == unit@);
                assert(truncated(truncated(truncated(unit@, 72) + byte_word_text(), 72) + decimal(*byte_offset as nat), 72)
                    == truncated(unit@ + byte_word_text() + decimal(*byte_offset as nat), 72));
            }
            code.clone()
        },
        Run::Diagnosed { stage_symbol, diagnostics } => match find_error(diagnostics) {
            Some(i) => {
                let entry = &diagnostics[i];
                let at: &[u8] = match &entry.module {
                    Some(m) => m.as_slice(),
                    None => path,
                };
                location.push(at).push(colon().as_slice()).push_number(entry.line).push(colon().as_slice()).push_number(entry.column);
                proof {
                    assert(Seq::<u8>::empty() + at@ == at@);
                }
                entry.code.clone()
            },
            None => {
                location.push(path).push(stage_word().as_slice()).push(stage_symbol.as_slice());
                proof {
                    assert(Seq::<u8>::empty() + path@ == path@);
                }
                refused_code()
            },
        },
        Run::NotLowered { construct, byte_start, byte_end } => {
            location.push(construct.as_slice()).push(bytes_word().as_slice()).push_number(*byte_start).push(range_dots().as_slice()).push_number(*byte_end);
            proof {
                assert(Seq::<u8>::empty() + construct@ == construct@);
            }
            not_lowered_code()
        },
        Run::Unverified { code, location: at } => {
            if at.len() == 0 {
                location.push(path);
                proof {
                    assert(Seq::<u8>::empty() + path@ == path@);
                }
            } else {
                location.push(at.as_slice());
                proof {
                    assert(Seq::<u8>::empty() + at@ == at@);
                }
            }
            code.clone()
        },
        Run::Refused => {
            location.push(path);
            proof {
                assert(Seq::<u8>::empty() + path@ == path@);
            }
            engine_refused_code()
        },
        Run::Trapped { code, site } => {
            match site {
                Some(site) => {
                    location.push(site.path.as_slice()).push(colon().as_slice()).push_number(site.line).push(colon().as_slice()).push_number(site.column);
                    proof {
                        assert(Seq::<u8>::empty() + site.path@ == site.path@);
                    }
                },
                None => {
                    location.push(path).push(unmapped_word().as_slice());
                    proof {
                        assert(Seq::<u8>::empty() + path@ == path@);
                    }
                },
            }
            code.clone()
        },
    };
    Some((code, location))
}


/// What the console looks like once a stage is announced: the open row, if
/// any, resolved as done (reaching the next stage proves the previous one
/// returned), and a new row open for this stage.
pub open spec fn announced(c: ConsoleView, stage: PipelineStage, path: Seq<u8>) -> ConsoleView {
    let c1 = if c.open_row { c.resolved(Status::Done) } else { c };
    let detail = if stage == PipelineStage::Execute { Some(path) } else { None };
    let (c2, y) = c1.with_row(Status::Busy, stage_text(stage), detail);
    ConsoleView { open: y, open_row: true, ..c2 }
}

/// What the console looks like once the run is over: the open row becomes
/// the outcome it actually had.
pub open spec fn concluded(c: ConsoleView, run: &Run, path: Seq<u8>) -> ConsoleView {
    match failure_text(run, path) {
        None => c.resolved(Status::Done),
        Some((code, location)) => c.failed(code, truncated(location, 72)),
    }
}

/// Draws pipeline progress on the console, and nothing else.
pub struct ConsoleReporter {
    console: BootConsole,
    path: Vec<u8>,
}

impl ConsoleReporter {
    pub closed spec fn screen(&self) -> ConsoleView {
        self.console@
    }

    pub closed spec fn source_path(&self) -> Seq<u8> {
        self.path@
    }

    pub closed spec fn wf(&self) -> bool {
        self.console.wf()
    }

    pub fn new(console: BootConsole, path: Vec<u8>) -> (r: ConsoleReporter)
        requires
            console.wf(),
        ensures
            r.wf(),
            r.screen() == console@,
            r.source_path() == path@,
    {
        ConsoleReporter { console, path }
    }

    /// A stage has been entered and has not run yet.
    pub fn entering(&mut self, stage: PipelineStage)
        requires
            old(self).wf(),
        ensures
            final(self).wf(),
            final(self).source_path() == old(self).source_path(),
            final(self).screen() == announced(old(self).screen(), stage, old(self).source_path()),
    {
        if self.console.is_busy() {
            self.console.succeed();
        }
        let label = stage_label(stage);
        if stage == PipelineStage::Execute {
            self.console.begin(label.as_slice(), Some(self.path.as_slice()));
        } else {
            self.console.begin(label.as_slice(), None);
        }
    }

    /// The run is over; the open row becomes the outcome it actually had.
    pub fn finished(&mut self, run: &Run)
        requires
            old(self).wf(),
        ensures
            final(self).wf(),
            final(self).source_path() == old(self).source_path(),
            final(self).screen() == concluded(old(self).screen(), run, old(self).source_path()),
    {
        match failure(run, self.path.as_slice()) {
            None => self.console.succeed(),
            Some((code, location)) => self.console.fail(code.as_slice(), location.as_bytes()),
        }
    }

    /// The console, for whoever shows it.
    pub fn into_console(self) -> (c: BootConsole)
        requires
            self.wf(),
        ensures
            c.wf(),
            c@ == self.screen(),
    {
        self.console
    }
}

} // verus!
