//! The human-facing boot console.
//!
//! A bounded boot renderer and nothing more: it can clear a screen, draw a
//! header, put down one boot-status row, resolve that row as finished or
//! failed, show a diagnosis, and draw the final screen. It reports; it does
//! not decide. A row is put down as `[ .. ]` before the work starts and
//! becomes `[ OK ]` only once that step has returned. Rows stop at the bottom
//! of the surface rather than wrapping or scrolling, and text is truncated to
//! the width it has.
use vstd::prelude::*;
use crate::framebuffer::{
    ascii_dimensions, glyph_cell, grid_region, painted, rect, text_region, text_width, Color,
    Framebuffer, Surface, ACCENT, ADVANCE, BACKGROUND, DONE, FAILED, GLYPH_HEIGHT, MUTED, TEXT,
};

verus! {

/// What a boot row is reporting.
#[derive(Clone, Copy, Debug, PartialEq, Eq, Structural)]
pub enum Status {
    /// The step has been entered and has not returned.
    Busy,
    /// The step returned successfully.
    Done,
    /// The step ended the boot.
    Failed,
}

/// The marker text of a status, as bytes.
pub open spec fn marker_text(status: Status) -> Seq<u8> {
    match status {
        Status::Busy => seq![91u8, 32u8, 46u8, 46u8, 32u8, 93u8],
        Status::Done => seq![91u8, 32u8, 79u8, 75u8, 32u8, 93u8],
        Status::Failed => seq![91u8, 70u8, 65u8, 73u8, 76u8, 93u8],
    }
}

/// The colour a status is drawn in.
pub open spec fn status_color(status: Status) -> Color {
    match status {
        Status::Busy => ACCENT,
        Status::Done => DONE,
        Status::Failed => FAILED,
    }
}

impl Status {
    /// The marker text: `[ .. ]`, `[ OK ]` or `[FAIL]`. All three are the same
    /// width, so a row changing state does not move the text beside it.
    pub fn marker(self) -> (m: [u8; 6])
        ensures
            m@ == marker_text(self),
    {
        let m: [u8; 6] = match self {
            Status::Busy => [91, 32, 46, 46, 32, 93],
            Status::Done => [91, 32, 79, 75, 32, 93],
            Status::Failed => [91, 70, 65, 73, 76, 93],
        };
        proof {
            assert(m@ =~= marker_text(self));
        }
        m
    }

    fn color(self) -> (c: Color)
        ensures
            c == status_color(self),
    {
        match self {
            Status::Busy => ACCENT,
            Status::Done => DONE,
            Status::Failed => FAILED,
        }
    }
}

/// `s`, cut to at most `n` bytes.
pub open spec fn truncated(s: Seq<u8>, n: int) -> Seq<u8> {
    if s.len() <= n {
        s
    } else {
        s.take(n)
    }
}

/// The decimal digits of `n`, most significant first, in ASCII.
pub open spec fn decimal(n: nat) -> Seq<u8>
    decreases n,
{
    if n < 10 {
        seq![(48 + n) as u8]
    } else {
        decimal(n / 10).push((48 + n % 10) as u8)
    }
}

/// A short piece of text of at most `N` bytes. Writing past the capacity
/// truncates rather than panicking or wrapping.
pub struct Text<const N: usize> {
    bytes: Vec<u8>,
}

impl<const N: usize> View for Text<N> {
    type V = Seq<u8>;

    closed spec fn view(&self) -> Seq<u8> {
        self.bytes@
    }
}

impl<const N: usize> Default for Text<N> {
    /// An empty text.
    fn default() -> (t: Self)
        ensures
            t.wf(),
            t@ == Seq::<u8>::empty(),
    {
        Self::new()
    }
}

impl<const N: usize> Text<N> {
    /// Never more than the capacity.
    pub open spec fn wf(&self) -> bool {
        self@.len() <= N
    }

    pub fn new() -> (t: Self)
        ensures
            t.wf(),
            t@ == Seq::<u8>::empty(),
    {
        Text { bytes: Vec::new() }
    }

    fn push_byte(&mut self, byte: u8)
        requires
            old(self).wf(),
        ensures
            final(self).wf(),
            final(self)@ == truncated(old(self)@.push(byte), N as int),
    {
        if self.bytes.len() < N {
            self.bytes.push(byte);
        } else {
            proof {
                assert(old(self)@.push(byte).take(N as int) =~= old(self)@);
            }
        }
    }

    /// Appends `text`, up to the capacity.
    pub fn push(&mut self, text: &[u8]) -> (r: &mut Self)
        requires
            old(self).wf(),
        ensures
            r.wf(),
            r@ == truncated(old(self)@ + text@, N as int),
            *final(self) == *final(r),
    {
        let mut i: usize = 0;
        while i < text.len()
            invariant
                self.wf(),
                i <= text.len(),
                self@ == truncated(old(self)@ + text@.take(i as int), N as int),
            decreases text.len() - i,
        {
            self.push_byte(text[i]);
            proof {
                let a = old(self)@ + text@.take(i as int);
                let b = old(self)@ + text@.take(i + 1);
                assert(b =~= a.push(text@[i as int]));
                if a.len() > N {
                    assert(truncated(a, N as int).push(text@[i as int]).take(N as int) =~= truncated(b, N as int));
                } else if a.len() == N {
                    assert(a.push(text@[i as int]).take(N as int) =~= truncated(b, N as int));
                }
            }
            i = i + 1;
        }
        proof {
            assert(text@.take(text@.len() as int) =~= text@);
        }
        self
    }

    /// Appends `value` in decimal, up to the capacity.
    pub fn push_number(&mut self, value: usize) -> (r: &mut Self)
        requires
            old(self).wf(),
        ensures
            r.wf(),
            r@ == truncated(old(self)@ + decimal(value as nat), N as int),
            *final(self) == *final(r),
    {
        let mut digits: Vec<u8> = Vec::new();
        let mut rest = value;
        loop
            invariant_except_break
                rest > 0 || digits@.len() == 0,
                decimal(value as nat) == decimal(rest as nat) + digits@.reverse(),
            invariant
                rest <= value,
                digits@.len() == 0 ==> rest == value,
            ensures
                decimal(value as nat) == digits@.reverse(),
            decreases rest,
        {
            let ghost before = digits@;
            digits.push(48 + (rest % 10) as u8);
            proof {
                assert(digits@.reverse() =~= seq![(48 + rest % 10) as u8] + before.reverse());
                if rest >= 10 {
                    assert(decimal(rest as nat) == decimal((rest / 10) as nat).push((48 + rest % 10) as u8));
                    assert(decimal((rest / 10) as nat) + digits@.reverse() =~= decimal((rest / 10) as nat).push((48 + rest % 10) as u8) + before.reverse());
                } else {
                    assert(decimal(rest as nat) == seq![(48 + rest) as u8]);
                }
            }
            rest = rest / 10;
            if rest == 0 {
                break;
            }
        }
        let mut count = digits.len();
        while count > 0
            invariant
                self.wf(),
                count <= digits@.len(),
                self@ == truncated(old(self)@ + digits@.reverse().take((digits@.len() - count) as int), N as int),
            decreases count,
        {
            count = count - 1;
            let ghost taken = digits@.reverse().take((digits@.len() - count - 1) as int);
            self.push_byte(digits[count]);
            proof {
                let a = old(self)@ + taken;
                let b = old(self)@ + digits@.reverse().take((digits@.len() - count) as int);
                assert(digits@.reverse()[(digits@.len() - count - 1) as int] == digits@[count as int]);
                assert(b =~= a.push(digits@[count as int]));
                if a.len() > N {
                    assert(truncated(a, N as int).push(digits@[count as int]).take(N as int) =~= truncated(b, N as int));
                } else if a.len() == N {
                    assert(a.push(digits@[count as int]).take(N as int) =~= truncated(b, N as int));
                }
            }
        }
        proof {
            assert(digits@.reverse().take(digits@.len() as int) =~= digits@.reverse());
        }
        self
    }

    /// The text so far.
    pub fn as_bytes(&self) -> (b: &[u8])
        ensures
            b@ == self@,
    {
        self.bytes.as_slice()
    }
}

/// The wordmark: `TOS`.
pub open spec fn title_text() -> Seq<u8> {
    seq![84u8, 79u8, 83u8]
}

fn title() -> (t: [u8; 3])
    ensures
        t@ == title_text(),
{
    let t: [u8; 3] = [84, 79, 83];
    proof {
        assert(t@ =~= title_text());
    }
    t
}

/// The line under the wordmark: `Text Operating System`.
pub open spec fn subtitle_text() -> Seq<u8> {
    seq![84u8, 101u8, 120u8, 116u8, 32u8, 79u8, 112u8, 101u8, 114u8, 97u8, 116u8, 105u8, 110u8, 103u8, 32u8, 83u8, 121u8, 115u8, 116u8, 101u8, 109u8]
}

fn subtitle() -> (t: [u8; 21])
    ensures
        t@ == subtitle_text(),
{
    let t: [u8; 21] = [84, 101, 120, 116, 32, 79, 112, 101, 114, 97, 116, 105, 110, 103, 32, 83, 121, 115, 116, 101, 109];
    proof {
        assert(t@ =~= subtitle_text());
    }
    t
}

/// The last line of a failed boot: `Boot stopped.`.
pub open spec fn stopped_text() -> Seq<u8> {
    seq![66u8, 111u8, 111u8, 116u8, 32u8, 115u8, 116u8, 111u8, 112u8, 112u8, 101u8, 100u8, 46u8]
}

fn stopped() -> (t: [u8; 13])
    ensures
        t@ == stopped_text(),
{
    let t: [u8; 13] = [66, 111, 111, 116, 32, 115, 116, 111, 112, 112, 101, 100, 46];
    proof {
        assert(t@ =~= stopped_text());
    }
    t
}

/// The first line of the final screen: `Stage 2 runtime complete.`.
pub open spec fn complete_line_text() -> Seq<u8> {
    seq![83u8, 116u8, 97u8, 103u8, 101u8, 32u8, 50u8, 32u8, 114u8, 117u8, 110u8, 116u8, 105u8, 109u8, 101u8, 32u8, 99u8, 111u8, 109u8, 112u8, 108u8, 101u8, 116u8, 101u8, 46u8]
}

fn complete_line() -> (t: [u8; 25])
    ensures
        t@ == complete_line_text(),
{
    let t: [u8; 25] = [83, 116, 97, 103, 101, 32, 50, 32, 114, 117, 110, 116, 105, 109, 101, 32, 99, 111, 109, 112, 108, 101, 116, 101, 46];
    proof {
        assert(t@ =~= complete_line_text());
    }
    t
}

/// The second line of the final screen: `System halted normally.`.
pub open spec fn halted_line_text() -> Seq<u8> {
    seq![83u8, 121u8, 115u8, 116u8, 101u8, 109u8, 32u8, 104u8, 97u8, 108u8, 116u8, 101u8, 100u8, 32u8, 110u8, 111u8, 114u8, 109u8, 97u8, 108u8, 108u8, 121u8, 46u8]
}

fn halted_line() -> (t: [u8; 23])
    ensures
        t@ == halted_line_text(),
{
    let t: [u8; 23] = [83, 121, 115, 116, 101, 109, 32, 104, 97, 108, 116, 101, 100, 32, 110, 111, 114, 109, 97, 108, 108, 121, 46];
    proof {
        assert(t@ =~= halted_line_text());
    }
    t
}

/// `a - b`, or zero where that would be negative.
pub open spec fn less(a: int, b: int) -> int {
    if a > b {
        a - b
    } else {
        0
    }
}

/// An optional byte slice, by its view.
pub open spec fn bytes_of(detail: Option<&[u8]>) -> Option<Seq<u8>> {
    match detail {
        Some(d) => Some(d@),
        None => None,
    }
}

/// An optional index, as an integer.
pub open spec fn position_of(y: Option<usize>) -> Option<int> {
    match y {
        Some(y) => Some(y as int),
        None => None,
    }
}

/// What the boot console is to its contracts: the surface, the scale every
/// other measure follows from, where the next row goes, and the open row.
pub struct ConsoleView {
    pub surface: Surface,
    pub scale: int,
    pub next_y: int,
    /// The row awaiting an outcome, if one is open and was actually drawn.
    pub open: Option<int>,
    /// Whether a row is open at all, drawn or not.
    pub open_row: bool,
}

/// The scale a surface is drawn at: one step per 400 by 300 pixels, from one
/// to three.
pub open spec fn console_scale(width: int, height: int) -> int {
    let m = if width / 400 < height / 300 { width / 400 } else { height / 300 };
    if m < 1 {
        1
    } else if m > 3 {
        3
    } else {
        m
    }
}

impl ConsoleView {
    pub open spec fn margin_x(self) -> int {
        12 * self.scale
    }

    pub open spec fn margin_y(self) -> int {
        8 * self.scale
    }

    /// Vertical distance between row baselines.
    pub open spec fn line_height(self) -> int {
        9 * self.scale
    }

    /// The last y a row may start at and still fit entirely on the surface.
    pub open spec fn last_row_y(self) -> int {
        less(self.surface.height, self.margin_y() + 7 * self.scale)
    }

    pub open spec fn repainted(self, bytes: Seq<u8>) -> ConsoleView {
        ConsoleView { surface: Surface { bytes, ..self.surface }, ..self }
    }

    /// `text` drawn at `(x, y)` at `scale` in `color`.
    pub open spec fn drawn(self, text: Seq<u8>, x: int, y: int, scale: int, color: Color) -> ConsoleView {
        self.repainted(painted(self.surface, text_region(text, x, y, scale), color))
    }

    /// How many characters fit from `x` to the right margin.
    pub open spec fn room(self, x: int) -> int {
        less(self.surface.width, x + self.margin_x()) / (6 * self.scale)
    }

    /// What of `text` is shown from `x`: as much as fits.
    pub open spec fn shown(self, x: int, text: Seq<u8>) -> Seq<u8> {
        if text.len() <= self.room(x) {
            text
        } else {
            text.take(self.room(x))
        }
    }

    /// `text` written from `x` on the row at `y`, truncated to what fits, and
    /// where the writing stopped.
    pub open spec fn written(self, x: int, y: int, text: Seq<u8>, color: Color) -> (ConsoleView, int) {
        let t = self.shown(x, text);
        (self.drawn(t, x, y, self.scale, color), x + 6 * self.scale * t.len())
    }

    /// One boot row: its marker, its label and its detail; nothing at all
    /// when the surface is full.
    pub open spec fn with_row(self, status: Status, label: Seq<u8>, detail: Option<Seq<u8>>) -> (ConsoleView, Option<int>) {
        if self.next_y > self.last_row_y() {
            (self, None)
        } else {
            let y = self.next_y;
            let c1 = ConsoleView { next_y: y + self.line_height(), ..self };
            let c2 = c1.drawn(marker_text(status), self.margin_x(), y, self.scale, status_color(status));
            let (c3, x3) = c2.written(self.margin_x() + 42 * self.scale, y, label, TEXT);
            let c4 = match detail {
                Some(d) => c3.written(x3 + 6 * self.scale, y, d, MUTED).0,
                None => c3,
            };
            (c4, Some(y))
        }
    }

    /// The open row's status field repainted with `status`, and no row open.
    pub open spec fn resolved(self, status: Status) -> ConsoleView {
        let c = match self.open {
            Some(y) => self.repainted(painted(self.surface, rect(self.margin_x(), y, 36 * self.scale, 7 * self.scale), BACKGROUND)).drawn(
                marker_text(status),
                self.margin_x(),
                y,
                self.scale,
                status_color(status),
            ),
            None => self,
        };
        ConsoleView { open: None, open_row: false, ..c }
    }

    /// An empty row, when there is room for one.
    pub open spec fn blanked(self) -> ConsoleView {
        if self.next_y <= self.last_row_y() {
            ConsoleView { next_y: self.next_y + self.line_height(), ..self }
        } else {
            self
        }
    }

    /// A row of plain text from the left margin, when there is room for one.
    pub open spec fn with_text_row(self, text: Seq<u8>, color: Color) -> ConsoleView {
        if self.next_y > self.last_row_y() {
            self
        } else {
            let y = self.next_y;
            ConsoleView { next_y: y + self.line_height(), ..self }.written(self.margin_x(), y, text, color).0
        }
    }

    /// The open row marked failed, then the diagnosis below it.
    pub open spec fn failed(self, code: Seq<u8>, location: Seq<u8>) -> ConsoleView {
        let c1 = self.resolved(Status::Failed).blanked().with_text_row(code, FAILED);
        let c2 = if location.len() > 0 {
            c1.with_text_row(location, MUTED)
        } else {
            c1
        };
        c2.blanked().with_text_row(stopped_text(), TEXT)
    }
}

/// The console over a freshly cleared surface with its header drawn.
pub open spec fn headed(surface: Surface, scale: int) -> ConsoleView {
    let c0 = ConsoleView { surface, scale, next_y: 42 * scale, open: None, open_row: false };
    let c1 = c0.repainted(painted(surface, rect(0, 0, surface.width, surface.height), BACKGROUND));
    let c2 = c1.drawn(title_text(), 12 * scale, 8 * scale, 2 * scale, ACCENT);
    c2.drawn(subtitle_text(), 12 * scale, 26 * scale, scale, MUTED)
}

/// A drawable surface is at most a quarter of the address space wide or
/// tall: each row holds four bytes a pixel, and the rows fit in memory.
proof fn lemma_surface_bounds(fb: &Framebuffer)
    requires
        fb.wf(),
    ensures
        fb@.width * 4 <= usize::MAX,
        fb@.height * 4 <= usize::MAX,
{
    let s = fb@;
    assert(s.pitch * s.height >= s.pitch) by (nonlinear_arith)
        requires s.height >= 1, s.pitch >= 0;
    assert(s.pitch * s.height >= 4 * s.height) by (nonlinear_arith)
        requires s.pitch >= 4, s.height >= 0;
}

/// The boot console over one framebuffer.
pub struct BootConsole {
    fb: Framebuffer,
    scale: usize,
    line_height: usize,
    margin_x: usize,
    margin_y: usize,
    next_y: usize,
    open: Option<usize>,
    open_row: bool,
}

impl View for BootConsole {
    type V = ConsoleView;

    closed spec fn view(&self) -> ConsoleView {
        ConsoleView {
            surface: self.fb@,
            scale: self.scale as int,
            next_y: self.next_y as int,
            open: position_of(self.open),
            open_row: self.open_row,
        }
    }
}

impl BootConsole {
    /// The measures follow from the scale, and every row is on or just past
    /// the surface.
    pub closed spec fn wf(&self) -> bool {
        &&& self.fb.wf()
        &&& 1 <= self.scale <= 3
        &&& self.line_height == 9 * self.scale
        &&& self.margin_x == 12 * self.scale
        &&& self.margin_y == 8 * self.scale
        &&& self.next_y <= self.fb@.height + 200
        &&& self.open matches Some(y) ==> y <= self.fb@.height
    }

    /// The surface, for whoever shows or inspects it.
    pub fn framebuffer(&self) -> (fb: &Framebuffer)
        ensures
            fb@ == self@.surface,
    {
        &self.fb
    }

    /// Takes the screen and draws the header.
    pub fn new(fb: Framebuffer) -> (console: BootConsole)
        requires
            fb.wf(),
        ensures
            console.wf(),
            console@ == headed(fb@, console_scale(fb@.width, fb@.height)),
    {
        proof {
            lemma_surface_bounds(&fb);
        }
        let a = fb.width() / 400;
        let b = fb.height() / 300;
        let m = if a < b { a } else { b };
        let scale = if m < 1 { 1 } else if m > 3 { 3 } else { m };
        let mut console = BootConsole {
            fb,
            scale,
            line_height: 9 * scale,
            margin_x: 12 * scale,
            margin_y: 8 * scale,
            next_y: 0,
            open: None,
            open_row: false,
        };
        console.header();
        console
    }

    fn header(&mut self)
        requires
            old(self).fb.wf(),
            1 <= old(self).scale <= 3,
            old(self).line_height == 9 * old(self).scale,
            old(self).margin_x == 12 * old(self).scale,
            old(self).margin_y == 8 * old(self).scale,
            old(self).open is None,
            !old(self).open_row,
        ensures
            final(self).wf(),
            final(self)@ == headed(old(self).fb@, old(self).scale as int),
    {
        proof {
            lemma_surface_bounds(&self.fb);
        }
        self.fb.clear(BACKGROUND);
        let title_scale = self.scale * 2;
        let mut y = self.margin_y;
        let t = title();
        self.fb.draw_text(&t, self.margin_x, y, title_scale, ACCENT);
        y = y + 7 * title_scale + 4 * self.scale;
        let sub = subtitle();
        self.fb.draw_text(&sub, self.margin_x, y, self.scale, MUTED);
        self.next_y = y + 7 * self.scale + self.line_height;
        proof {
            assert(self.fb@.height == old(self).fb@.height);
        }
    }

    /// The last y a row may start at and still fit entirely on the surface.
    fn last_row_y(&self) -> (y: usize)
        requires
            self.wf(),
        ensures
            y == self@.last_row_y(),
    {
        self.fb.height().saturating_sub(self.margin_y + 7 * self.scale)
    }

    /// Draws text at `x`, truncated to what the surface can hold, and
    /// advances `x` past it.
    fn write_at(&mut self, x: &mut usize, y: usize, text: &[u8], color: Color)
        requires
            old(self).wf(),
            *old(x) <= old(self)@.surface.width + 200,
        ensures
            final(self).wf(),
            (final(self)@, *final(x) as int) == old(self)@.written(*old(x) as int, y as int, text@, color),
            *final(x) <= (if *old(x) > old(self)@.surface.width { *old(x) as int } else { old(self)@.surface.width }),
    {
        proof {
            lemma_surface_bounds(&self.fb);
        }
        let unit = text_width(1, self.scale);
        assert(unit == 6 * self.scale);
        let avail = self.fb.width().saturating_sub(*x + self.margin_x);
        let room = avail / unit;
        let n = if text.len() < room { text.len() } else { room };
        let shown = vstd::slice::slice_subrange(text, 0, n);
        proof {
            if text@.len() <= room {
                assert(shown@ =~= text@);
            }
            assert(n * unit <= avail) by (nonlinear_arith)
                requires n <= room, room == avail / unit, unit > 0;
        }
        self.fb.draw_text(shown, *x, y, self.scale, color);
        proof {
            assert(n * 6 <= n * unit) by (nonlinear_arith)
                requires unit == 6 * self.scale, self.scale >= 1;
            assert(n * 6 * self.scale == n * unit) by (nonlinear_arith)
                requires unit == 6 * self.scale;
            assert(6 * self.scale * n == n * unit) by (nonlinear_arith)
                requires unit == 6 * self.scale;
        }
        let w = text_width(n, self.scale);
        assert(w == n * unit);
        *x = *x + w;
    }

    /// Draws one row, or nothing if the surface is full, and says where.
    fn row(&mut self, status: Status, label: &[u8], detail: Option<&[u8]>) -> (r: Option<usize>)
        requires
            old(self).wf(),
        ensures
            final(self).wf(),
            (final(self)@, position_of(r)) == old(self)@.with_row(status, label@, bytes_of(detail)),
            r matches Some(y) ==> y <= final(self)@.surface.height,
    {
        proof {
            lemma_surface_bounds(&self.fb);
        }
        if self.next_y > self.last_row_y() {
            return None;
        }
        let y = self.next_y;
        self.next_y = self.next_y + self.line_height;
        let marker = status.marker();
        self.fb.draw_text(&marker, self.margin_x, y, self.scale, status.color());
        let mut x = self.margin_x + text_width(7, self.scale);
        self.write_at(&mut x, y, label, TEXT);
        match detail {
            Some(d) => {
                x = x + text_width(1, self.scale);
                self.write_at(&mut x, y, d, MUTED);
            },
            None => {},
        }
        Some(y)
    }

    /// Repaints the status field of the open row, if there is one on screen.
    fn resolve(&mut self, status: Status)
        requires
            old(self).wf(),
        ensures
            final(self).wf(),
            final(self)@ == old(self)@.resolved(status),
    {
        match self.open {
            Some(y) => {
                self.fb.fill_rect(self.margin_x, y, text_width(6, self.scale), 7 * self.scale, BACKGROUND);
                let marker = status.marker();
                self.fb.draw_text(&marker, self.margin_x, y, self.scale, status.color());
            },
            None => {},
        }
        self.open = None;
        self.open_row = false;
    }

    /// A fact already established when the console was able to draw it.
    pub fn fact(&mut self, label: &[u8], detail: Option<&[u8]>)
        requires
            old(self).wf(),
        ensures
            final(self).wf(),
            final(self)@ == old(self)@.with_row(Status::Done, label@, bytes_of(detail)).0,
            final(self)@ == after_call(old(self)@, ConsoleCall::Fact { label: label@, detail: bytes_of(detail) }),
    {
        self.row(Status::Done, label, detail);
    }

    /// Announces a step that is about to run. It stays `[ .. ]` until it
    /// returns, so a stall is named by the step that is stalling.
    pub fn begin(&mut self, label: &[u8], detail: Option<&[u8]>)
        requires
            old(self).wf(),
        ensures
            final(self).wf(),
            ({
                let (c, y) = old(self)@.with_row(Status::Busy, label@, bytes_of(detail));
                final(self)@ == ConsoleView { open: y, open_row: true, ..c }
            }),
            final(self)@ == after_call(old(self)@, ConsoleCall::Begin { label: label@, detail: bytes_of(detail) }),
    {
        self.open = self.row(Status::Busy, label, detail);
        self.open_row = true;
    }

    /// The open step returned successfully.
    pub fn succeed(&mut self)
        requires
            old(self).wf(),
        ensures
            final(self).wf(),
            final(self)@ == old(self)@.resolved(Status::Done),
            final(self)@ == after_call(old(self)@, ConsoleCall::Succeed),
    {
        self.resolve(Status::Done);
    }

    /// Whether a step is waiting for its outcome.
    pub fn is_busy(&self) -> (b: bool)
        ensures
            b == self@.open_row,
    {
        self.open_row
    }

    fn blank_row(&mut self)
        requires
            old(self).wf(),
        ensures
            final(self).wf(),
            final(self)@ == old(self)@.blanked(),
    {
        proof {
            lemma_surface_bounds(&self.fb);
        }
        if self.next_y <= self.last_row_y() {
            self.next_y = self.next_y + self.line_height;
        }
    }

    fn text_row(&mut self, text: &[u8], color: Color)
        requires
            old(self).wf(),
        ensures
            final(self).wf(),
            final(self)@ == old(self)@.with_text_row(text@, color),
    {
        proof {
            lemma_surface_bounds(&self.fb);
        }
        if self.next_y > self.last_row_y() {
            return;
        }
        let y = self.next_y;
        self.next_y = self.next_y + self.line_height;
        let mut x = self.margin_x;
        self.write_at(&mut x, y, text, color);
    }

    /// The open step ended the boot. The log above it is kept, so the
    /// operator can see how far the system got.
    pub fn fail(&mut self, code: &[u8], location: &[u8])
        requires
            old(self).wf(),
        ensures
            final(self).wf(),
            final(self)@ == old(self)@.failed(code@, location@),
            final(self)@ == after_call(old(self)@, ConsoleCall::Fail { code: code@, location: location@ }),
    {
        self.resolve(Status::Failed);
        self.blank_row();
        self.text_row(code, FAILED);
        if location.len() > 0 {
            self.text_row(location, MUTED);
        }
        self.blank_row();
        let s = stopped();
        self.text_row(&s, TEXT);
    }
}


/// The largest scale, from `top` down to one, at which a 25-character line
/// fits in `room` pixels.
pub open spec fn fitting_scale(room: int, top: int) -> int
    decreases top,
{
    if top <= 1 {
        1
    } else if 150 * top <= room {
        top
    } else {
        fitting_scale(room, top - 1)
    }
}

pub open spec fn larger(a: int, b: int) -> int {
    if a > b {
        a
    } else {
        b
    }
}

pub open spec fn smaller(a: int, b: int) -> int {
    if a < b {
        a
    } else {
        b
    }
}

impl ConsoleView {
    /// The scale of the two message lines of the final screen.
    pub open spec fn message_scale(self) -> int {
        fitting_scale(less(self.surface.width, 2 * self.margin_x()), self.scale + 1)
    }

    /// `text` drawn centred on the row at `y`; the trailing tracking column
    /// is not part of what is centred.
    pub open spec fn centered(self, text: Seq<u8>, y: int, scale: int, color: Color) -> ConsoleView {
        let width = less(crate::framebuffer::saturated_product(crate::framebuffer::saturated_product(text.len() as int, 6), scale), scale);
        self.drawn(text, less(self.surface.width, width) / 2, y, scale, color)
    }

    /// The side of one artwork cell on the final screen, for artwork of
    /// `columns` by `rows` cells.
    pub open spec fn final_cell(self, columns: int, rows: int) -> int {
        let reserved = 14 * self.scale + (14 * self.message_scale() + self.line_height()) + 4 * self.line_height() + 2 * self.margin_y();
        smaller(
            less(self.surface.width, 2 * self.margin_x()) / larger(columns, 1),
            less(self.surface.height, reserved) / larger(rows, 1),
        )
    }

    /// Where the final screen's block starts: centred, but never above the
    /// top margin.
    pub open spec fn final_top(self, rows: int, cell: int) -> int {
        let block = 14 * self.scale + 2 * self.line_height() + rows * cell + 2 * self.line_height() + (14 * self.message_scale() + self.line_height());
        larger(less(self.surface.height, block) / 2, self.margin_y())
    }

    /// The final screen: the log gone, the wordmark, the artwork as large as
    /// the surface allows, and the two lines below it.
    pub open spec fn finished(self, art: Seq<u8>) -> ConsoleView {
        let w = self.surface.width;
        let c0 = ConsoleView { open: None, open_row: false, ..self.repainted(painted(self.surface, rect(0, 0, w, self.surface.height), BACKGROUND)) };
        let ms = self.message_scale();
        let gap = self.line_height();
        let columns = crate::framebuffer::grid_columns(art);
        let rows = smaller(crate::framebuffer::grid_rows(art), usize::MAX as int);
        let cell = self.final_cell(columns, rows);
        let y0 = self.final_top(rows, cell);
        let c1 = c0.centered(title_text(), y0, 2 * self.scale, ACCENT);
        let y1 = y0 + 14 * self.scale + 2 * gap;
        let c2 = if cell > 0 {
            c1.repainted(painted(c1.surface, grid_region(art, less(w, columns * cell) / 2, y1, cell), ACCENT))
        } else {
            c1
        };
        let y2 = (if cell > 0 { y1 + rows * cell } else { y1 }) + 2 * gap;
        let c3 = c2.centered(complete_line_text(), y2, ms, TEXT);
        c3.centered(halted_line_text(), y2 + 7 * ms + gap, ms, TEXT)
    }
}

impl BootConsole {
    /// The largest scale at which both message lines still fit the width.
    fn message_scale(&self) -> (ms: usize)
        requires
            self.wf(),
        ensures
            ms == self@.message_scale(),
            1 <= ms <= 4,
    {
        proof {
            lemma_surface_bounds(&self.fb);
        }
        let room = self.fb.width().saturating_sub(self.margin_x * 2);
        let mut scale = self.scale + 1;
        while scale > 1 && text_width(25, scale) > room
            invariant
                1 <= scale <= self.scale + 1,
                self.scale <= 3,
                fitting_scale(room as int, scale as int) == fitting_scale(room as int, self.scale + 1),
            decreases scale,
        {
            scale = scale - 1;
        }
        scale
    }

    fn draw_centered(&mut self, text: &[u8], y: usize, scale: usize, color: Color)
        requires
            old(self).wf(),
            1 <= scale <= 6,
        ensures
            final(self).wf(),
            final(self)@ == old(self)@.centered(text@, y as int, scale as int, color),
    {
        let width = text_width(text.len(), scale).saturating_sub(scale);
        let x = self.fb.width().saturating_sub(width) / 2;
        self.fb.draw_text(text, x, y, scale, color);
    }

    /// The cell size and the top of the final screen's block.
    fn final_layout(&self, columns: usize, rows: usize) -> (r: (usize, usize))
        requires
            self.wf(),
        ensures
            r.0 == self@.final_cell(columns as int, rows as int),
            r.1 == self@.final_top(rows as int, r.0 as int),
            columns * r.0 <= self@.surface.width,
            rows * r.0 <= self@.surface.height,
            r.1 <= self@.surface.height + 24,
    {
        proof {
            lemma_surface_bounds(&self.fb);
        }
        let message_scale = self.message_scale();
        let gap = self.line_height;
        let message_block = 7 * message_scale * 2 + gap;
        let title_height = 14 * self.scale;
        let reserved = title_height + message_block + gap * 4 + self.margin_y * 2;
        let width = self.fb.width();
        let height = self.fb.height();
        let c = if columns > 1 { columns } else { 1 };
        let rr = if rows > 1 { rows } else { 1 };
        let across = width.saturating_sub(self.margin_x * 2) / c;
        let down = height.saturating_sub(reserved) / rr;
        let cell = if across < down { across } else { down };
        proof {
            assert(columns * cell <= width) by (nonlinear_arith)
                requires cell <= across, across == less(width as int, 2 * self.margin_x) / (c as int), c >= 1, columns <= c, less(width as int, 2 * self.margin_x) <= width;
            assert(rows * cell <= height) by (nonlinear_arith)
                requires cell <= down, down == less(height as int, reserved as int) / (rr as int), rr >= 1, rows <= rr, less(height as int, reserved as int) <= height;
        }
        let block = title_height + gap * 2 + rows * cell + gap * 2 + message_block;
        let mut y = height.saturating_sub(block) / 2;
        if y < self.margin_y {
            y = self.margin_y;
        }
        (cell, y)
    }

    /// The boot log has done its work: replace it with the final screen. The
    /// artwork is an `@`-cell grid, drawn as large as the surface allows.
    #[verifier::rlimit(30)]
    pub fn final_screen(&mut self, art: &[u8])
        requires
            old(self).wf(),
        ensures
            final(self).wf(),
            final(self)@ == old(self)@.finished(art@),
            final(self)@ == after_call(old(self)@, ConsoleCall::FinalScreen { art: art@ }),
    {
        proof {
            lemma_surface_bounds(&self.fb);
        }
        let ghost c = self@;
        let message_scale = self.message_scale();
        let (columns, rows) = ascii_dimensions(art);
        let (cell, top) = self.final_layout(columns, rows);
        self.fb.clear(BACKGROUND);
        self.open = None;
        self.open_row = false;
        let gap = self.line_height;
        let width = self.fb.width();
        let t = title();
        self.draw_centered(&t, top, self.scale * 2, ACCENT);
        let mut y = top + 14 * self.scale + gap * 2;
        if cell > 0 {
            let x = width.saturating_sub(columns * cell) / 2;
            self.fb.draw_ascii_grid(art, x, y, cell, ACCENT);
            y = y + rows * cell;
        }
        y = y + gap * 2;
        let complete = complete_line();
        self.draw_centered(&complete, y, message_scale, TEXT);
        y = y + 7 * message_scale + gap;
        let halted = halted_line();
        self.draw_centered(&halted, y, message_scale, TEXT);
        proof {
            assert(self@.message_scale() == c.message_scale());
        }
    }
}


/// One call on the boot console, with what it draws.
pub enum ConsoleCall {
    Fact { label: Seq<u8>, detail: Option<Seq<u8>> },
    Begin { label: Seq<u8>, detail: Option<Seq<u8>> },
    Succeed,
    Fail { code: Seq<u8>, location: Seq<u8> },
    FinalScreen { art: Seq<u8> },
}

/// The console after one call, as that call's contract states it.
pub open spec fn after_call(c: ConsoleView, call: ConsoleCall) -> ConsoleView {
    match call {
        ConsoleCall::Fact { label, detail } => c.with_row(Status::Done, label, detail).0,
        ConsoleCall::Begin { label, detail } => {
            let (c2, y) = c.with_row(Status::Busy, label, detail);
            ConsoleView { open: y, open_row: true, ..c2 }
        },
        ConsoleCall::Succeed => c.resolved(Status::Done),
        ConsoleCall::Fail { code, location } => c.failed(code, location),
        ConsoleCall::FinalScreen { art } => c.finished(art),
    }
}

/// The console after a run of calls, in order.
pub open spec fn after_calls(c: ConsoleView, calls: Seq<ConsoleCall>) -> ConsoleView
    decreases calls.len(),
{
    if calls.len() == 0 {
        c
    } else {
        after_call(after_calls(c, calls.drop_last()), calls.last())
    }
}

/// Whether some `begin` in `calls` has had no `succeed`, `fail` or final
/// screen after it.
pub open spec fn step_pending(calls: Seq<ConsoleCall>) -> bool
    decreases calls.len(),
{
    if calls.len() == 0 {
        false
    } else {
        match calls.last() {
            ConsoleCall::Begin { .. } => true,
            ConsoleCall::Fact { .. } => step_pending(calls.drop_last()),
            _ => false,
        }
    }
}

/// A row drawn, fitting or not, leaves the open-row flag as it was.
proof fn lemma_row_keeps_flag(c: ConsoleView, status: Status, label: Seq<u8>, detail: Option<Seq<u8>>)
    ensures
        c.with_row(status, label, detail).0.open_row == c.open_row,
{
}

/// A fresh console is busy exactly when some step was begun and has not yet
/// succeeded, failed or been covered by the final screen, over any run of
/// calls and on a surface of any size: a `begin` whose row did not fit still
/// counts, and a `fact` changes nothing.
pub proof fn lemma_busy_follows_calls(surface: Surface, scale: int, calls: Seq<ConsoleCall>)
    ensures
        after_calls(headed(surface, scale), calls).open_row == step_pending(calls),
    decreases calls.len(),
{
    if calls.len() > 0 {
        lemma_busy_follows_calls(surface, scale, calls.drop_last());
        let c = after_calls(headed(surface, scale), calls.drop_last());
        match calls.last() {
            ConsoleCall::Fact { label, detail } => {
                lemma_row_keeps_flag(c, Status::Done, label, detail);
            },
            ConsoleCall::Begin { label, detail } => {},
            ConsoleCall::Succeed => {},
            ConsoleCall::Fail { code, location } => {
                let c1 = c.resolved(Status::Failed).blanked().with_text_row(code, FAILED);
                assert(!c1.open_row);
            },
            ConsoleCall::FinalScreen { art } => {},
        }
    }
}


/// Whether a row is open after `calls`, from a console whose row was open
/// (`start_open`) or not: the last `begin` opens one, `succeed`, `fail` and
/// the final screen close it, and a `fact` leaves it as it was.
pub open spec fn open_after(start_open: bool, calls: Seq<ConsoleCall>) -> bool
    decreases calls.len(),
{
    if calls.len() == 0 {
        start_open
    } else {
        match calls.last() {
            ConsoleCall::Begin { .. } => true,
            ConsoleCall::Fact { .. } => open_after(start_open, calls.drop_last()),
            _ => false,
        }
    }
}

/// From any console, over any run of calls: a row opened by `begin` stays
/// open through any number of facts until `succeed`, `fail` or the final
/// screen closes it, and `is_busy` reports exactly that.
pub proof fn lemma_open_until_closed(c: ConsoleView, calls: Seq<ConsoleCall>)
    ensures
        after_calls(c, calls).open_row == open_after(c.open_row, calls),
    decreases calls.len(),
{
    if calls.len() > 0 {
        lemma_open_until_closed(c, calls.drop_last());
        let c1 = after_calls(c, calls.drop_last());
        match calls.last() {
            ConsoleCall::Fact { label, detail } => {
                lemma_row_keeps_flag(c1, Status::Done, label, detail);
            },
            ConsoleCall::Fail { code, location } => {
                let c2 = c1.resolved(Status::Failed).blanked().with_text_row(code, FAILED);
                assert(!c2.open_row);
            },
            _ => {},
        }
    }
}

} // verus!
