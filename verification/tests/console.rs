use nucleus::console::Text;

#[test]
fn text_truncates_instead_of_overflowing() {
    let mut text = Text::<8>::new();
    text.push(b"abcdefghij");
    assert_eq!(text.as_bytes(), b"abcdefgh");
}

#[test]
fn text_writes_decimal_numbers() {
    let mut text = Text::<32>::new();
    text.push(b"init.tos:").push_number(37).push(b":");
    text.push_number(9);
    assert_eq!(text.as_bytes(), b"init.tos:37:9");
    let mut zero = Text::<4>::new();
    zero.push_number(0);
    assert_eq!(zero.as_bytes(), b"0");
}

use nucleus::console::BootConsole;
use nucleus::framebuffer::{
    pyro_art_body, Color, Framebuffer, ACCENT, BACKGROUND, DONE, FAILED, FB_FORMAT_BGRX8, FB_FORMAT_RGBX8,
    MUTED, TEXT,
};

const WIDTH: usize = 800;
const HEIGHT: usize = 600;

/// Artwork as the asset holds it: a notice line, then the cells.
const ARTWORK: &[u8] = b"# SPDX-License-Identifier: CC-BY-SA-4.0\n  @@@@@@  \n @@@@@@@@ \n@@@@@@@@@@\n @@@@@@@@ \n  @@  @@  \n";

fn console() -> BootConsole {
    let fb = Framebuffer::new(vec![0; WIDTH * HEIGHT * 4], WIDTH as u32, HEIGHT as u32, (WIDTH * 4) as u32, FB_FORMAT_RGBX8)
        .expect("surface");
    BootConsole::new(fb)
}

fn pixel(console: &BootConsole, x: usize, y: usize) -> Color {
    let bytes = console.framebuffer().bytes();
    let offset = y * WIDTH * 4 + x * 4;
    (bytes[offset], bytes[offset + 1], bytes[offset + 2])
}

fn has(console: &BootConsole, color: Color) -> bool {
    console.framebuffer().bytes().chunks_exact(4).any(|p| (p[0], p[1], p[2]) == color)
}

fn count(console: &BootConsole, color: Color) -> usize {
    console.framebuffer().bytes().chunks_exact(4).filter(|p| (p[0], p[1], p[2]) == color).count()
}

#[test]
fn header_is_drawn_on_a_cleared_surface() {
    let console = console();
    assert_eq!(pixel(&console, 0, 0), BACKGROUND);
    assert!(has(&console, ACCENT), "the wordmark is missing");
    assert!(has(&console, MUTED), "the subtitle is missing");
}

#[test]
fn an_open_row_resolves_to_success() {
    let mut busy = console();
    busy.begin(b"Reading canonical source", None);
    assert!(busy.is_busy());
    assert!(has(&busy, ACCENT), "a busy marker must be drawn");
    let busy_accent = count(&busy, ACCENT);

    let mut done = console();
    done.begin(b"Reading canonical source", None);
    done.succeed();
    assert!(!done.is_busy());
    assert!(has(&done, DONE), "a finished row must show the done marker");
    assert!(count(&done, ACCENT) < busy_accent, "the busy marker must be repainted, not left behind");
    assert!(!has(&done, FAILED));
}

#[test]
fn an_open_row_resolves_to_failure_and_keeps_the_log() {
    let mut console = console();
    console.fact(b"Boot ABI v1", None);
    console.begin(b"Checking source", None);
    console.fail(b"E1223_REFUTABLE_PATTERN", b"system/boot/init.tos:37:9");
    assert!(!console.is_busy());
    assert!(has(&console, DONE), "the earlier row must survive the failure");
    assert!(has(&console, FAILED), "the failed row must be marked");
    assert!(has(&console, TEXT), "the diagnosis text is missing");
}

#[test]
fn a_success_marker_is_never_drawn_before_the_step_returns() {
    let mut console = console();
    console.begin(b"Verifying tos-ir/v1", None);
    assert!(!has(&console, DONE), "an unfinished step must not claim success");
}

#[test]
fn rows_stop_at_the_bottom_of_the_surface() {
    let mut console = console();
    for _ in 0..500 {
        console.fact(b"Row", None);
    }
    let last = HEIGHT - 1;
    for x in 0..WIDTH {
        assert_eq!(pixel(&console, x, last), BACKGROUND, "a row was drawn past the last full line");
    }
}

#[test]
fn a_tiny_surface_stays_inside_its_buffer() {
    for (width, height) in [(1u32, 1u32), (16, 8), (64, 40), (320, 200)] {
        let pitch = (width as usize) * 4;
        let mut bytes = vec![0u8; pitch * height as usize + 8];
        let guard = bytes.len() - 8;
        bytes[guard..].fill(0xa5);
        let fb = Framebuffer::new(bytes, width, height, pitch as u32, FB_FORMAT_BGRX8).expect("surface");
        let mut console = BootConsole::new(fb);
        console.fact(b"Boot ABI v1", None);
        console.begin(b"Checking source", Some(b"system/boot/init.tos"));
        console.fail(b"E1223_REFUTABLE_PATTERN", b"system/boot/init.tos:37:9");
        console.final_screen(pyro_art_body(ARTWORK));
        let bytes = console.framebuffer().bytes();
        assert_eq!(bytes.len(), guard + 8);
        assert_eq!(&bytes[guard..], &[0xa5; 8], "{width}x{height} wrote past the framebuffer");
    }
}

#[test]
fn the_final_screen_replaces_the_log_with_the_mascot_and_its_two_lines() {
    let mut console = console();
    console.fact(b"Boot ABI v1", None);
    console.begin(b"Executing boot module", None);
    console.succeed();
    console.final_screen(pyro_art_body(ARTWORK));
    assert!(!has(&console, DONE), "the boot log must be gone from the final screen");
    assert!(!has(&console, FAILED));
    let cells = pyro_art_body(ARTWORK).iter().filter(|&&byte| byte == b'@').count();
    assert!(count(&console, ACCENT) > cells * 16, "the mascot is not drawn at a size that dominates the screen");
    assert!(has(&console, TEXT), "the message lines are missing");
}

#[test]
fn busy_means_a_step_was_begun_and_has_not_ended() {
    let mut c = console();
    assert!(!c.is_busy());
    c.fact(b"Memory map", Some(b"12 entries"));
    assert!(!c.is_busy());
    c.begin(b"Loading", None);
    assert!(c.is_busy());
    c.fact(b"Still loading", None);
    assert!(c.is_busy());
    c.succeed();
    assert!(!c.is_busy());
    c.begin(b"Measuring", None);
    c.fail(b"E_SOMETHING", b"");
    assert!(!c.is_busy());
    c.begin(b"Again", None);
    c.final_screen(ARTWORK);
    assert!(!c.is_busy());
}

#[test]
fn a_step_begun_below_the_last_row_still_counts_as_busy() {
    let fb = Framebuffer::new(vec![0; 40 * 30 * 4], 40, 30, 160, FB_FORMAT_BGRX8).expect("surface");
    let mut c = BootConsole::new(fb);
    for _ in 0..8 {
        c.fact(b"filler", None);
    }
    c.begin(b"does not fit", None);
    assert!(c.is_busy());
    c.succeed();
    assert!(!c.is_busy());
}
