use nucleus::framebuffer::{
    ascii_dimensions, glyph, pyro_art_body, Framebuffer, FB_FORMAT_BGRX8, FB_FORMAT_NONE,
    FB_FORMAT_RGBX8, GLYPH_HEIGHT, TEXT,
};

#[test]
fn every_printable_ascii_byte_has_a_glyph() {
    let fallback = glyph(0x7f);
    for byte in 0x20u8..0x7f {
        if byte == b' ' {
            assert_eq!(glyph(byte), [0; GLYPH_HEIGHT], "space must be blank");
            continue;
        }
        assert_ne!(glyph(byte), [0; GLYPH_HEIGHT], "byte {byte:#x} draws nothing");
        assert_ne!(glyph(byte), fallback, "byte {byte:#x} is unmapped");
    }
}

#[test]
fn glyph_rows_stay_inside_the_cell() {
    for byte in 0u8..=255 {
        for row in glyph(byte) {
            assert_eq!(row & !0b11111, 0, "byte {byte:#x} row overflows the cell");
        }
    }
}

#[test]
fn rgbx8_pixel_order() {
    let mut fb = Framebuffer::new(vec![0; 4], 1, 1, 4, FB_FORMAT_RGBX8).unwrap();
    fb.put_pixel(0, 0, (1, 2, 3));
    assert_eq!(fb.bytes(), [1, 2, 3, 0]);
}

#[test]
fn bgrx8_pixel_order() {
    let mut fb = Framebuffer::new(vec![0; 4], 1, 1, 4, FB_FORMAT_BGRX8).unwrap();
    fb.put_pixel(0, 0, (1, 2, 3));
    assert_eq!(fb.bytes(), [3, 2, 1, 0]);
}

#[test]
fn pitch_selects_the_next_scanline() {
    let mut fb = Framebuffer::new(vec![0; 24], 2, 2, 12, FB_FORMAT_RGBX8).unwrap();
    fb.put_pixel(1, 1, (9, 8, 7));
    assert_eq!(&fb.bytes()[16..20], &[9, 8, 7, 0]);
    assert_eq!(&fb.bytes()[8..12], &[0; 4]);
}

#[test]
fn rectangles_clip_to_framebuffer_bounds() {
    let mut fb = Framebuffer::new(vec![0; 16], 2, 2, 8, FB_FORMAT_RGBX8).unwrap();
    fb.fill_rect(1, 1, 10, 10, (4, 5, 6));
    assert_eq!(&fb.bytes()[12..16], &[4, 5, 6, 0]);
    assert_eq!(&fb.bytes()[0..12], &[0; 12]);
}

#[test]
fn absent_or_invalid_framebuffer_is_not_rendered() {
    assert!(Framebuffer::new(vec![], 0, 0, 0, FB_FORMAT_NONE).is_none());
    assert!(Framebuffer::new(vec![0; 4], 1, 1, 3, FB_FORMAT_RGBX8).is_none());
}

#[test]
fn clear_leaves_scanline_padding_untouched() {
    let mut fb = Framebuffer::new(vec![0xffu8; 2 * 12], 2, 2, 12, FB_FORMAT_RGBX8).unwrap();
    fb.clear((1, 2, 3));
    assert_eq!(&fb.bytes()[0..8], &[1, 2, 3, 0, 1, 2, 3, 0]);
    assert_eq!(&fb.bytes()[8..12], &[0xff; 4]);
    assert_eq!(&fb.bytes()[20..24], &[0xff; 4]);
}

#[test]
fn text_outside_the_surface_writes_nothing() {
    let mut fb = Framebuffer::new(vec![0u8; 8 * 8 * 4], 8, 8, 32, FB_FORMAT_RGBX8).unwrap();
    fb.draw_text(b"BOOT", 4096, 4096, 2, TEXT);
    assert!(fb.bytes().iter().all(|&byte| byte == 0));
}

#[test]
fn ascii_grid_draws_only_at_cells() {
    let mut fb = Framebuffer::new(vec![0; 36], 3, 3, 12, FB_FORMAT_RGBX8).unwrap();
    fb.draw_ascii_grid(b"@ @\n @@", 0, 0, 1, (7, 8, 9));
    assert_eq!(&fb.bytes()[0..4], &[7, 8, 9, 0]);
    assert_eq!(&fb.bytes()[4..8], &[0; 4]);
    assert_eq!(&fb.bytes()[8..12], &[7, 8, 9, 0]);
    assert_eq!(&fb.bytes()[16..20], &[7, 8, 9, 0]);
    assert_eq!(&fb.bytes()[20..24], &[7, 8, 9, 0]);
}

/// Artwork as the asset holds it: a notice line, then the cells.
const ARTWORK: &[u8] = b"# SPDX-License-Identifier: CC-BY-SA-4.0\n @@ \n@@@@\n @@ \n";

#[test]
fn pyro_uses_the_canonical_spdx_prefixed_artwork_body() {
    assert!(ARTWORK.starts_with(b"# SPDX-License-Identifier: CC-BY-SA-4.0\n"));
    assert!(pyro_art_body(ARTWORK).contains(&b'@'));
    assert_ne!(pyro_art_body(ARTWORK), ARTWORK);
    assert_eq!(pyro_art_body(ARTWORK), b" @@ \n@@@@\n @@ \n");
    assert_eq!(pyro_art_body(b"no line break"), b"");
}

#[test]
fn ascii_dimensions_measure_the_widest_row() {
    assert_eq!(ascii_dimensions(b"@@\n@@@@\n@"), (4, 3));
    let (columns, rows) = ascii_dimensions(pyro_art_body(ARTWORK));
    assert_eq!((columns, rows), (4, 4));
}
