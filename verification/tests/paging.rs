use nucleus::dma::Span;
use nucleus::memory::Tables;
use nucleus::paging::{
    build, build_tables, described, framebuffer_span, needs_pages, permission, sized, AddressSpace, ImageParts,
    PagingRefused, CACHE_DISABLE, NO_EXECUTE, WRITABLE, WRITE_THROUGH,
};

fn pool(frames: u64) -> Tables {
    let mut t = Tables::empty();
    for k in 0..frames {
        t.release_frame(0x100_0000 + k * 4096);
    }
    t
}

fn image() -> ImageParts {
    ImageParts {
        text: Span { start: 0x20_0000, end: 0x20_3000 },
        rodata: Span { start: 0x20_3000, end: 0x20_4000 },
        data: Span { start: 0x20_4000, end: 0x20_6000 },
    }
}

#[test]
fn a_mapped_page_translates_to_its_frame_and_an_unmapped_one_to_nothing() {
    let mut t = pool(8);
    let mut space = AddressSpace::new(&mut t).unwrap();
    assert_eq!(space.translate(0x4000_1234), None);
    assert_eq!(space.map_page(&mut t, 0x4000_1000, 0x9_9000, WRITABLE), Ok(()));
    assert_eq!(space.translate(0x4000_1234), Some(0x9_9000));
    assert_eq!(space.writable(0x4000_1000), Some(true));
    assert_eq!(space.translate(0x4000_2000), None);
    space.unmap_page(0x4000_1000);
    assert_eq!(space.translate(0x4000_1000), None);
    assert_eq!(space.map_page(&mut t, 0x1_0000_0000_0000, 0, 0), Err(PagingRefused::AddressTooHigh(0x1_0000_0000_0000)));
}

#[test]
fn a_released_space_gives_every_table_back() {
    let mut t = pool(8);
    let before = t.remaining();
    let mut space = AddressSpace::new(&mut t).unwrap();
    space.map_page(&mut t, 0x4000_1000, 0x9_9000, WRITABLE).unwrap();
    assert_eq!(t.remaining(), before - 4);
    space.release_tables(&mut t);
    assert_eq!(t.remaining(), before);
}

#[test]
fn page_zero_stays_absent_and_text_is_read_only() {
    let fb = Some(Span { start: 0xfd00_0000, end: 0xfd10_0000 });
    assert_eq!(permission(0, fb, image()), None);
    assert_eq!(permission(0xfff, fb, image()), None);
    assert_eq!(permission(0x20_1000, fb, image()), Some(0));
    assert_eq!(permission(0x20_3000, fb, image()), Some(NO_EXECUTE));
    assert_eq!(permission(0x20_5000, fb, image()), Some(WRITABLE | NO_EXECUTE));
    assert_eq!(permission(0x1000, fb, image()), Some(WRITABLE | NO_EXECUTE));
    assert_eq!(permission(0xfd00_0000, fb, image()), Some(WRITABLE | NO_EXECUTE | CACHE_DISABLE | WRITE_THROUGH));
}

#[test]
fn chunks_are_described_by_what_the_machine_reported() {
    let whole = Span { start: 0x20_0000, end: 0x20_6000 };
    let descs = [(0x1000u64, 0x9_f000u64), (0x40_0000u64, 0u64)];
    assert!(described(0, &descs, None));
    assert!(!described(0x20_0000, &descs, None));
    assert!(!described(0x40_0000, &descs, None));
    assert!(needs_pages(0, whole, None));
    assert!(needs_pages(0x20_0000, whole, None));
    assert!(!needs_pages(0x40_0000, whole, None));
    assert_eq!(sized(5, 0), None);
    assert_eq!(sized(u64::MAX, 2), None);
    assert_eq!(sized(4, 4), Some(Span { start: 4, end: 8 }));
    assert_eq!(framebuffer_span(0, 4096, 768), None);
    assert_eq!(framebuffer_span(0xfd00_0000, 3200, 0), None);
    assert_eq!(framebuffer_span(0xfd00_0000, 3200, 600), Some(Span { start: 0xfd00_0000, end: 0xfd00_0000 + 3200 * 600 }));
}

#[test]
fn the_table_bound_counts_what_the_map_walks() {
    // Two described chunks in one directory, the first mapped in pages.
    let descs = [(0x1000u64, 0x3f_f000u64)];
    assert_eq!(build_tables(None, image(), &descs), 1 + 1 + 1 + 2 + 3);
}

#[test]
fn the_identity_map_maps_memory_to_itself_and_leaves_page_zero_out() {
    let mut t = pool(16);
    let descs = [(0x1000u64, 0x3f_f000u64)];
    let space = build(&mut t, None, image(), &descs).unwrap();
    assert_eq!(space.translate(0), None);
    assert_eq!(space.translate(0x1000), Some(0x1000));
    assert_eq!(space.writable(0x1000), Some(true));
    assert_eq!(space.translate(0x20_1000), Some(0x20_1000));
    assert_eq!(space.writable(0x20_1000), Some(false));
    assert_eq!(space.translate(0xfee0_0000), Some(0xfee0_0000));
}

#[test]
fn a_map_that_runs_out_of_tables_gives_back_what_it_took() {
    let mut t = pool(2);
    let before = t.remaining();
    let descs = [(0x1000u64, 0x3f_f000u64)];
    assert_eq!(build(&mut t, None, image(), &descs).err(), Some(PagingRefused::NoFrame));
    assert_eq!(t.remaining(), before);
}

#[test]
fn a_cleared_page_hands_back_the_frame_it_was_mapped_to() {
    let mut t = pool(8);
    let mut space = AddressSpace::new(&mut t).unwrap();
    assert_eq!(space.map_page(&mut t, 0x4000_1000, 0x9_9123, WRITABLE), Ok(()));
    assert_eq!(space.clear_leaf(0x4000_1000), Some(0x9_9000));
    assert_eq!(space.translate(0x4000_1000), None);
    assert_eq!(space.clear_leaf(0x4000_1000), None);
}

#[test]
fn a_refused_mapping_takes_no_table() {
    let mut t = pool(8);
    let mut space = AddressSpace::new(&mut t).unwrap();
    let before = t.remaining();
    assert_eq!(space.map_page(&mut t, 0x1_0000_0000_0000, 0x9_9000, 0), Err(PagingRefused::AddressTooHigh(0x1_0000_0000_0000)));
    assert_eq!(t.remaining(), before);
    assert_eq!(space.map_empty_page(&mut t, 0x4000_1000, 0x9_9000, WRITABLE), Ok(()));
    let after_first = t.remaining();
    assert_eq!(space.map_empty_page(&mut t, 0x4000_1000, 0xA_A000, WRITABLE), Err(PagingRefused::Granularity(0x4000_1000)));
    assert_eq!(t.remaining(), after_first);
    assert_eq!(space.translate(0x4000_1000), Some(0x9_9000));
}
