use nucleus::dma::Span;
use nucleus::memory::{all_spans, free_spans, occupied, reserve_tables, Tables, MEM_USABLE};
use nucleus::paging::{AddressSpace, WRITABLE};

fn pool(frames: u64) -> Tables {
    let mut t = Tables::empty();
    for k in 0..frames {
        t.release_frame(0x100_0000 + k * 4096);
    }
    t
}

#[test]
fn a_reserve_takes_all_it_was_asked_for() {
    let mut frames = pool(10);
    let mut reserve = Tables::empty();
    assert_eq!(reserve_tables(&mut frames, &mut reserve, 6), Some(6));
    assert_eq!(frames.remaining(), 4);
    assert_eq!(reserve.remaining(), 6);
}

#[test]
fn a_partial_reserve_is_no_reserve() {
    let mut frames = pool(3);
    let mut reserve = Tables::empty();
    assert_eq!(reserve_tables(&mut frames, &mut reserve, 5), None);
    assert_eq!(frames.remaining(), 3);
    assert_eq!(reserve.remaining(), 0);
}

#[test]
fn the_occupied_spans_leave_out_what_is_empty() {
    let image = Span { start: 0x10_0000, end: 0x18_0000 };
    let spans = occupied(image, (0x20_0000, 0x1000), (0x30_0000, 0), (0x40_0000, 0x2000), (0xfd00_0000, 4096, 768), None);
    assert_eq!(
        spans,
        vec![
            image,
            Span { start: 0x20_0000, end: 0x20_1000 },
            Span { start: 0x40_0000, end: 0x40_2000 },
            Span { start: 0xfd00_0000, end: 0xfd30_0000 },
        ]
    );
    let stack = Span { start: 0x7000, end: 0x9000 };
    let with_stack = occupied(image, (0, 0), (u64::MAX, 2), (0, 0), (0, 0, 0), Some(stack));
    assert_eq!(with_stack, vec![image, stack]);
}

#[test]
fn only_usable_entries_reach_the_pool() {
    let descs = [(MEM_USABLE, 0x1000, 0x9000), (2, 0x10_0000, 0x1000), (MEM_USABLE, 0x20_0000, 0), (MEM_USABLE, u64::MAX, 1)];
    assert_eq!(free_spans(&descs), vec![Span { start: 0x1000, end: 0xa000 }]);
    assert_eq!(all_spans(&descs), vec![Span { start: 0x1000, end: 0xa000 }, Span { start: 0x10_0000, end: 0x10_1000 }]);
}

#[test]
fn a_released_lane_gives_back_its_tables_and_no_other_lane_changes() {
    let mut t = pool(16);
    let before = t.remaining();
    let mut space = AddressSpace::new(&mut t).unwrap();
    // Two pages in one lane, under two directories, and one page in another.
    space.map_page(&mut t, 0x80_0000_0000, 0x9_9000, WRITABLE).unwrap();
    space.map_page(&mut t, 0x80_4000_0000, 0x9_a000, WRITABLE).unwrap();
    space.map_page(&mut t, 0x4000_1000, 0x9_b000, WRITABLE).unwrap();
    assert_eq!(t.remaining(), before - 1 - 5 - 3);
    assert!(space.release_branch(&mut t, 0x80_0000_1000));
    assert_eq!(t.remaining(), before - 1 - 3);
    assert_eq!(space.translate(0x80_0000_0000), None);
    assert_eq!(space.translate(0x80_4000_0000), None);
    assert_eq!(space.translate(0x4000_1000), Some(0x9_b000));
    assert!(!space.release_branch(&mut t, 0x80_0000_1000));
    assert!(!space.release_branch(&mut t, 0x1_0000_0000_0000));
    assert_eq!(t.remaining(), before - 1 - 3);
}

use nucleus::process::{map_fresh, map_range, release_mapped, Unlaunchable, FRESH_FLAGS};

#[test]
fn a_range_is_mapped_frame_by_frame() {
    let mut t = pool(16);
    let mut space = AddressSpace::new(&mut t).unwrap();
    let range = Span { start: 0x50_0000, end: 0x50_2800 };
    assert_eq!(map_range(&mut space, &mut t, 0x1000_0000, range, 5), Ok(()));
    assert_eq!(space.translate(0x1000_0000), Some(0x50_0000));
    assert_eq!(space.translate(0x1000_1000), Some(0x50_1000));
    assert_eq!(space.translate(0x1000_2000), Some(0x50_2000));
    assert_eq!(space.translate(0x1000_3000), None);
    assert_eq!(space.writable(0x1000_1000), Some(false));
    let high = map_range(&mut space, &mut t, 0xffff_ffff_f000, Span { start: 0, end: 0x2000 }, 5);
    assert!(matches!(high, Err(Unlaunchable::Paging(_))));
}

#[test]
fn fresh_frames_come_from_the_pool_and_go_back_to_it() {
    let mut t = pool(16);
    let mut space = AddressSpace::new(&mut t).unwrap();
    let before = t.remaining();
    let first = map_fresh(&mut space, &mut t, 0x5000_0000, 3).unwrap();
    // Three frames, and the three tables of the path to them.
    assert_eq!(t.remaining(), before - 6);
    assert_eq!(space.translate(0x5000_0000), Some(first));
    let second = space.translate(0x5000_1000).unwrap();
    let third = space.translate(0x5000_2000).unwrap();
    assert!(first != second && second != third && first != third);
    assert_eq!(space.writable(0x5000_2000), Some(true));
    release_mapped(&mut space, &mut t, 0x5000_0000, 3 * 4096);
    assert_eq!(t.remaining(), before - 3);
    assert_eq!(space.translate(0x5000_0000), None);
    assert_eq!(space.translate(0x5000_2000), None);
    assert_eq!(map_fresh(&mut space, &mut t, 0x6000_0000, 0), Ok(0));
    assert_eq!(FRESH_FLAGS & 1, 1);
}

#[test]
fn fresh_frames_refuse_when_the_pool_runs_dry() {
    let mut t = pool(5);
    let mut space = AddressSpace::new(&mut t).unwrap();
    assert!(map_fresh(&mut space, &mut t, 0x5000_0000, 4).is_err());
}

use nucleus::backing::{Malformed, RegionBackingSpace};

const LANE: u64 = 0x100_0000_0000;

#[test]
fn a_region_record_names_its_frames_and_refuses_a_second_name() {
    let mut reserve = pool(8);
    let mut index = RegionBackingSpace::create(&mut reserve).unwrap();
    assert_eq!(index.construct(&mut reserve, LANE, 0, 0x900_0000), Ok(()));
    assert_eq!(index.construct(&mut reserve, LANE, 1, 0x900_1000), Ok(()));
    assert_eq!(index.frame_at(LANE, 1), Some(0x900_1000));
    assert_eq!(index.construct(&mut reserve, LANE, 1, 0x900_2000), Err(Malformed::Occupied));
    assert!(index.describes(LANE, 2));
    assert!(!index.describes(LANE, 1));
    assert!(!index.describes(LANE, 3));
}

#[test]
fn a_drained_lane_gives_frames_to_the_pool_and_tables_to_the_reserve() {
    let mut reserve = pool(8);
    let mut index = RegionBackingSpace::create(&mut reserve).unwrap();
    let after_root = reserve.remaining();
    let mut frames = Tables::empty();
    index.construct(&mut reserve, LANE, 0, 0x900_0000).unwrap();
    index.construct(&mut reserve, LANE, 1, 0x900_1000).unwrap();
    assert_eq!(reserve.remaining(), after_root - 3);
    assert_eq!(index.drain(&mut reserve, &mut frames, LANE, 3), Err(Malformed::WrongShape));
    assert_eq!(frames.remaining(), 0);
    assert_eq!(index.drain(&mut reserve, &mut frames, LANE, 2), Ok(()));
    assert_eq!(frames.remaining(), 2);
    assert_eq!(reserve.remaining(), after_root);
    assert_eq!(index.frame_at(LANE, 0), None);
}

#[test]
fn a_half_built_lane_is_undone_by_its_count() {
    let mut reserve = pool(8);
    let mut index = RegionBackingSpace::create(&mut reserve).unwrap();
    let after_root = reserve.remaining();
    let mut frames = Tables::empty();
    index.discard(&mut reserve, &mut frames, LANE, 0);
    assert_eq!(reserve.remaining(), after_root);
    index.construct(&mut reserve, LANE, 0, 0x900_0000).unwrap();
    index.discard(&mut reserve, &mut frames, LANE, 1);
    assert_eq!(frames.remaining(), 1);
    assert_eq!(reserve.remaining(), after_root);
}

use nucleus::memory::Funding;
use nucleus::region::Regions;

#[test]
fn funding_stops_for_good_once_the_accounting_diverges() {
    let mut tree = Regions::new();
    let mut funding = Funding::new();
    assert_eq!(funding.root(), None);
    assert_eq!(funding.endow_root(&mut tree, 0), None);
    assert_eq!(funding.endow_root(&mut tree, 16), Some(16 * 4096));
    let root = funding.root().unwrap();
    assert_eq!(tree.remaining(root), Ok(16 * 4096));
    assert!(!funding.accounting_diverged());
    funding.note_divergence();
    assert!(funding.accounting_diverged());
    assert_eq!(funding.root(), None);
}
