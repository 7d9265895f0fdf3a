use nucleus::dma::{first_free_lane, fund_region, DmaRegions, Refused, Span};
use nucleus::pci::Assignments;
use nucleus::region::Regions;

/// The non-LIFO lifecycle the count-as-lane form got wrong: allocate A and
/// B, release A, allocate C while B is live.
#[test]
fn a_freed_lane_is_reused_and_a_live_one_is_not() {
    let mut taken = [false; 4];
    taken[0] = true;
    assert_eq!(first_free_lane(&taken), Some(1));
    taken[1] = true;
    taken[0] = false;
    assert_eq!(
        first_free_lane(&taken),
        Some(0),
        "the next region was put on top of a live one"
    );
}

#[test]
fn a_full_process_has_no_lane() {
    assert_eq!(first_free_lane(&[true, true, true, true]), None);
    assert_eq!(first_free_lane(&[]), None);
}

use nucleus::adversary::{hostile_writes, HostileWrite};

#[test]
fn a_hostile_rule_list_asks_for_its_writes_at_the_named_delivery_only() {
    let rules = b"3:16:255:2,3:1:7,4:0:1,3:2:300,3:5:9:0,x:1:2,3:8:1:y,+3:9:4,3:10";
    assert_eq!(
        hostile_writes(rules, 3),
        vec![
            HostileWrite { offset: 16, byte: 255, count: 2 },
            HostileWrite { offset: 1, byte: 7, count: 1 },
            HostileWrite { offset: 8, byte: 1, count: 1 },
            HostileWrite { offset: 9, byte: 4, count: 1 },
        ]
    );
    assert_eq!(hostile_writes(rules, 4), vec![HostileWrite { offset: 0, byte: 1, count: 1 }]);
    assert_eq!(hostile_writes(b"", 0), vec![]);
    assert_eq!(hostile_writes(b"0:18446744073709551616:1", 0), vec![]);
    assert_eq!(hostile_writes(b"0:18446744073709551615:1", 0), vec![HostileWrite { offset: u64::MAX, byte: 1, count: 1 }]);
}

#[test]
fn a_region_that_cannot_be_carved_costs_its_authority_nothing() {
    let mut tree = Regions::new();
    let root = tree.endow_root(1 << 20).unwrap();
    assert_eq!(fund_region(&mut tree, root, 5000, false).err(), Some(Refused::Limit));
    assert_eq!(tree.remaining(root), Ok(1 << 20));
    let receipt = fund_region(&mut tree, root, 5000, true).unwrap();
    assert_eq!(receipt.charged(), 8192);
    assert_eq!(tree.remaining(root), Ok((1 << 20) - 8192));
    let small = tree.attenuate(root, 4096).unwrap();
    assert_eq!(fund_region(&mut tree, small, 5000, true).err(), Some(Refused::Limit));
    assert_eq!(tree.remaining(small), Ok(4096));
}

#[test]
fn a_region_refused_after_funding_leaves_everything_as_it_was() {
    let mut tree = Regions::new();
    let root = tree.endow_root(1 << 20).unwrap();
    let mut pci = Assignments::new();
    let bus = pci.endow_root(0, 0, 255).unwrap();
    let (function, generation) = pci.claim(bus, 0, 3, 0).unwrap();
    let mut dma = DmaRegions::new();
    let run = Span { start: 0x10_0000, end: 0x10_2000 };

    let unmapped = dma.allocate(&mut tree, &mut pci, function, generation, true, root, 1, 5000, Some(run), None, 0);
    assert_eq!(unmapped, Err(Refused::Paging));
    assert_eq!(tree.remaining(root), Ok(1 << 20));
    assert_eq!(dma.lanes(1), vec![false; 4]);

    let uncarved = dma.allocate(&mut tree, &mut pci, function, generation, true, root, 1, 5000, None, Some(0x8000_0000), 0);
    assert_eq!(uncarved, Err(Refused::Limit));
    assert_eq!(tree.remaining(root), Ok(1 << 20));

    let made = dma.allocate(&mut tree, &mut pci, function, generation, true, root, 1, 5000, Some(run), Some(0x8000_0000), 0).unwrap();
    assert_eq!((made.index, made.lane, made.base, made.bytes), (0, 0, 0x8000_0000, 8192));
    // The first bus-mastering descendant is the one that turns mastering on.
    assert_eq!(made.command, Some(4));
    assert_eq!(tree.remaining(root), Ok((1 << 20) - 8192));
    assert!(dma.is_live(made.index, made.generation));
}
