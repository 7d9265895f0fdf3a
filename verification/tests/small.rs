use nucleus::exception::{gates, global_descriptors, IdtEntry, CODE_SELECTOR, DF_IST_INDEX, INTERRUPT_GATE};
use nucleus::injection::{Case, Injection};
use nucleus::launch::{SourceFacts, Template};
use nucleus::measurement::{entries_to_walk, interface_present, mode_key, mode_of, Mode};
use nucleus::process::{
    area_flags, capsule_frame, carried, mapping_plan, Area, check_image, drain_text, launch_admits, launch_header, record_layout, unit_entry, Context, GrantFacts, ImageHeader,
    RecordLayout, RecordSizes, Unlaunchable, ARGUMENTS, GRANT, RECORD, REPORT, SOURCE, STACK,
};

#[test]
fn a_gate_points_at_its_handler() {
    let mut e = IdtEntry::empty();
    e.set(0x1234_5678_9abc_def0, 0);
    assert_eq!(e.offset_low, 0xdef0);
    assert_eq!(e.offset_mid, 0x9abc);
    assert_eq!(e.offset_high, 0x1234_5678);
    assert_eq!(e.selector, CODE_SELECTOR);
    assert_eq!(e.type_attributes, INTERRUPT_GATE);
    assert_eq!(e.reserved, 0);
}

#[test]
fn the_double_fault_alone_runs_on_its_own_stack() {
    let handlers: Vec<u64> = (0..32).map(|v| 0x1000 + v * 16).collect();
    let table = gates(&handlers);
    assert_eq!(table.len(), 32);
    for (v, e) in table.iter().enumerate() {
        assert_eq!(e.ist, if v == 8 { DF_IST_INDEX } else { 0 });
        assert_eq!(e.offset_low as u64, 0x1000 + v as u64 * 16);
    }
}

#[test]
fn the_task_state_descriptor_encodes_base_and_limit() {
    let g = global_descriptors(0x1122_3344_5566_7788, 0x67);
    assert_eq!(g[0], 0);
    assert_eq!(g[1], 0x00af_9a00_0000_ffff);
    assert_eq!(g[2], 0x00cf_9200_0000_ffff);
    assert_eq!(g[3], 0x5500_8966_7788_0067);
    assert_eq!(g[4], 0x1122_3344);
}

#[test]
fn each_mode_is_recorded_under_its_own_word() {
    assert_eq!(Mode::FullExact.name(), b"full-exact".to_vec());
    assert_eq!(Mode::UnavoidableCrypto.name(), b"unavoidable-crypto".to_vec());
}

#[test]
fn table_refusals_wait_until_they_are_enabled() {
    let mut i = Injection::new();
    assert!(!i.armed(Case::GrantTable));
    i.arm(Case::GrantTable);
    assert!(i.armed(Case::GrantTable));
    assert!(!i.armed(Case::RecordMapping));
    assert!(!i.tables_refuse());
    i.enable();
    assert!(i.tables_refuse());
    i.arm(Case::DataFrame);
    assert!(!i.tables_refuse());
    i.arm(Case::RecordMapping);
    assert!(i.tables_refuse());
    i.disarm();
    assert!(!i.tables_refuse());
    assert!(!i.armed(Case::RecordMapping));
}

#[test]
fn a_module_is_found_by_its_root_relative_path() {
    let units = vec![
        (b"/system/init.tos".to_vec(), vec![1u8]),
        (b"lib/util.tos".to_vec(), vec![2u8]),
        (b"/lib/util.tos".to_vec(), vec![3u8]),
    ];
    let t = Template::establish(units, 42, SourceFacts { set: b"git:abc".to_vec(), boot_content_digest: [7; 32] });
    assert_eq!(t.index_of(b"system/init.tos"), Some(0));
    assert_eq!(t.index_of(b"lib/util.tos"), Some(1));
    assert_eq!(t.index_of(b"/system/init.tos"), None);
    assert_eq!(t.index_of(b"missing.tos"), None);
    assert!(t.holds(2));
    assert!(!t.holds(3));
    assert_eq!(t.units().len(), 3);
    assert_eq!(t.source_set(), b"git:abc");
    assert_eq!(t.boot_content_digest(), &[7; 32]);
    assert_eq!(t.identity(), 42);
}

#[test]
fn a_template_keeps_at_most_what_it_can_hold() {
    let units: Vec<(Vec<u8>, Vec<u8>)> = (0..1030).map(|_| (vec![1u8], vec![])).collect();
    let t = Template::establish(units, 0, SourceFacts { set: vec![5u8; 100], boot_content_digest: [0; 32] });
    assert_eq!(t.units().len(), 1024);
    assert_eq!(t.source_set().len(), 96);
}

#[test]
fn each_path_starts_where_the_relative_paths_before_it_end() {
    let units = vec![
        (b"/system/init.tos".to_vec(), vec![1u8]),
        (b"lib/util.tos".to_vec(), vec![2u8]),
        (b"/a".to_vec(), vec![3u8]),
    ];
    let t = Template::establish(units, 0, SourceFacts { set: vec![], boot_content_digest: [0; 32] });
    assert_eq!(t.path_offset(0), 0);
    assert_eq!(t.path_offset(1), 15);
    assert_eq!(t.path_offset(2), 27);
    assert_eq!(t.path_offset(3), 28);
}

#[test]
fn an_image_header_is_checked_against_the_bytes_that_arrived() {
    let good = ImageHeader { magic: 0x544f_5331, entry: 0x10, text: 0x2000, file: 0x2800, memory: 0x4000 };
    assert_eq!(check_image(good, 0x544f_5331, 0x2800), Ok(()));
    assert_eq!(check_image(good, 0x544f_5332, 0x2800), Err(Unlaunchable::NotARuntimeImage));
    assert_eq!(check_image(good, 0x544f_5331, 0x1fff), Err(Unlaunchable::NotARuntimeImage));
    let entry_outside = ImageHeader { entry: 0x2000, ..good };
    assert_eq!(check_image(entry_outside, 0x544f_5331, 0x2800), Err(Unlaunchable::NotARuntimeImage));
    let ragged = ImageHeader { memory: 0x4001, ..good };
    assert_eq!(check_image(ragged, 0x544f_5331, 0x2800), Err(Unlaunchable::NotARuntimeImage));
}

#[test]
fn a_data_page_carries_what_is_left_of_the_file() {
    assert_eq!(carried(0x2800, 0x2000), 0x800);
    assert_eq!(carried(0x4800, 0x2000), 0x1000);
    assert_eq!(carried(0x2800, 0x3000), 0);
    assert_eq!(capsule_frame(0x12_3456), (0x12_3000, 0x456));
}

#[test]
fn a_launch_record_lays_its_parts_end_to_end() {
    let units = vec![(b"/init.tos".to_vec(), vec![1u8, 2, 3]), (b"lib.tos".to_vec(), vec![4u8])];
    let t = Template::establish(units, 0, SourceFacts { set: vec![], boot_content_digest: [0; 32] });
    let sizes = RecordSizes { launch: 200, unit: 32, capability: 16 };
    let layout = record_layout(&t, sizes, 3).unwrap();
    assert_eq!(layout, RecordLayout { units: RECORD + 200, tail: 264, capabilities_at: 279, bytes: 327 });
    let second = unit_entry(&t, 1, layout, 0x456, 0x100);
    assert_eq!(second.path, RECORD + 264 + 8);
    assert_eq!(second.path_length, 7);
    assert_eq!(second.bytes, SOURCE + 0x456 + 0x100);
    assert_eq!(second.bytes_length, 1);
    let huge = RecordSizes { launch: 200, unit: 32, capability: 0x4_0000 };
    assert_eq!(record_layout(&t, huge, 1), Err(Unlaunchable::TooManyUnits));
    let _ = Context::empty();
}

#[test]
fn a_refused_mapping_is_why_a_launch_failed() {
    let refused = nucleus::paging::PagingRefused::NoFrame;
    assert_eq!(Unlaunchable::from(refused), Unlaunchable::Paging(refused));
    let empty: nucleus::console::Text<8> = Default::default();
    assert_eq!(empty.as_bytes(), b"");
}

#[test]
fn the_mode_is_read_from_the_entry_named_for_it_and_absence_means_production() {
    assert!(interface_present(*b"QEMU"));
    assert!(!interface_present(*b"QEMV"));
    assert_eq!(entries_to_walk([0, 0, 0, 12]), 12);
    assert_eq!(entries_to_walk([0, 0, 1, 0]), 256);
    assert_eq!(entries_to_walk([1, 0, 0, 0]), 256);
    let mut entry = [0u8; 64];
    entry[4] = 0x01;
    entry[5] = 0x2a;
    entry[8..32].copy_from_slice(b"opt/tos/measurement-mode");
    assert_eq!(mode_key(&entry), Some(0x012a));
    let mut longer = entry;
    longer[32] = b'x';
    assert_eq!(mode_key(&longer), None);
    let mut other = entry;
    other[8] = b'e';
    assert_eq!(mode_key(&other), None);
    assert_eq!(mode_of(b'c'), Mode::UnavoidableCrypto);
    assert_eq!(mode_of(b'f'), Mode::FullExact);
}

#[test]
fn a_report_is_drained_once_and_never_past_its_region() {
    let text = b"ab\ncd";
    assert_eq!(drain_text(text, 0, 3), (b"ab\r\n".to_vec(), 3));
    assert_eq!(drain_text(text, 3, 100), (b"cd".to_vec(), 5));
    assert_eq!(drain_text(text, 5, 100), (Vec::new(), 5));
    assert_eq!(drain_text(text, 4, 2), (Vec::new(), 4));
}

#[test]
fn a_launch_record_names_every_address_the_process_will_use() {
    let units = vec![(b"/init.tos".to_vec(), vec![1u8, 2, 3]), (b"lib.tos".to_vec(), vec![4u8])];
    let t = Template::establish(units, 0, SourceFacts { set: b"capsule:abc".to_vec(), boot_content_digest: [0; 32] });
    let layout = record_layout(&t, RecordSizes { launch: 200, unit: 32, capability: 16 }, 3).unwrap();
    let grant = GrantFacts { version: 2, length: 0x10_0000, identity: 42 };
    let h = launch_header(&t, 7, 1, grant, layout);
    assert_eq!((h.version, h.unit_count, h.entry_index), (7, 2, 1));
    assert_eq!((h.grant_version, h.grant_base, h.grant_length, h.grant_identity), (2, GRANT, 0x10_0000, 42));
    assert_eq!(h.units, RECORD + 200);
    assert_eq!(h.capabilities, RECORD + 279);
    assert_eq!((h.report_base, h.report_length), (REPORT, 16 * 4096));
    assert_eq!((h.stack_base, h.stack_length), (STACK, 512 * 4096));
    assert_eq!((h.arguments_base, h.arguments_length), (ARGUMENTS, 4096));
    assert_eq!((h.capability_count, h.reserved), (0, 0));
    assert_eq!(&h.source_set[..11], b"capsule:abc");
    assert!(h.source_set[11..].iter().all(|b| *b == 0));
}

#[test]
fn a_launch_is_refused_before_anything_is_taken_in_a_fixed_order() {
    let units = vec![(b"/init.tos".to_vec(), vec![1u8])];
    let t = Template::establish(units, 0, SourceFacts { set: vec![], boot_content_digest: [0; 32] });
    assert_eq!(launch_admits(None, 0, 4096), Err(Unlaunchable::NoRuntimeImage));
    assert_eq!(launch_admits(Some(&t), 1, 0), Err(Unlaunchable::NoSuchModule));
    assert_eq!(launch_admits(Some(&t), 0, 0), Err(Unlaunchable::NoRuntimeImage));
    assert_eq!(launch_admits(Some(&t), 0, 4096), Ok(()));
}

#[test]
fn no_part_of_a_process_is_both_writable_and_executable() {
    let header = ImageHeader { magic: 0x544f_5331, entry: 0x10, text: 0x2000, file: 0x2800, memory: 0x4000 };
    let plan = mapping_plan(header, 0x3456, 0x10_0000, 0x1000);
    assert_eq!(plan.len(), 8);
    for m in &plan {
        let writable = m.flags & 2 != 0;
        let executable = m.flags & 0x8000_0000_0000_0000 == 0;
        assert!(!(writable && executable), "{:?}", m.area);
        assert_eq!(m.flags & 5, 5);
    }
    assert_eq!(area_flags(Area::Text), 5);
    assert_eq!(area_flags(Area::Source), 0x8000_0000_0000_0005);
    assert_eq!(area_flags(Area::Stack), 0x8000_0000_0000_0007);
    assert_eq!((plan[1].at, plan[1].length), (0x1000_2000, 0x2000));
    assert_eq!(plan[7].at, RECORD);
}
