use nucleus::boot::{capsule_present, entry_module, memory_map_count, module_files, names_module};

#[test]
fn a_memory_map_holds_whole_descriptors_and_at_least_one() {
    assert_eq!(memory_map_count(0), None);
    assert_eq!(memory_map_count(25), None);
    assert_eq!(memory_map_count(24), Some(1));
    assert_eq!(memory_map_count(24 * 40), Some(40));
}

#[test]
fn a_capsule_needs_an_address_and_a_length() {
    assert!(!capsule_present(0, 4096));
    assert!(!capsule_present(0x10_0000, 0));
    assert!(capsule_present(0x10_0000, 4096));
}

#[test]
fn only_tos_files_are_modules_in_capsule_order() {
    assert!(names_module(b"boot.tos"));
    assert!(names_module(b".tos"));
    assert!(!names_module(b"VERSION"));
    assert!(!names_module(b"tos"));
    assert!(!names_module(b"notice.tos.txt"));
    let names: Vec<&[u8]> = vec![b"VERSION", b"init.tos", b"LICENSE", b"lib/net.tos"];
    assert_eq!(module_files(&names), Some(vec![1, 3]));
}

#[test]
fn too_many_modules_are_refused() {
    let many: Vec<&[u8]> = vec![b"m.tos"; 1025];
    assert_eq!(module_files(&many), None);
    let enough: Vec<&[u8]> = vec![b"m.tos"; 1024];
    assert_eq!(module_files(&enough).map(|v| v.len()), Some(1024));
}

#[test]
fn the_entry_is_the_module_the_boot_file_names_or_the_first() {
    let modules: Vec<&[u8]> = vec![b"lib.tos", b"init.tos", b"init.tos"];
    assert_eq!(entry_module(&modules, b"init.tos"), 1);
    assert_eq!(entry_module(&modules, b"other.tos"), 0);
    assert_eq!(entry_module(&[], b"init.tos"), 0);
}
