use nucleus::pci::{access_is_valid, address_of, Assignment};

#[test]
fn conventional_space_bounds_every_access() {
    assert!(access_is_valid(0, 4));
    assert!(access_is_valid(0x34, 1));
    assert!(access_is_valid(252, 4));
    assert!(!access_is_valid(256, 1));
    assert!(!access_is_valid(253, 4));
    assert!(!access_is_valid(0, 3));
    assert!(!access_is_valid(0, 8));
    assert!(!access_is_valid(0, 0));
    assert!(!access_is_valid(1, 2));
    assert!(!access_is_valid(2, 4));
}

#[test]
fn an_offsets_low_bits_select_a_byte_and_never_a_register() {
    let entry = Assignment::unclaimed(0, 0, 4, 0);
    assert_eq!(address_of(&entry, 4), address_of(&entry, 7));
    assert_ne!(address_of(&entry, 4), address_of(&entry, 8));
    assert_eq!(address_of(&entry, 0), 0x8000_0000 | (4 << 11));
}
