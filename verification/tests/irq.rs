use nucleus::apic;
use nucleus::irq::{message_for, Sources, DEVICE_VECTORS, FIRST_DEVICE_VECTOR};

#[test]
fn a_message_carries_the_vector_and_nothing_a_caller_chose() {
    let (address, data) = message_for(FIRST_DEVICE_VECTOR);
    assert_eq!(address, apic::LOCAL_APIC);
    assert_eq!(data, u32::from(FIRST_DEVICE_VECTOR));
}

#[test]
fn the_device_range_clears_the_two_vectors_this_system_already_routes() {
    let last = FIRST_DEVICE_VECTOR as usize + DEVICE_VECTORS - 1;
    assert!(FIRST_DEVICE_VECTOR > apic::TIMER_VECTOR);
    assert!(last < apic::SPURIOUS_VECTOR as usize);
}

#[test]
fn the_vector_supply_never_hands_out_a_vector_twice() {
    let mut sources = Sources::new();
    let mut seen = Vec::new();
    for entry in 0..DEVICE_VECTORS as u64 {
        let (_, vector) = sources.reserve(1, 1, entry).unwrap();
        assert!(vector > apic::TIMER_VECTOR && vector < apic::SPURIOUS_VECTOR);
        assert!(!seen.contains(&vector));
        seen.push(vector);
    }
    assert_eq!(seen[0], FIRST_DEVICE_VECTOR);
    assert_eq!(seen[DEVICE_VECTORS - 1], FIRST_DEVICE_VECTOR + DEVICE_VECTORS as u8 - 1);
    assert!(sources.reserve(1, 1, 99).is_err());
}
