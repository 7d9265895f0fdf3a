use nucleus::region::{AuthorityId, Mode, Refusal, Regions};

fn rooted(bytes: usize) -> (Regions, AuthorityId) {
    let mut r = Regions::new();
    let root = r.endow_root(bytes).unwrap();
    (r, root)
}

#[test]
fn reserves_that_take_the_whole_pool_are_refused_as_budget() {
    let mut r = Regions::new();
    assert_eq!(r.endow_root_after_reserves(10, 10), Err(Refusal::Budget));
    assert_eq!(r.endow_root_after_reserves(10, 11), Err(Refusal::Budget));
    let root = r.endow_root_after_reserves(10, 4).unwrap();
    assert_eq!(r.remaining(root), Ok(6));
}

#[test]
fn a_refunded_charge_leaves_the_figures_as_they_were() {
    let (mut r, root) = rooted(1 << 20);
    let remaining = r.remaining(root).unwrap();
    let allocated = r.allocated(root).unwrap();
    let committed = r.committed();
    let receipt = r.charge_grant(root, 5000, 4096).unwrap();
    assert_eq!(receipt.charged(), 8192);
    assert_eq!(r.remaining(root), Ok(remaining - 8192));
    assert_eq!(r.refund_grant(receipt), Ok(()));
    assert_eq!(r.remaining(root), Ok(remaining));
    assert_eq!(r.allocated(root), Ok(allocated));
    assert_eq!(r.committed(), committed);
    assert!(r.accounting_holds());
}

#[test]
fn a_second_receipt_for_a_settled_charge_names_nothing() {
    let (mut r, root) = rooted(1 << 20);
    let receipt = r.charge_grant(root, 4096, 4096).unwrap();
    let duplicate = receipt.forged_duplicate();
    assert_eq!(r.refund_grant(receipt), Ok(()));
    let remaining = r.remaining(root).unwrap();
    assert_eq!(r.refund_grant(duplicate.forged_duplicate()), Err(Refusal::NotFound));
    let again = r.charge_grant(root, 4096, 4096).unwrap();
    assert_eq!(r.refund_grant(duplicate), Err(Refusal::NotFound));
    assert_eq!(r.remaining(root), Ok(remaining - 4096));
    assert_eq!(r.refund_grant(again), Ok(()));
    assert_eq!(r.remaining(root), Ok(remaining));
}

#[test]
fn a_released_allocation_gives_its_bytes_back_and_is_gone() {
    let (mut r, root) = rooted(1 << 20);
    let remaining = r.remaining(root).unwrap();
    let id = r.allocate(root, 300, 7).unwrap();
    assert_eq!(r.remaining(root), Ok(remaining - 300));
    assert_eq!(r.mode(id), Ok(Mode::Mutable));
    assert_eq!(r.release(id), Ok(()));
    assert_eq!(r.remaining(root), Ok(remaining));
    assert_eq!(r.mode(id), Err(Refusal::NotFound));
    assert_eq!(r.release(id), Err(Refusal::NotFound));
}

#[test]
fn a_frozen_region_refuses_a_writable_mapping_for_good() {
    let (mut r, root) = rooted(1 << 20);
    let id = r.allocate(root, 4096, 3).unwrap();
    assert_eq!(r.map(id, true), Ok(()));
    assert_eq!(r.freeze(id, 4), Err(Refusal::NotTheHolder));
    assert_eq!(r.freeze(id, 3), Ok(()));
    assert_eq!(r.mode(id), Ok(Mode::Immutable));
    assert_eq!(r.writable_aliases(id), Ok(0));
    assert_eq!(r.freeze(id, 3), Err(Refusal::WrongMode));
    assert_eq!(r.map(id, false), Ok(()));
    assert_eq!(r.transfer(id, 3, 5), Ok(()));
    assert_eq!(r.map(id, true), Err(Refusal::WrongMode));
    assert_eq!(r.mode(id), Ok(Mode::Immutable));
}

#[test]
fn a_transfer_moves_the_holder_for_later_transfers() {
    let (mut r, root) = rooted(1 << 20);
    let id = r.allocate(root, 4096, 1).unwrap();
    assert_eq!(r.transfer(id, 1, 2), Err(Refusal::WrongMode));
    assert_eq!(r.freeze(id, 1), Ok(()));
    assert_eq!(r.transfer(id, 2, 3), Err(Refusal::NotTheHolder));
    assert_eq!(r.transfer(id, 1, 2), Ok(()));
    assert_eq!(r.transfer(id, 1, 3), Err(Refusal::NotTheHolder));
    assert_eq!(r.transfer(id, 2, 3), Ok(()));
}

#[test]
fn a_stopped_tree_spends_nothing_but_still_takes_refunds() {
    let (mut r, root) = rooted(1 << 20);
    let receipt = r.charge_grant(root, 4096, 1).unwrap();
    let remaining = r.remaining(root).unwrap();
    r.poison();
    assert!(r.stopped());
    assert_eq!(r.charge_grant(root, 4096, 1).err(), Some(Refusal::Stopped));
    assert_eq!(r.allocate(root, 4096, 1), Err(Refusal::Stopped));
    assert_eq!(r.attenuate(root, 4096), Err(Refusal::Stopped));
    assert_eq!(r.remaining(root), Ok(remaining));
    assert_eq!(r.refund_grant(receipt), Ok(()));
    assert_eq!(r.remaining(root), Ok(remaining + 4096));
}
