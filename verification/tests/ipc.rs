use nucleus::capability::Object;
use nucleus::ipc::{Endpoints, Refused, QUEUE_DEPTH};

#[test]
fn messages_come_out_in_the_order_they_went_in() {
    let mut t = Endpoints::new();
    let e = t.create().unwrap();
    assert_eq!(e, 0);
    for n in 0..QUEUE_DEPTH as u8 {
        assert_eq!(t.send(e, &[n, n + 1], &[], &[]), Ok(()));
    }
    assert_eq!(t.send(e, &[9], &[], &[]), Err(Refused::Limit));
    assert_eq!(t.has_room(e), Err(Refused::Limit));
    for n in 0..QUEUE_DEPTH as u8 {
        assert_eq!(t.take(e).unwrap(), vec![n, n + 1]);
    }
    assert_eq!(t.take(e), Err(Refused::WouldBlock));
    // The ring wraps without losing order.
    for round in 0..10u8 {
        assert_eq!(t.send(e, &[round], &[], &[]), Ok(()));
        assert_eq!(t.send(e, &[round, 1], &[], &[]), Ok(()));
        assert_eq!(t.take(e).unwrap(), vec![round]);
        assert_eq!(t.take(e).unwrap(), vec![round, 1]);
    }
    assert_eq!(t.deliveries(), (QUEUE_DEPTH + 20) as u64);
    assert_eq!(t.cost(), ((QUEUE_DEPTH + 20) as u64, 2 * (QUEUE_DEPTH + 20) as u64));
}

#[test]
fn a_message_carries_its_capabilities_and_regions_to_the_receiver() {
    let mut t = Endpoints::new();
    let e = t.create().unwrap();
    let granted = [(Object::Endpoint(2), 1, 0)];
    let regions = [Object::SharedRegion { index: 1, generation: 4 }];
    assert_eq!(t.send(e, &[7], &granted, &regions), Ok(()));
    let pending = t.peek(e).ok().unwrap();
    assert_eq!(pending.granted, granted.to_vec());
    assert_eq!(pending.regions, regions.to_vec());
    assert_eq!(t.take(e).unwrap(), vec![7]);
    assert!(matches!(t.peek(e), Err(Refused::WouldBlock)));
}

#[test]
fn what_cannot_be_carried_is_refused_before_anything_is_queued() {
    let mut t = Endpoints::new();
    assert_eq!(t.send(0, &[1], &[], &[]), Err(Refused::BadArgument));
    let e = t.create().unwrap();
    assert_eq!(t.send(e, &[0u8; 257], &[], &[]), Err(Refused::BadArgument));
    assert_eq!(t.send(e, &[0u8; 256], &[], &[]), Ok(()));
    let five = [(Object::Endpoint(0), 0, 0); 5];
    assert_eq!(t.send(e, &[], &five, &[]), Err(Refused::BadArgument));
    let three = [Object::Vacant; 3];
    assert_eq!(t.send(e, &[], &[], &three), Err(Refused::BadArgument));
    assert_eq!(t.send(9, &[], &[], &[]), Err(Refused::BadArgument));
    assert_eq!(t.has_room(e), Ok(()));
}

#[test]
fn endpoints_are_made_until_there_are_none_left() {
    let mut t = Endpoints::new();
    for expected in 0..4 {
        assert_eq!(t.create(), Some(expected));
    }
    assert_eq!(t.create(), None);
}

#[test]
fn a_handed_payload_arrives_unchanged_and_is_counted() {
    let mut t = Endpoints::new();
    assert_eq!(t.hand(&[1, 2, 3]).unwrap(), vec![1, 2, 3]);
    assert_eq!(t.hand(&[0u8; 300]), Err(Refused::BadArgument));
    assert_eq!(t.deliveries(), 1);
    assert_eq!(t.cost(), (1, 1));
}
