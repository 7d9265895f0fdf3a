use nucleus::capability::{
    handle, parts, Binding, Capabilities, Endowment, NotGranted, Object, ProcessFacts, Refused,
    MAX_CAPABILITIES, OBJECT_ENDPOINT, OBJECT_PROCESS, RIGHT_RECEIVE,
};
use nucleus::pci::Assignments;
use nucleus::plan::{Entry as PlanEntry, PlanId, Plans, Refusal as PlanRefusal};
use nucleus::region::Regions;

const SEND: u32 = 1;

fn world() -> (Capabilities, Regions, Assignments, Plans, Vec<ProcessFacts>) {
    let facts = vec![
        ProcessFacts { generation: Some(1), reply_token: Some(1) },
        ProcessFacts { generation: Some(1), reply_token: Some(1) },
        ProcessFacts { generation: None, reply_token: None },
        ProcessFacts { generation: None, reply_token: None },
    ];
    (Capabilities::new(), Regions::new(), Assignments::new(), Plans::new(), facts)
}

#[test]
fn a_handle_gives_back_its_index_and_generation() {
    assert_eq!(handle(3, 7), (7u64 << 32) | 3);
    assert_eq!(parts(handle(3, 7)), (3, 7));
    assert_eq!(parts(handle(15, u32::MAX)), (15, u32::MAX));
}

#[test]
fn a_granted_capability_resolves_with_the_rights_it_was_given() {
    let (mut c, mut r, mut p, plans, facts) = world();
    let h = c.grant(&mut r, &mut p, 0, Object::Endpoint(2), SEND, 0).unwrap();
    assert_eq!(h, handle(0, 1));
    assert_eq!(c.resolve(&r, &p, &plans, &facts, 0, h, SEND), Ok(Object::Endpoint(2)));
    assert_eq!(c.rights_of(0, h), SEND);
    // A right it was not given.
    assert_eq!(c.resolve(&r, &p, &plans, &facts, 0, h, RIGHT_RECEIVE), Err(Refused::NoCapability));
    // A process whose table holds nothing names nothing, at every index.
    assert_eq!(c.resolve(&r, &p, &plans, &facts, 1, h, SEND), Err(Refused::BadHandle));
    // Once it holds something, an index of its table that names nothing is
    // no capability.
    c.grant(&mut r, &mut p, 1, Object::Endpoint(3), SEND, 0).unwrap();
    assert_eq!(c.resolve(&r, &p, &plans, &facts, 1, handle(5, 1), SEND), Err(Refused::NoCapability));
}

#[test]
fn an_index_outside_the_table_is_a_bad_handle() {
    let (c, r, p, plans, facts) = world();
    assert_eq!(c.resolve(&r, &p, &plans, &facts, 0, handle(MAX_CAPABILITIES, 1), 0), Err(Refused::BadHandle));
    assert_eq!(c.resolve(&r, &p, &plans, &facts, 4, handle(0, 1), 0), Err(Refused::BadHandle));
    // An empty table has no index inside it.
    assert_eq!(c.resolve(&r, &p, &plans, &facts, 0, 0, 0), Err(Refused::BadHandle));
    assert_eq!(c.rights_of(0, 0), 0);
}

#[test]
fn a_released_handle_is_stale_and_its_slot_comes_back_under_a_new_generation() {
    let (mut c, mut r, mut p, mut plans, facts) = world();
    let h = c.grant(&mut r, &mut p, 0, Object::Endpoint(1), SEND, 0).unwrap();
    assert_eq!(c.release(&mut r, &mut p, &mut plans, 0, h), Ok(()));
    // The table holds nothing again.
    assert_eq!(c.resolve(&r, &p, &plans, &facts, 0, h, 0), Err(Refused::BadHandle));
    assert_eq!(c.release(&mut r, &mut p, &mut plans, 0, h), Err(Refused::NoCapability));
    let again = c.grant(&mut r, &mut p, 0, Object::Endpoint(3), SEND, 0).unwrap();
    assert_eq!(parts(again), (0, 2));
    assert_eq!(c.resolve(&r, &p, &plans, &facts, 0, h, 0), Err(Refused::NoCapability));
    assert_eq!(c.resolve(&r, &p, &plans, &facts, 0, again, SEND), Ok(Object::Endpoint(3)));
}

#[test]
fn an_endpoint_has_one_receiving_process() {
    let (mut c, mut r, mut p, _plans, _facts) = world();
    assert!(c.grant(&mut r, &mut p, 0, Object::Endpoint(1), RIGHT_RECEIVE, 0).is_ok());
    assert_eq!(
        c.grant(&mut r, &mut p, 1, Object::Endpoint(1), RIGHT_RECEIVE, 0),
        Err(NotGranted::ReceiverExists)
    );
    // The holder may hold it twice, and anyone may send.
    assert!(c.grant(&mut r, &mut p, 0, Object::Endpoint(1), RIGHT_RECEIVE, 0).is_ok());
    assert!(c.grant(&mut r, &mut p, 1, Object::Endpoint(1), SEND, 0).is_ok());
    // Another endpoint is another question.
    assert!(c.grant(&mut r, &mut p, 1, Object::Endpoint(2), RIGHT_RECEIVE, 0).is_ok());
}

#[test]
fn a_full_table_refuses_and_says_so() {
    let (mut c, mut r, mut p, _plans, _facts) = world();
    for _ in 0..MAX_CAPABILITIES {
        assert!(c.grant(&mut r, &mut p, 2, Object::Endpoint(0), SEND, 0).is_ok());
    }
    assert_eq!(c.grant(&mut r, &mut p, 2, Object::Endpoint(0), SEND, 0), Err(NotGranted::NoRoom));
    assert!(!c.has_room(2));
    assert_eq!(c.room(2), 0);
    assert_eq!(c.held(2), MAX_CAPABILITIES);
    assert_eq!(c.names_held(2, Object::Endpoint(0)), MAX_CAPABILITIES);
    assert_eq!(c.room(3), MAX_CAPABILITIES);
    assert_eq!(c.grant(&mut r, &mut p, 4, Object::Endpoint(0), SEND, 0), Err(NotGranted::NoRoom));
}

#[test]
fn attenuation_narrows_and_never_widens() {
    let (mut c, mut r, mut p, mut plans, facts) = world();
    let h = c.grant(&mut r, &mut p, 0, Object::Endpoint(1), SEND | 4, 9).unwrap();
    let narrower = c.attenuate(&mut r, &mut p, 0, h, SEND | 8, 9).unwrap();
    assert_eq!(c.rights_of(0, narrower), SEND);
    assert_eq!(c.attenuate(&mut r, &mut p, 0, h, 8, 9), Err(Refused::NoCapability));
    assert_eq!(c.attenuate(&mut r, &mut p, 0, h, SEND, 10), Err(Refused::NoCapability));
    // A plan is affine: refinement would make a second name.
    let id = plans.create().unwrap();
    let builder = c
        .grant(&mut r, &mut p, 0, Object::LaunchPlanBuilder { index: id.index, generation: id.generation }, SEND, 0)
        .unwrap();
    assert_eq!(c.attenuate(&mut r, &mut p, 0, builder, SEND, 0), Err(Refused::NoCapability));
    assert_eq!(
        c.resolve(&r, &p, &plans, &facts, 0, builder, SEND),
        Ok(Object::LaunchPlanBuilder { index: id.index, generation: id.generation })
    );
}

#[test]
fn memory_authority_names_are_counted_and_given_back() {
    let (mut c, mut r, mut p, mut plans, facts) = world();
    let id = r.endow_root(4096).unwrap();
    let object = Object::MemoryAuthority { index: id.index, generation: id.generation };
    let h = c.grant(&mut r, &mut p, 0, object, SEND, 0).unwrap();
    assert_eq!(r.names(id), Ok(2));
    assert_eq!(c.resolve(&r, &p, &plans, &facts, 0, h, SEND), Ok(object));
    c.clear(&mut r, &mut p, &mut plans, 0);
    assert_eq!(r.names(id), Ok(1));
    assert_eq!(c.held(0), 0);
    assert_eq!(c.resolve(&r, &p, &plans, &facts, 0, h, SEND), Err(Refused::BadHandle));
}

#[test]
fn a_process_capability_dies_with_its_process() {
    let (mut c, mut r, mut p, plans, mut facts) = world();
    let object = Object::Process { slot: 1, generation: 1 };
    let h = c.grant(&mut r, &mut p, 0, object, SEND, 0).unwrap();
    assert_eq!(c.resolve(&r, &p, &plans, &facts, 0, h, SEND), Ok(object));
    facts[1].generation = Some(2);
    assert_eq!(c.resolve(&r, &p, &plans, &facts, 0, h, SEND), Err(Refused::NoCapability));
}

#[test]
fn a_region_does_not_arrive_by_being_granted() {
    let (mut c, mut r, mut p, _plans, _facts) = world();
    assert_eq!(
        c.grant(&mut r, &mut p, 0, Object::SharedRegion { index: 0, generation: 1 }, SEND, 0),
        Err(NotGranted::NoRoom)
    );
    assert_eq!(c.held(0), 0);
}

#[test]
fn replacing_in_place_makes_the_old_handle_stale() {
    let (mut c, mut r, mut p, plans, facts) = world();
    let h = c.grant(&mut r, &mut p, 0, Object::Endpoint(1), SEND, 0).unwrap();
    let h2 = c.replace_in_place(0, h, Object::Endpoint(2), SEND, 0).unwrap();
    assert_eq!(parts(h2), (parts(h).0, parts(h).1 + 1));
    assert_eq!(c.resolve(&r, &p, &plans, &facts, 0, h, SEND), Err(Refused::NoCapability));
    assert_eq!(c.resolve(&r, &p, &plans, &facts, 0, h2, SEND), Ok(Object::Endpoint(2)));
    assert_eq!(c.replace_in_place(0, h, Object::Endpoint(2), SEND, 0), Err(Refused::NoCapability));
}

#[test]
fn a_plan_holds_its_entries_names_until_it_is_destroyed() {
    let (mut c, mut r, mut p, mut plans, facts) = world();
    let authority = r.endow_root(8192).unwrap();
    let object = Object::MemoryAuthority { index: authority.index, generation: authority.generation };
    let id = plans.create().unwrap();
    let entry = PlanEntry { binding: Binding::new(&[109, 101, 109]).unwrap(), object, rights: SEND, scope: 0 };
    assert_eq!(plans.endow(&mut r, &mut p, id, entry), Ok(()));
    assert_eq!(r.names(authority), Ok(2));
    // A builder is not a decision anything may be created from.
    assert!(matches!(plans.entries(id), Err(PlanRefusal::WrongState)));
    let sealed = plans.seal(id).unwrap();
    assert_eq!(sealed, PlanId { index: id.index, generation: id.generation + 1 });
    assert!(!plans.is_live(id));
    assert!(plans.is_live(sealed));
    assert_eq!(plans.entries(sealed).unwrap().len(), 1);
    let nested = PlanEntry { binding: Binding::none(), object: Object::Endpoint(0), rights: SEND, scope: 0 };
    assert_eq!(plans.endow(&mut r, &mut p, sealed, nested), Err(PlanRefusal::WrongState));
    // The one capability naming the plan goes, and the plan with it.
    let h = c
        .grant(&mut r, &mut p, 1, Object::LaunchPlan { index: sealed.index, generation: sealed.generation }, SEND, 0)
        .unwrap();
    assert_eq!(plans.live(), 1);
    assert_eq!(c.release(&mut r, &mut p, &mut plans, 1, h), Ok(()));
    assert_eq!(plans.live(), 0);
    assert_eq!(r.names(authority), Ok(1));
    assert_eq!(
        c.resolve(&r, &p, &plans, &facts, 1, h, SEND),
        Err(Refused::BadHandle)
    );
}

#[test]
fn a_message_that_cannot_carry_everything_takes_no_name() {
    let (_c, mut r, mut p, _plans, _facts) = world();
    let authority = r.endow_root(4096).unwrap();
    let object = Object::MemoryAuthority { index: authority.index, generation: authority.generation };
    let message = [(object, SEND, 0), (Object::LaunchPlan { index: 0, generation: 1 }, SEND, 0)];
    assert_eq!(
        nucleus::capability::retain_in_transit(&mut r, &mut p, &message),
        Err(NotGranted::NoRoom)
    );
    assert_eq!(r.names(authority), Ok(1));
    let carried = [(object, SEND, 0), (Object::Vacant, 0, 0), (Object::Endpoint(1), SEND, 0)];
    assert_eq!(nucleus::capability::retain_in_transit(&mut r, &mut p, &carried), Ok(()));
    assert_eq!(r.names(authority), Ok(2));
    nucleus::capability::release_from_transit(&mut r, &mut p, &carried);
    assert_eq!(r.names(authority), Ok(1));
}

#[test]
fn a_delivery_is_checked_whole_before_anything_is_granted() {
    let (mut c, mut r, mut p, _plans, _facts) = world();
    assert!(c.grant(&mut r, &mut p, 0, Object::Endpoint(1), RIGHT_RECEIVE, 0).is_ok());
    let fine = [(Object::Endpoint(1), SEND, 0), (Object::Endpoint(2), RIGHT_RECEIVE, 0)];
    assert!(c.can_grant_all(&r, 1, &fine));
    let conflicting = [(Object::Endpoint(2), SEND, 0), (Object::Endpoint(1), RIGHT_RECEIVE, 0)];
    assert!(!c.can_grant_all(&r, 1, &conflicting));
    assert!(c.can_grant_all(&r, 0, &conflicting));
    let stale = [(Object::MemoryAuthority { index: 5, generation: 9 }, SEND, 0)];
    assert!(!c.can_grant_all(&r, 1, &stale));
}

#[test]
fn an_endowment_is_refused_whole_before_the_process_exists() {
    let (mut c, mut r, mut p, plans, facts) = world();
    let receive = |endpoint: u32| Endowment::Existing {
        binding: Binding::none(),
        object: Object::Endpoint(endpoint),
        rights: RIGHT_RECEIVE,
        scope: 0,
    };
    assert_eq!(c.endowable(&r, &p, &plans, &facts, &[receive(1), receive(2)]), Ok(()));
    assert_eq!(
        c.endowable(&r, &p, &plans, &facts, &[receive(1), receive(1)]),
        Err(NotGranted::ReceiverExists)
    );
    let region = Endowment::Existing {
        binding: Binding::none(),
        object: Object::Region { index: 0, generation: 1 },
        rights: SEND,
        scope: 0,
    };
    // A region that does not exist is refused for being dead, first.
    assert_eq!(c.endowable(&r, &p, &plans, &facts, &[region]), Err(NotGranted::NoRoom));
    let too_many: Vec<Endowment> = (0..17).map(|_| Endowment::Own { binding: Binding::none(), rights: 0 }).collect();
    assert_eq!(c.endowable(&r, &p, &plans, &facts, &too_many), Err(NotGranted::NoRoom));
    assert!(c.grant(&mut r, &mut p, 3, Object::Endpoint(1), RIGHT_RECEIVE, 0).is_ok());
    assert_eq!(c.endowable(&r, &p, &plans, &facts, &[receive(1)]), Err(NotGranted::ReceiverExists));
}

#[test]
fn an_endowment_is_written_and_described_back() {
    let (mut c, mut r, mut p, _plans, facts) = world();
    let endowment = [
        Endowment::Existing {
            binding: Binding::new(&[105, 110]).unwrap(),
            object: Object::Endpoint(3),
            rights: RIGHT_RECEIVE,
            scope: 0,
        },
        Endowment::Own { binding: Binding::new(&[115, 101, 108, 102]).unwrap(), rights: SEND },
        Endowment::Remainder { binding: Binding::none(), rights: SEND },
        Endowment::Existing { binding: Binding::none(), object: Object::Endpoint(4), rights: SEND, scope: 0 },
    ];
    let records = c.endow(&mut r, &mut p, &facts, 1, &endowment);
    assert_eq!(records.len(), 2);
    assert_eq!(records[0].handle, handle(0, 1));
    assert_eq!(records[0].object, OBJECT_ENDPOINT);
    assert_eq!(records[0].rights, RIGHT_RECEIVE);
    assert_eq!(records[0].binding.as_bytes(), &[105, 110]);
    assert_eq!(records[1].handle, handle(1, 1));
    assert_eq!(records[1].object, OBJECT_PROCESS);
    assert_eq!(records[1].binding.as_bytes(), &[115, 101, 108, 102]);
    assert_eq!(c.held(1), 2);
    // A process with no generation cannot be given authority over itself.
    let own = [Endowment::Own { binding: Binding::none(), rights: SEND }];
    assert_eq!(c.endow(&mut r, &mut p, &facts, 2, &own).len(), 0);
}

#[test]
fn a_binding_is_carried_whole_or_refused() {
    assert!(Binding::new(&[0u8; 64]).is_some());
    assert!(Binding::new(&[0u8; 65]).is_none());
    assert_eq!(Binding::new(&[1, 2, 3]).unwrap().as_bytes(), &[1, 2, 3]);
    assert_eq!(Binding::none().as_bytes().len(), 0);
}

#[test]
fn objects_say_what_they_are() {
    assert!(Object::Region { index: 0, generation: 1 }.is_affine());
    assert!(!Object::SharedRegion { index: 0, generation: 1 }.is_affine());
    assert!(Object::SharedRegion { index: 0, generation: 1 }.is_region());
    assert_eq!(Object::LaunchPlan { index: 2, generation: 3 }.plan(), Some(PlanId { index: 2, generation: 3 }));
    assert_eq!(Object::Endpoint(1).plan(), None);
    assert_eq!(Object::Region { index: 1, generation: 2 }.kind(), Object::SharedRegion { index: 1, generation: 2 }.kind());
    assert_eq!(Object::Endpoint(1).kind(), OBJECT_ENDPOINT);
}

#[test]
fn a_refused_message_gives_back_every_name_it_took_however_often() {
    let (_c, mut r, mut p, _plans, _facts) = world();
    let authority = r.endow_root(4096).unwrap();
    let bus = p.endow_root(0, 0, 255).unwrap();
    let (index, generation) = p.claim(bus, 0, 3, 0).unwrap();
    assert_eq!(p.retain(index, generation), Ok(()));
    let memory = Object::MemoryAuthority { index: authority.index, generation: authority.generation };
    let function = Object::PciFunction { index, generation };
    let message = [
        (memory, SEND, 0),
        (function, SEND, 0),
        (memory, SEND, 0),
        (function, SEND, 0),
        (Object::LaunchPlan { index: 0, generation: 1 }, SEND, 0),
    ];
    assert_eq!(nucleus::capability::retain_in_transit(&mut r, &mut p, &message), Err(NotGranted::NoRoom));
    assert_eq!(r.names(authority), Ok(1));
    assert!(p.is_live(index, generation));
    assert_eq!(p.release(index, generation), Ok(()));
    assert!(!p.is_live(index, generation));
    assert_eq!(p.release(index, generation), Err(()));
}
