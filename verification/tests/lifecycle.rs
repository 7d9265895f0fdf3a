use nucleus::boot::{first_logical_line, source_set_identity};
use nucleus::device::{Mappings, Refused as DeviceRefused, MAX_DEVICE_MAPPINGS};
use nucleus::irq::Sources;
use nucleus::pci::Assignments;
use nucleus::process::{
    ChildWait, Ended, Liveness, Preemption, Processes, State, Termination, Turn, Unlaunchable, Waiting, MAX_PROCESSES,
};

fn claimed() -> (Assignments, u32, u32) {
    let mut pci = Assignments::new();
    let bus = pci.endow_root(0, 0, 255).unwrap();
    let (index, generation) = pci.claim(bus, 0, 3, 0).unwrap();
    (pci, index, generation)
}

#[test]
fn a_window_keeps_its_assignment_live_until_it_goes() {
    let (mut pci, a, g) = claimed();
    let mut m = Mappings::new();
    assert_eq!(m.lane_for(1), Ok(0));
    let (index, generation, base, write) = m.map(&mut pci, a, g, 1, 0xfe00_0000, 4096, true, Ok(0x8000_0000), 0).unwrap();
    assert_eq!(base, 0x8000_0000);
    // Memory decoding is now wanted.
    assert_eq!(write, Some(2));
    assert!(m.is_live(index, generation));
    assert_eq!(m.lane_for(1), Ok(1));
    assert_eq!(m.retain(index, generation), Ok(()));
    let gone = m.release(&mut pci, index, generation, 2).unwrap().unwrap();
    assert_eq!((gone.holder, gone.lane), (1, 0));
    assert_eq!(gone.command, Some(0));
    assert!(!m.is_live(index, generation));
    assert_eq!(m.release(&mut pci, index, generation, 0), Err(()));
}

#[test]
fn a_window_that_could_not_be_mapped_records_nothing() {
    let (mut pci, a, g) = claimed();
    let mut m = Mappings::new();
    assert_eq!(m.map(&mut pci, a, g, 1, 0, 4096, false, Err(()), 0), Err(DeviceRefused::Paging));
    assert_eq!(m.lane_for(1), Ok(0));
    // A stale assignment takes no descendant.
    assert_eq!(m.map(&mut pci, a, g + 1, 1, 0, 4096, false, Ok(0), 0), Err(DeviceRefused::Limit));
}

#[test]
fn one_process_cannot_take_every_window() {
    let (mut pci, a, g) = claimed();
    let mut m = Mappings::new();
    for lane in 0..MAX_DEVICE_MAPPINGS as u32 {
        assert_eq!(m.lane_for(2), Ok(lane));
        assert!(m.map(&mut pci, a, g, 2, 0, 4096, true, Ok(0), 2).is_ok());
    }
    assert_eq!(m.lane_for(2), Err(DeviceRefused::Limit));
    assert_eq!(m.lane_for(3), Ok(0));
    let ended = m.clear_process(&mut pci, 2, 2);
    assert_eq!(ended.iter().filter(|u| u.is_some()).count(), MAX_DEVICE_MAPPINGS);
    assert_eq!(m.lane_for(2), Ok(0));
}

#[test]
fn a_dead_process_leaves_no_source_and_no_wait() {
    let (pci, a, g) = claimed();
    let mut s = Sources::new();
    let (slot, vector) = s.reserve(a, g, 0).unwrap();
    let (index, generation) = s.publish(slot, a, g, 0, vector, 1);
    assert_eq!(s.retain(&pci, index, generation), Ok(()));
    let (slot2, vector2) = s.reserve(a, g, 1).unwrap();
    let (index2, generation2) = s.publish(slot2, a, g, 1, vector2, 2);
    s.begin_wait(&pci, index2, generation2, 1);
    let endings = s.clear_process(1);
    assert!(endings[index as usize].is_some());
    assert!(endings[index2 as usize].is_none());
    let e = endings[index as usize].unwrap();
    assert_eq!(e.vector, vector);
    // The other source of the function is still live, so this was not its last.
    assert!(!e.last_of_function);
    assert!(!s.is_live(&pci, index, generation));
    assert!(s.is_live(&pci, index2, generation2));
    assert_eq!(s.source(&pci, index2, generation2).unwrap().waiter, None);
}

#[test]
fn processes_get_slots_and_identities_that_never_come_back() {
    let mut p = Processes::new();
    for expected in 0..MAX_PROCESSES {
        assert_eq!(p.seat(0, None), Ok(expected));
    }
    assert_eq!(p.seat(0, None), Err(Unlaunchable::TooManyProcesses));
    assert_eq!(p.instance(0), 1);
    assert_eq!(p.instance(3), 4);
    assert_eq!(p.generation(2), Some(1));
    p.exited(2, 7);
    assert_eq!(p.generation(2), None);
    assert_eq!(p.retire(2, 100), false);
    assert_eq!(p.generation(2), None);
    assert_eq!(p.ended(2), Ended::Exited(7));
    assert_eq!(p.uncollected(), 0);
    // The retired slot is free again, at a new generation, for a new instance.
    assert_eq!(p.seat(0, None), Ok(2));
    assert_eq!(p.instance(2), 5);
    assert_eq!(p.generation(2), Some(2));
}

#[test]
fn a_reply_token_answers_one_call() {
    let mut p = Processes::new();
    let i = p.seat(0, None).unwrap();
    let token = p.next_reply_token(i);
    assert_eq!(p.reply_token(i), None);
    p.block(i, Waiting::Reply, 3);
    assert_eq!(p.reply_token(i), Some(token));
    assert_eq!(p.blocked_on(Waiting::Reply), Some(i));
    assert!(p.wake(i));
    assert_eq!(p.reply_token(i), None);
    assert_ne!(p.next_reply_token(i), token);
    assert!(!p.wake(i));
}

#[test]
fn a_parent_collects_the_earliest_ending_of_its_children() {
    let mut p = Processes::new();
    let parent = p.seat(0, None).unwrap();
    let parent_instance = p.instance(parent);
    let a = p.seat(parent_instance, Some(9)).unwrap();
    let b = p.seat(parent_instance, None).unwrap();
    p.exited(b, 1);
    assert!(p.retire(b, 10));
    assert_eq!(p.terminate(parent, a, parent), Termination::Ended);
    assert!(p.retire(a, 20));
    assert_eq!(p.uncollected(), 2);
    match p.wait_child(parent, parent_instance, true, 5) {
        ChildWait::Collected(child, record) => {
            assert_eq!(child, b);
            assert_eq!(record.ended, Ended::Exited(1));
            assert_eq!(record.ended_tick, 10);
        }
        other => panic!("unexpected {:?}", other),
    }
    match p.wait_child(parent, parent_instance, true, 5) {
        ChildWait::Collected(child, record) => {
            assert_eq!(child, a);
            assert_eq!(record.ended, Ended::Terminated(parent));
            assert_eq!(record.ended_by, Some(parent_instance));
            assert_eq!(record.restart_generation, Some(9));
        }
        other => panic!("unexpected {:?}", other),
    }
    assert_eq!(p.wait_child(parent, parent_instance, true, 5), ChildWait::WouldBlock);
    assert_eq!(p.wait_child(parent, parent_instance, false, 5), ChildWait::Blocked);
    assert_eq!(p.blocked_on(Waiting::ChildOf(parent_instance)), Some(parent));
}

#[test]
fn an_ended_parents_notices_and_waits_go_with_it() {
    let mut p = Processes::new();
    let parent = p.seat(0, None).unwrap();
    let parent_instance = p.instance(parent);
    let child = p.seat(parent_instance, None).unwrap();
    p.fault(child, 14);
    assert!(p.retire(child, 1));
    assert_eq!(p.uncollected(), 1);
    p.exited(parent, 0);
    assert!(!p.retire(parent, 2));
    assert_eq!(p.uncollected(), 0);
    assert_eq!(p.seat(0, None), Ok(0));
}

#[test]
fn the_scheduler_retires_runs_cancels_and_then_calls_a_deadlock() {
    let mut p = Processes::new();
    let mut live = Liveness { firings: 0, deliveries: 0 };
    assert_eq!(p.next_turn(&mut live, 0), Turn::Finished);
    let a = p.seat(0, None).unwrap();
    let b = p.seat(0, None).unwrap();
    assert_eq!(p.next_turn(&mut live, 0), Turn::Run { index: a, resumes: false });
    p.block(a, Waiting::Message(1), 2);
    assert_eq!(p.next_turn(&mut live, 0), Turn::Run { index: b, resumes: false });
    p.block(b, Waiting::Room(1), 1);
    assert_eq!(p.next_turn(&mut live, 0), Turn::Cancelled);
    assert_eq!(p.next_turn(&mut live, 0), Turn::Run { index: a, resumes: true });
    p.block(a, Waiting::Message(1), 2);
    p.block(b, Waiting::Room(1), 1);
    // Blocked again with no message moved: they wait for each other.
    assert_eq!(p.next_turn(&mut live, 0), Turn::Deadlocked);
    assert_eq!(p.ended(a), Ended::Deadlocked);
    assert_eq!(p.next_turn(&mut live, 0), Turn::Retire(a));
    p.retire(a, 5);
    assert_eq!(p.next_turn(&mut live, 0), Turn::Retire(b));
    p.retire(b, 5);
    assert_eq!(p.next_turn(&mut live, 0), Turn::Finished);
}

#[test]
fn cancelling_every_block_says_who_was_waiting_for_what() {
    let mut p = Processes::new();
    let a = p.seat(0, None).unwrap();
    let b = p.seat(0, None).unwrap();
    p.block(b, Waiting::Message(3), 4);
    assert!(p.any_blocked());
    let woke = p.cancel_every_block();
    assert_eq!(woke, vec![(b, Waiting::Message(3), 4)]);
    assert!(!p.any_blocked());
    assert_eq!(p.first_runnable(), Some(a));
    assert_eq!(p.terminate(a, 3, a), Termination::Refused);
    assert_eq!(p.terminate(a, a, a), Termination::EndedSelf);
    let _ = State::Free;
}

#[test]
fn the_first_logical_line_skips_blanks_and_comments() {
    let text = b"// SPDX-License-Identifier: GPL-3.0-or-later\n\n  # note\r\n\t module system.boot.init\nrest\n";
    assert_eq!(first_logical_line(text), Some(&b"module system.boot.init"[..]));
    assert_eq!(first_logical_line(b"// only\n   \n#x"), None);
    assert_eq!(first_logical_line(b""), None);
    assert_eq!(first_logical_line(b"/ not a comment"), Some(&b"/ not a comment"[..]));
    assert_eq!(first_logical_line(b"x"), Some(&b"x"[..]));
}

#[test]
fn a_source_set_is_named_by_its_kind_and_digest() {
    let mut out = [0xaau8; 96];
    let mut value = [0u8; 32];
    value[0] = 0xab;
    value[31] = 0x09;
    let n = source_set_identity(b"git", &value, &mut out);
    assert_eq!(n, 68);
    assert_eq!(&out[..6], b"git:ab");
    assert_eq!(&out[66..68], b"09");
    assert_eq!(out[68], 0xaa);
    let long = [b'k'; 40];
    assert_eq!(source_set_identity(&long, &value, &mut out), 96);
}

#[test]
fn a_dead_drivers_windows_go_and_the_last_one_turns_memory_decoding_off() {
    let (mut pci, a, g) = claimed();
    let mut m = Mappings::new();
    m.map(&mut pci, a, g, 4, 0xfe00_0000, 4096, true, Ok(0x8000_0000), 0).unwrap();
    m.map(&mut pci, a, g, 4, 0xfe00_1000, 4096, true, Ok(0x8000_1000), 2).unwrap();
    m.map(&mut pci, a, g, 5, 0xfe00_2000, 4096, true, Ok(0x8000_2000), 2).unwrap();
    let ended = m.clear_process(&mut pci, 4, 2);
    let commands: Vec<Option<u64>> = ended.iter().filter_map(|u| u.map(|u| u.command)).collect();
    // Another process still decodes through the function: nothing to write.
    assert_eq!(commands, vec![None, None]);
    let last = m.clear_process(&mut pci, 5, 2);
    let commands: Vec<Option<u64>> = last.iter().filter_map(|u| u.map(|u| u.command)).collect();
    assert_eq!(commands, vec![Some(0)]);
    // Nothing names the assignment and nothing descends from it: it is over.
    assert!(!pci.is_live(a, g));
}

#[test]
fn a_tick_gives_the_processor_to_the_next_runnable_one_and_wraps() {
    let mut p = Processes::new();
    let a = p.seat(0, None).unwrap();
    let b = p.seat(0, None).unwrap();
    let c = p.seat(0, None).unwrap();
    assert_eq!(p.preempt(a, 10), Preemption::Switch { to: b, resumes: false });
    assert_eq!(p.preempt(b, 11), Preemption::Switch { to: c, resumes: false });
    assert_eq!(p.preempt(c, 12), Preemption::Switch { to: a, resumes: false });
    p.block(b, Waiting::Reply, 1);
    p.block(c, Waiting::Reply, 1);
    // One runnable process: no switch onto itself.
    assert_eq!(p.preempt(a, 13), Preemption::Stay);
    assert!(p.wake(b));
    assert_eq!(p.preempt(a, 14), Preemption::Switch { to: b, resumes: true });
    // A slot the table does not call runnable is left alone.
    assert_eq!(p.preempt(c, 15), Preemption::Stay);
}

#[test]
fn a_released_assignment_ends_and_its_slot_returns_under_a_new_generation() {
    let (mut pci, index, generation) = claimed();
    assert_eq!(pci.retain(index, generation), Ok(()));
    assert!(pci.claim(0, 0, 3, 0).is_err());
    assert_eq!(pci.release(index, generation), Ok(()));
    assert!(!pci.is_live(index, generation));
    assert_eq!(pci.release(index, generation), Err(()));
    let (again, next) = pci.claim(0, 0, 3, 0).unwrap();
    assert_eq!(again, index);
    assert_ne!(next, generation);
    assert!(!pci.is_live(index, generation));
    assert!(pci.is_live(again, next));
}
