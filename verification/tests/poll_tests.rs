use revisor::poll::{PollEvents, Poller, Reaction, INPUT_BITS, OUTPUT_BITS};

#[test]
fn events_contain_and_union() {
    let both = PollEvents::input() | PollEvents::output();
    assert_eq!(both.bits, INPUT_BITS | OUTPUT_BITS);
    assert!(both.contains(PollEvents::input()));
    assert!(!PollEvents::input().contains(PollEvents::output()));
    assert!(!PollEvents::none().contains(both));
    let mut e = PollEvents::none();
    e |= PollEvents::output();
    assert_eq!(e.bits, OUTPUT_BITS);
    assert_eq!(PollEvents::none().union(PollEvents::input()).bits, INPUT_BITS);
}

#[test]
fn add_and_remove_keep_handles_valid() {
    let mut p = Poller::new();
    let a = p.add(10, PollEvents::input(), "a");
    let b = p.add(11, PollEvents::input(), "b");
    let c = p.add(12, PollEvents::output(), "c");
    assert_eq!(p.num_items(), 3);
    assert_eq!(p.remove(a), Some((10, "a")));
    assert_eq!(p.num_items(), 2);
    assert_eq!(p.remove(a), None);
    let fds: Vec<i32> = p.pollfds().iter().map(|f| f.fd).collect();
    assert_eq!(fds, vec![12, 11]);
    assert_eq!(p.remove(c), Some((12, "c")));
    assert_eq!(p.remove(b), Some((11, "b")));
    assert_eq!(p.num_items(), 0);
}

#[test]
fn empty_poller_cannot_poll() {
    let p: Poller<()> = Poller::new();
    match p.poll_timeout_for(None) {
        Err(e) => {
            assert_eq!(e.syscall_name, "poll(NULL, 0, -1)");
            assert_eq!(e.io_err.raw_os_error(), Some(revisor::sys::EINVAL));
        }
        Ok(_) => panic!("an empty poller cannot poll"),
    }
}

#[test]
fn poll_timeouts_in_milliseconds() {
    let mut p = Poller::new();
    p.add(3, PollEvents::input(), ());
    assert_eq!(p.poll_timeout_for(None).ok(), Some(-1));
    assert_eq!(p.poll_timeout_for(Some(1500)).ok(), Some(1500));
    assert_eq!(p.poll_timeout_for(Some(1u64 << 32)).ok(), Some(0));
}

#[test]
fn ready_lists_entries_with_events() {
    let mut p = Poller::new();
    p.add(3, PollEvents::input(), 'x');
    p.add(4, PollEvents::input(), 'y');
    p.add(5, PollEvents::input(), 'z');
    p.record_revents(&[0, INPUT_BITS, 8]);
    let ready = p.ready();
    assert_eq!(ready.len(), 2);
    assert_eq!((ready[0].fd, ready[0].events.bits, *ready[0].user_item), (4, INPUT_BITS, 'y'));
    assert_eq!((ready[1].fd, ready[1].events.bits, *ready[1].user_item), (5, 8, 'z'));
}

#[test]
fn react_applies_reactions_and_skips_idle_entries() {
    let mut p = Poller::new();
    p.add(3, PollEvents::input(), 0u32);
    p.add(4, PollEvents::input(), 0u32);
    p.add(5, PollEvents::input(), 0u32);
    p.add(6, PollEvents::input(), 0u32);
    p.record_revents(&[INPUT_BITS, 0, INPUT_BITS, INPUT_BITS]);
    let mut seen = Vec::new();
    p.react(|entry| {
        seen.push(entry.fd);
        *entry.user_item += 1;
        match entry.fd {
            3 => Some(Reaction::Remove),
            5 => Some(Reaction::Events(PollEvents::output())),
            _ => None,
        }
    });
    assert_eq!(seen, vec![3, 6, 5]);
    let fds: Vec<(i32, i16)> = p.pollfds().iter().map(|f| (f.fd, f.events)).collect();
    assert_eq!(fds, vec![(6, INPUT_BITS), (4, INPUT_BITS), (5, OUTPUT_BITS)]);
}

#[test]
fn apply_reaction_steps() {
    let mut p = Poller::new();
    p.add(3, PollEvents::input(), ());
    p.add(4, PollEvents::input(), ());
    assert_eq!(p.apply_reaction(0, None), 1);
    assert_eq!(p.apply_reaction(0, Some(Reaction::Events(PollEvents::output()))), 1);
    assert_eq!(p.pollfds()[0].events, OUTPUT_BITS);
    assert_eq!(p.apply_reaction(0, Some(Reaction::Remove)), 0);
    assert_eq!(p.pollfds()[0].fd, 4);
}

#[test]
fn react_lends_each_ready_entry_its_own_item() {
    let mut p = Poller::new();
    let a = p.add(3, PollEvents::input(), 30u32);
    let b = p.add(4, PollEvents::input(), 40u32);
    let c = p.add(5, PollEvents::input(), 50u32);
    let d = p.add(6, PollEvents::input(), 60u32);
    p.record_revents(&[INPUT_BITS, INPUT_BITS, 0, INPUT_BITS]);
    let mut seen = Vec::new();
    p.react(|entry| {
        seen.push((entry.fd, *entry.user_item));
        *entry.user_item += 1;
        match entry.fd {
            3 => Some(Reaction::Remove),
            4 => Some(Reaction::Events(PollEvents::output())),
            _ => None,
        }
    });
    assert_eq!(seen, vec![(3, 30), (6, 60), (4, 40)]);
    assert_eq!(p.remove(a), None);
    assert_eq!(p.remove(b), Some((4, 41)));
    assert_eq!(p.remove(c), Some((5, 50)));
    assert_eq!(p.remove(d), Some((6, 61)));
}

#[test]
fn handles_give_back_what_add_got_when_items_are_left_alone() {
    let mut p = Poller::new();
    let a = p.add(3, PollEvents::input(), "a");
    let b = p.add(4, PollEvents::input(), "b");
    let c = p.add(5, PollEvents::input(), "c");
    p.record_revents(&[INPUT_BITS, INPUT_BITS, 0]);
    p.react(|entry| match entry.fd {
        3 => Some(Reaction::Remove),
        _ => Some(Reaction::Events(PollEvents::output())),
    });
    assert_eq!(p.num_items(), 2);
    assert_eq!(p.remove(a), None);
    assert_eq!(p.remove(c), Some((5, "c")));
    assert_eq!(p.remove(b), Some((4, "b")));
}
