use findfiles::channel::{Channel, Received, Sent, CAPACITY};
use findfiles::entry::Entry;

fn entry(name: &str) -> Entry {
    Entry { path: vec![name.to_string()], is_dir: false }
}

fn name(r: Received) -> String {
    match r {
        Received::Item(e) => e.path[0].clone(),
        other => panic!("{:?}", other),
    }
}

#[test]
fn new_queue_is_empty_with_one_sender() {
    let c = Channel::new(20);
    assert_eq!(c.len(), 0);
    assert_eq!(c.capacity(), 20);
    assert_eq!(c.senders(), 1);
}

#[test]
fn entries_arrive_in_order() {
    let mut c = Channel::new(3);
    for n in ["a", "b", "c"] {
        assert!(matches!(c.send(entry(n)), Sent::Done));
    }
    assert_eq!(c.len(), 3);
    assert_eq!(name(c.recv()), "a");
    assert!(matches!(c.send(entry("d")), Sent::Done));
    assert_eq!(name(c.recv()), "b");
    assert_eq!(name(c.recv()), "c");
    assert_eq!(name(c.recv()), "d");
    assert!(matches!(c.recv(), Received::Empty));
}

#[test]
fn full_queue_hands_the_entry_back() {
    let mut c = Channel::new(2);
    assert!(matches!(c.send(entry("a")), Sent::Done));
    assert!(matches!(c.send(entry("b")), Sent::Done));
    match c.send(entry("c")) {
        Sent::Full(e) => assert_eq!(e.path, vec!["c".to_string()]),
        other => panic!("{:?}", other),
    }
    assert_eq!(c.len(), 2);
    assert_eq!(name(c.recv()), "a");
    assert!(matches!(c.send(entry("c")), Sent::Done));
    assert_eq!(c.len(), 2);
}

#[test]
fn queue_without_room_takes_nothing() {
    let mut c = Channel::new(0);
    assert!(matches!(c.send(entry("a")), Sent::Full(_)));
    assert_eq!(c.len(), 0);
}

#[test]
fn stream_ends_when_the_last_sender_is_gone() {
    let mut c = Channel::new(4);
    assert!(c.add_sender());
    assert!(c.add_sender());
    assert_eq!(c.senders(), 3);
    assert!(matches!(c.send(entry("a")), Sent::Done));
    c.drop_sender();
    c.drop_sender();
    assert!(matches!(c.send(entry("b")), Sent::Done));
    assert_eq!(name(c.recv()), "a");
    c.drop_sender();
    assert_eq!(c.senders(), 0);
    assert_eq!(name(c.recv()), "b");
    assert!(matches!(c.recv(), Received::Closed));
    assert!(matches!(c.recv(), Received::Closed));
}

#[test]
fn no_sender_comes_back_after_the_last() {
    let mut c = Channel::new(4);
    c.drop_sender();
    assert!(!c.add_sender());
    assert_eq!(c.senders(), 0);
    c.drop_sender();
    assert_eq!(c.senders(), 0);
    match c.send(entry("late")) {
        Sent::NoSender(e) => assert_eq!(e.path, vec!["late".to_string()]),
        other => panic!("{:?}", other),
    }
    assert!(matches!(c.recv(), Received::Closed));
}

#[test]
fn empty_queue_with_a_sender_is_not_at_its_end() {
    let mut c = Channel::new(1);
    assert!(matches!(c.recv(), Received::Empty));
    assert!(matches!(c.send(entry("a")), Sent::Done));
    assert_eq!(name(c.recv()), "a");
    assert!(matches!(c.recv(), Received::Empty));
}

#[test]
fn the_queue_of_a_run_holds_twenty() {
    assert_eq!(CAPACITY, 20);
    let mut c = Channel::new(CAPACITY);
    for n in 0..20 {
        assert!(matches!(c.send(entry(&n.to_string())), Sent::Done));
    }
    assert!(matches!(c.send(entry("one more")), Sent::Full(_)));
    assert_eq!(c.len(), 20);
}
