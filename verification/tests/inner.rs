use lib::{Inner, Listener, MemoryMode, PegTable, Replay};

#[test]
fn is_memory_by_mode() {
    assert!(!MemoryMode::NoMemory.is_memory());
    assert!(MemoryMode::KeepUntilEnd.is_memory());
    assert!(MemoryMode::KeepAfterEnd.is_memory());
}

#[test]
fn new_inner_keeps_mode_and_memory() {
    let inner: Inner<u32> = Inner::new(MemoryMode::KeepAfterEnd, Some(3));
    assert_eq!(inner.memory_mode(), MemoryMode::KeepAfterEnd);
    assert_eq!(inner.peek_memory(), &Some(3));
}

#[test]
fn update_delivers_to_listeners_in_order() {
    let mut table = PegTable::new();
    let mut inner: Inner<u32> = Inner::new(MemoryMode::NoMemory, None);
    let (_p1, r1) = inner.add(&mut table, Listener::Callback(1));
    let (_p2, r2) = inner.add(&mut table, Listener::Imitate(4));
    let (_p3, r3) = inner.add(&mut table, Listener::Callback(3));
    assert_eq!(r1, Replay::Nothing);
    assert_eq!(r2, Replay::Nothing);
    assert_eq!(r3, Replay::Nothing);
    let ls = inner.update_owned(&table, Some(42));
    assert_eq!(ls, vec![Listener::Callback(1), Listener::Imitate(4), Listener::Callback(3)]);
    assert_eq!(inner.peek_memory(), &None);
}

#[test]
fn unpegged_listener_is_not_called() {
    let mut table = PegTable::new();
    let mut inner: Inner<u32> = Inner::new(MemoryMode::NoMemory, None);
    let (p1, _) = inner.add(&mut table, Listener::Callback(1));
    let (_p2, _) = inner.add(&mut table, Listener::Callback(2));
    p1.unpeg(&mut table);
    assert_eq!(inner.update_owned(&table, Some(1)), vec![Listener::Callback(2)]);
}

#[test]
fn end_stops_the_stream() {
    let mut table = PegTable::new();
    let mut inner: Inner<u32> = Inner::new(MemoryMode::NoMemory, None);
    let (_p1, _) = inner.add(&mut table, Listener::Callback(1));
    assert_eq!(inner.update_owned(&table, None), vec![Listener::Callback(1)]);
    // ended: later events are ignored
    assert_eq!(inner.update_owned(&table, Some(5)), Vec::<Listener>::new());
    assert_eq!(inner.update_borrowed(&table, Some(&5)), Vec::<Listener>::new());
    // a listener added now is told the end and not kept
    let (peg, replay) = inner.add(&mut table, Listener::Callback(9));
    assert_eq!(replay, Replay::End);
    peg.unpeg(&mut table);
    assert_eq!(inner.update_owned(&table, Some(6)), Vec::<Listener>::new());
}

#[test]
fn keep_until_end_forgets_at_end() {
    let table = PegTable::new();
    let mut inner: Inner<u32> = Inner::new(MemoryMode::KeepUntilEnd, None);
    inner.update_owned(&table, Some(7));
    assert_eq!(inner.peek_memory(), &Some(7));
    inner.update_owned(&table, Some(8));
    assert_eq!(inner.peek_memory(), &Some(8));
    inner.update_owned(&table, None);
    assert_eq!(inner.peek_memory(), &None);
}

#[test]
fn keep_after_end_remembers_last_value() {
    let table = PegTable::new();
    let mut inner: Inner<u32> = Inner::new(MemoryMode::KeepAfterEnd, None);
    inner.update_owned(&table, Some(7));
    inner.update_owned(&table, None);
    assert_eq!(inner.peek_memory(), &Some(7));
    // ended: a new value is not remembered
    inner.update_owned(&table, Some(9));
    assert_eq!(inner.peek_memory(), &Some(7));
    assert_eq!(inner.take_memory(), Some(7));
    assert_eq!(inner.peek_memory(), &None);
}

#[test]
fn no_memory_remembers_nothing() {
    let table = PegTable::new();
    let mut inner: Inner<u32> = Inner::new(MemoryMode::NoMemory, Some(1));
    inner.update_owned(&table, Some(7));
    assert_eq!(inner.peek_memory(), &Some(1));
    inner.update_owned(&table, None);
    assert_eq!(inner.peek_memory(), &Some(1));
}

#[test]
fn new_listener_is_told_remembered_value() {
    let mut table = PegTable::new();
    let mut inner: Inner<u32> = Inner::new(MemoryMode::KeepUntilEnd, None);
    let (_p, r) = inner.add(&mut table, Listener::Callback(1));
    assert_eq!(r, Replay::Nothing);
    inner.update_owned(&table, Some(4));
    let (_p2, r2) = inner.add(&mut table, Listener::Callback(2));
    assert_eq!(r2, Replay::Memory);
    assert_eq!(inner.peek_memory(), &Some(4));
    // without memory mode nothing is replayed
    let mut plain: Inner<u32> = Inner::new(MemoryMode::NoMemory, Some(4));
    let (_p3, r3) = plain.add(&mut table, Listener::Callback(3));
    assert_eq!(r3, Replay::Nothing);
}

#[test]
fn update_borrowed_leaves_memory() {
    let mut table = PegTable::new();
    let mut inner: Inner<u32> = Inner::new(MemoryMode::KeepUntilEnd, Some(1));
    let (_p, _) = inner.add(&mut table, Listener::Callback(1));
    assert_eq!(inner.update_borrowed(&table, Some(&5)), vec![Listener::Callback(1)]);
    assert_eq!(inner.peek_memory(), &Some(1));
    assert_eq!(inner.update_borrowed(&table, None), vec![Listener::Callback(1)]);
    assert_eq!(inner.peek_memory(), &Some(1));
    assert_eq!(inner.update_borrowed(&table, Some(&6)), Vec::<Listener>::new());
}
