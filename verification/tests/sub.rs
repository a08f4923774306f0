use lib::{Listeners, PegTable, Subscription};

#[test]
fn iter_returns_pegged_listeners_in_order() {
    let mut table = PegTable::new();
    let mut ls: Listeners<u32> = Listeners::new();
    let _p1 = ls.add(&mut table, 1);
    let p2 = ls.add(&mut table, 2);
    let _p3 = ls.add(&mut table, 3);
    assert_eq!(ls.iter(&table), vec![1, 2, 3]);
    p2.unpeg(&mut table);
    assert_eq!(ls.iter(&table), vec![1, 3]);
    assert_eq!(ls.iter(&table), vec![1, 3]);
}

#[test]
fn unsubscribe_stops_delivery() {
    let mut table = PegTable::new();
    let mut ls: Listeners<u32> = Listeners::new();
    let p1 = ls.add(&mut table, 7);
    let _p2 = ls.add(&mut table, 8);
    let sub = Subscription::new(p1);
    sub.unsubscribe(&mut table);
    assert_eq!(ls.iter(&table), vec![8]);
    // a second unsubscribe changes nothing
    sub.unsubscribe(&mut table);
    assert_eq!(ls.iter(&table), vec![8]);
}

#[test]
fn released_peg_drops_listener() {
    let mut table = PegTable::new();
    let mut ls: Listeners<u32> = Listeners::new();
    let p1 = ls.add(&mut table, 7);
    p1.release(&mut table);
    assert_eq!(ls.iter(&table), Vec::<u32>::new());
}

#[test]
fn kept_listener_survives_its_peg() {
    let mut table = PegTable::new();
    let mut ls: Listeners<u32> = Listeners::new();
    let p1 = ls.add(&mut table, 7);
    p1.keep_mode(&mut table);
    p1.release(&mut table);
    assert_eq!(ls.iter(&table), vec![7]);
}

#[test]
fn clear_drops_all_listeners() {
    let mut table = PegTable::new();
    let mut ls: Listeners<u32> = Listeners::new();
    let _p1 = ls.add(&mut table, 1);
    let _p2 = ls.add(&mut table, 2);
    ls.clear();
    assert_eq!(ls.iter(&table), Vec::<u32>::new());
}

#[test]
fn subscription_clone_keeps_listener_until_both_dropped() {
    let mut table = PegTable::new();
    let mut ls: Listeners<u32> = Listeners::new();
    let p1 = ls.add(&mut table, 7);
    let sub = Subscription::new(p1);
    let sub2 = sub.share(&mut table);
    sub.release(&mut table);
    assert_eq!(ls.iter(&table), vec![7]);
    sub2.release(&mut table);
    assert_eq!(ls.iter(&table), Vec::<u32>::new());
}
