use lib::{Peg, PegTable, Pegged};

#[test]
fn test_peg_no_keep() {
    let mut table = PegTable::new();
    let (pegged, peg) = Pegged::new_pair(&mut table, ());
    assert!(pegged.with_value(&table).is_some());
    peg.release(&mut table);
    assert!(pegged.with_value(&table).is_none());
}

#[test]
fn test_peg_keep_mode() {
    let mut table = PegTable::new();
    let (pegged, peg) = Pegged::new_pair(&mut table, ());
    assert!(pegged.with_value(&table).is_some());
    peg.keep_mode(&mut table);
    peg.release(&mut table);
    assert!(pegged.with_value(&table).is_some());
}

#[test]
fn pegged_value_is_the_one_given() {
    let mut table = PegTable::new();
    let (a, _pa) = Pegged::new_pair(&mut table, 10u32);
    let (b, _pb) = Pegged::new_pair(&mut table, 20u32);
    assert_eq!(a.cell, 0);
    assert_eq!(b.cell, 1);
    assert_eq!(a.with_value(&table), Some(&10));
    assert_eq!(b.with_value(&table), Some(&20));
}

#[test]
fn unpeg_clears_only_its_own_value() {
    let mut table = PegTable::new();
    let (a, pa) = Pegged::new_pair(&mut table, 1u8);
    let (b, _pb) = Pegged::new_pair(&mut table, 2u8);
    pa.unpeg(&mut table);
    assert!(a.with_value(&table).is_none());
    assert_eq!(b.with_value(&table), Some(&2));
    // unpegging again does nothing more
    pa.unpeg(&mut table);
    assert!(a.with_value(&table).is_none());
    assert_eq!(b.with_value(&table), Some(&2));
}

#[test]
fn unpeg_after_keep_mode_does_nothing() {
    let mut table = PegTable::new();
    let (a, pa) = Pegged::new_pair(&mut table, 'x');
    pa.keep_mode(&mut table);
    pa.unpeg(&mut table);
    assert_eq!(a.with_value(&table), Some(&'x'));
}

#[test]
fn shared_handle_keeps_value_until_last_release() {
    let mut table = PegTable::new();
    let (a, pa) = Pegged::new_pair(&mut table, 5i32);
    let pa2 = pa.share(&mut table);
    pa.release(&mut table);
    // the clone still holds the slot
    assert_eq!(a.with_value(&table), Some(&5));
    pa2.release(&mut table);
    assert!(a.with_value(&table).is_none());
}

#[test]
fn shared_handle_unpeg_reaches_the_same_slot() {
    let mut table = PegTable::new();
    let (a, pa) = Pegged::new_pair(&mut table, 5i32);
    let pa2 = pa.share(&mut table);
    pa2.unpeg(&mut table);
    assert!(a.with_value(&table).is_none());
    pa.release(&mut table);
    pa2.release(&mut table);
    assert!(a.with_value(&table).is_none());
}

#[test]
fn fake_peg_releases_nothing() {
    let mut table = PegTable::new();
    let (a, _pa) = Pegged::new_pair(&mut table, 1u64);
    let fake = Peg::new_fake();
    fake.unpeg(&mut table);
    fake.release(&mut table);
    assert_eq!(a.with_value(&table), Some(&1));
}

#[test]
fn many_releases_all_related_pegs() {
    let mut table = PegTable::new();
    let (a, pa) = Pegged::new_pair(&mut table, 1u64);
    let (b, pb) = Pegged::new_pair(&mut table, 2u64);
    let (c, pc) = Pegged::new_pair(&mut table, 3u64);
    let many = Peg::many(vec![pa, pb]);
    // unpegging the container runs no destructor of the related pegs
    many.unpeg(&mut table);
    assert!(a.with_value(&table).is_some());
    assert!(b.with_value(&table).is_some());
    many.release(&mut table);
    assert!(a.with_value(&table).is_none());
    assert!(b.with_value(&table).is_none());
    assert_eq!(c.with_value(&table), Some(&3));
    pc.release(&mut table);
    assert!(c.with_value(&table).is_none());
}

#[test]
fn add_related_goes_with_its_owner() {
    let mut table = PegTable::new();
    let (a, mut pa) = Pegged::new_pair(&mut table, 1u64);
    let (b, pb) = Pegged::new_pair(&mut table, 2u64);
    let (c, pc) = Pegged::new_pair(&mut table, 3u64);
    pa.add_related(pb);
    pa.add_related(pc);
    pa.release(&mut table);
    assert!(a.with_value(&table).is_none());
    assert!(b.with_value(&table).is_none());
    assert!(c.with_value(&table).is_none());
}

#[test]
fn shared_many_releases_related_with_last_handle() {
    let mut table = PegTable::new();
    let (a, pa) = Pegged::new_pair(&mut table, 1u64);
    let mut fake = Peg::new_fake();
    fake.add_related(pa);
    let clone = fake.share(&mut table);
    fake.release(&mut table);
    assert!(a.with_value(&table).is_some());
    clone.release(&mut table);
    assert!(a.with_value(&table).is_none());
}

#[test]
fn keep_until_unpeg_survives_release_not_unpeg() {
    let mut table = PegTable::new();
    let (a, pa) = Pegged::new_pair(&mut table, 1u8);
    pa.keep_until_unpeg(&mut table);
    let pb = pa.share(&mut table);
    pa.unpeg(&mut table);
    assert!(a.with_value(&table).is_none());
    pb.release(&mut table);
    let (b, pc) = Pegged::new_pair(&mut table, 2u8);
    pc.keep_until_unpeg(&mut table);
    pc.release(&mut table);
    assert_eq!(b.with_value(&table), Some(&2));
}

#[test]
fn with_value_mut_changes_a_pegged_value() {
    let mut table = PegTable::new();
    let (mut a, pa) = Pegged::new_pair(&mut table, 1u8);
    if let Some(v) = a.with_value_mut(&table) {
        *v = 9;
    }
    assert_eq!(a.with_value(&table), Some(&9));
    pa.unpeg(&mut table);
    assert!(a.with_value_mut(&table).is_none());
    assert_eq!(a.value, 9);
}

#[test]
fn many_keeps_related_until_its_last_clone_goes() {
    let mut table = PegTable::new();
    table.show_wf();
    let (a, pa) = Pegged::new_pair(&mut table, 1u8);
    let p = Peg::many(vec![pa]);
    let q = p.share(&mut table);
    p.release(&mut table);
    assert_eq!(a.with_value(&table), Some(&1));
    q.release(&mut table);
    assert!(a.with_value(&table).is_none());
}
