use atom::lock::rw::{RwLock, WRITER_BIT};
use atom::lock::spin::SpinLock;

#[test]
fn spin_lock_has_one_holder() {
    let mut on = true;
    let mut l = SpinLock::new(5);
    let g = l.try_lock(&mut on).unwrap();
    assert!(!on);
    assert_eq!(*l.get(&g), 5);
    assert!(l.try_lock(&mut on).is_none());
    assert!(!on);
    l.set(&g, 6);
    l.unlock(g, &mut on);
    assert!(on);
    let g = l.lock(&mut on);
    assert_eq!(*l.get(&g), 6);
    assert!(!on);
    l.unlock(g, &mut on);
    assert!(on);
}

#[test]
fn failed_try_leaves_interrupts() {
    let (mut first, mut second) = (true, true);
    let mut l = SpinLock::new(());
    let g = l.lock(&mut first);
    assert!(l.try_lock(&mut second).is_none());
    assert!(second && !first);
    l.unlock(g, &mut first);
}

#[test]
fn readers_share_and_the_writer_is_alone() {
    let mut on = true;
    let mut l = RwLock::new(1);
    let a = l.read(&mut on);
    let mut on2 = false;
    let b = l.read(&mut on2);
    assert_eq!(*l.get(&a) + *l.get(&b), 2);
    // A writer claims the lock: new readers have to retreat.
    assert!(l.claim());
    assert!(!l.claim());
    assert!(!l.count_reader());
    l.retreat();
    assert!(!l.readers_gone());
    l.read_unlock(a, &mut on);
    l.read_unlock(b, &mut on2);
    assert!(on && !on2);
    assert!(l.readers_gone());
}

#[test]
fn writer_changes_the_value() {
    let mut on = true;
    let mut l = RwLock::new(1);
    let w = l.write(&mut on);
    assert!(!on);
    assert!(!l.count_reader());
    l.set(&w, 2);
    l.write_unlock(w, &mut on);
    assert!(on);
    // The reader that came during the write takes itself back.
    l.retreat();
    let r = l.read(&mut on);
    assert_eq!(*l.get(&r), 2);
    l.read_unlock(r, &mut on);
    assert!(WRITER_BIT > u64::MAX / 2);
}
