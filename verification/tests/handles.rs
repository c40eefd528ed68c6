use cycle_cc::{Cc, CcBoxPtr, Color, SyncCycleCollector};

#[test]
fn test_new_cc() {
    let mut root = SyncCycleCollector::new();
    let five = Cc::new(5, &mut root);
    // drop(five)
    root.decrement(five);
    root.collect_cycles();
}

#[test]
fn test_dead() {
    let mut root = SyncCycleCollector::new();
    let x = Cc::new(5, &mut root);
    let y = x.downgrade(&mut root);
    // drop(x)
    root.decrement(x);
    root.collect_cycles();
    assert!(y.upgrade(&mut root).is_none());
    root.drop_weak(y);
}

#[test]
fn acyclic_singleton_is_freed() {
    let mut root = SyncCycleCollector::new();
    let x = Cc::new(5, &mut root);
    assert_eq!(root.nodes.len(), 1);
    assert_eq!(root.nodes[0].metadata.strong, 1);
    assert_eq!(root.nodes[0].metadata.weak, 1);
    root.decrement(x);
    root.collect_cycles();
    // One allocation, one deallocation: the single header is a tombstone.
    assert_eq!(root.nodes.len(), 1);
    assert_eq!(root.nodes[0].metadata.strong, 0);
    assert_eq!(root.nodes[0].metadata.weak, 0);
    assert!(root.nodes[0].dropped);
    assert!(root.roots.is_empty());
}

#[test]
fn weak_survives_strong() {
    let mut root = SyncCycleCollector::new();
    let x = Cc::new(5, &mut root);
    let y = x.downgrade(&mut root);
    assert_eq!(root.nodes[0].metadata.weak, 2);
    root.decrement(x);
    root.collect_cycles();
    // The payload is gone but the header survives for the weak handle.
    assert!(root.nodes[0].dropped);
    assert_eq!(root.nodes[0].metadata.strong, 0);
    assert_eq!(root.nodes[0].metadata.weak, 1);
    assert!(y.upgrade(&mut root).is_none());
    root.drop_weak(y);
    // Only now is the header freed.
    assert_eq!(root.nodes[0].metadata.weak, 0);
    assert!(root.nodes[0].dropped);
}

#[test]
fn upgrade_while_live_yields_strong() {
    let mut root = SyncCycleCollector::new();
    let x = Cc::new(7, &mut root);
    let y = x.downgrade(&mut root);
    let z = y.upgrade(&mut root);
    assert!(z.is_some());
    let z = z.unwrap();
    assert_eq!(root.nodes[0].metadata.strong, 2);
    assert_eq!(z.deref(&root), 7);
    root.decrement(z);
    root.decrement(x);
    root.collect_cycles();
    root.drop_weak(y);
    assert_eq!(root.nodes[0].metadata.weak, 0);
}

#[test]
fn clone_forces_black_and_counts() {
    let mut root = SyncCycleCollector::new();
    let x = Cc::new(3, &mut root);
    let x2 = root.increment(&x);
    assert_eq!(root.nodes[0].metadata.strong, 2);
    assert_eq!(root.nodes[0].metadata.color, Color::Black);
    assert_eq!(x2.get_ptr(), x.get_ptr());
    // Strong count is the running ledger of increments and decrements:
    // 1 (allocation) + 1 increment - 1 decrement = 1.
    root.decrement(x2);
    assert_eq!(root.nodes[0].metadata.strong, 1);
    root.collect_cycles();
    root.decrement(x);
    root.collect_cycles();
    assert_eq!(root.nodes[0].metadata.strong, 0);
    assert_eq!(root.nodes[0].metadata.weak, 0);
}

#[test]
fn trait_accessors_read_the_header() {
    let mut root = SyncCycleCollector::new();
    let x = Cc::new(9, &mut root);
    assert_eq!(x.get_ptr(), 0);
    assert_eq!(x.strong(&root), 1);
    assert_eq!(x.weak(&root), 1);
    assert!(!x.buffered(&root));
    assert_eq!(x.color(&root), Color::Black);
    let w = x.downgrade(&mut root);
    assert_eq!(w.strong(&root), 1);
    assert_eq!(w.weak(&root), 2);
    assert_eq!(x.metadata(&root).strong(), 1);
    root.decrement(x);
    root.collect_cycles();
    root.drop_weak(w);
}
