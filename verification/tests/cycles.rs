use cycle_cc::{Cc, Color, SyncCycleCollector, collect_cycles};

#[test]
fn test_self_ref_cc() {
    let mut root = SyncCycleCollector::new();
    let cycle = Cc::new(0, &mut root);
    let inner = root.increment(&cycle);
    root.add_child(&cycle, inner);
    println!("{:?}", root);
    // drop(cycle)
    root.decrement(cycle);
    root.collect_cycles();
}

#[test]
fn test_simple_ref_cycle() {
    let mut root = SyncCycleCollector::new();
    let obj1 = Cc::new(0, &mut root);
    let obj2 = Cc::new(0, &mut root);
    let obj2_clone = root.increment(&obj2);
    root.add_child(&obj1, obj2_clone);
    let obj1_clone = root.increment(&obj1);
    root.add_child(&obj2, obj1_clone);
    println!("Cycle made");
    println!("dropping obj2 now");
    root.decrement(obj2);
    root.collect_cycles();
    println!("obj2 dropped");
    println!("dropping obj1 now");
    root.decrement(obj1);
    root.collect_cycles();
    println!("obj1 dropped");
    println!("{:?}", root);
}

#[test]
fn self_cycle_is_collected() {
    let mut root = SyncCycleCollector::new();
    let a = Cc::new(0, &mut root);
    let a_clone = root.increment(&a);
    root.add_child(&a, a_clone);
    assert_eq!(root.nodes[0].metadata.strong, 2);
    root.decrement(a);
    root.collect_cycles();
    // The self-cycle is unreachable: freed, and the roots buffer is empty.
    assert!(root.nodes[0].dropped);
    assert_eq!(root.nodes[0].metadata.strong, 0);
    assert_eq!(root.nodes[0].metadata.weak, 0);
    assert!(root.roots.is_empty());
}

#[test]
fn two_node_cycle_is_collected() {
    let mut root = SyncCycleCollector::new();
    let a = Cc::new(1, &mut root);
    let b = Cc::new(2, &mut root);
    let b_clone = root.increment(&b);
    root.add_child(&a, b_clone);
    let a_clone = root.increment(&a);
    root.add_child(&b, a_clone);
    root.decrement(b);
    root.collect_cycles();
    // Still reachable through the external handle on `a`.
    assert!(!root.nodes[0].dropped);
    assert!(!root.nodes[1].dropped);
    root.decrement(a);
    root.collect_cycles();
    // Both freed exactly once: counts at zero, headers tombstoned.
    assert!(root.nodes[0].dropped);
    assert!(root.nodes[1].dropped);
    assert_eq!(root.nodes[0].metadata.strong, 0);
    assert_eq!(root.nodes[1].metadata.strong, 0);
    assert_eq!(root.nodes[0].metadata.weak, 0);
    assert_eq!(root.nodes[1].metadata.weak, 0);
    assert!(root.roots.is_empty());
}

#[test]
fn cycle_with_external_reference_survives() {
    let mut root = SyncCycleCollector::new();
    let a = Cc::new(1, &mut root);
    let b = Cc::new(2, &mut root);
    let b_clone = root.increment(&b);
    root.add_child(&a, b_clone);
    let a_clone = root.increment(&a);
    root.add_child(&b, a_clone);
    // Retain an outside clone of `a`, then drop the building handles.
    let a_outside = root.increment(&a);
    root.decrement(b);
    root.collect_cycles();
    root.decrement(a);
    root.collect_cycles();
    let strong_a = root.nodes[0].metadata.strong;
    let strong_b = root.nodes[1].metadata.strong;
    // Nothing freed; a collection pass leaves the counts as they were and
    // returns every color to Black.
    collect_cycles(&mut root);
    assert!(!root.nodes[0].dropped);
    assert!(!root.nodes[1].dropped);
    assert_eq!(root.nodes[0].metadata.strong, strong_a);
    assert_eq!(root.nodes[1].metadata.strong, strong_b);
    assert_eq!(root.nodes[0].metadata.color, Color::Black);
    assert_eq!(root.nodes[1].metadata.color, Color::Black);
    assert_eq!(a_outside.deref(&root), 1);
    root.decrement(a_outside);
    root.collect_cycles();
    assert!(root.nodes[0].dropped);
    assert!(root.nodes[1].dropped);
}

#[test]
fn chain_of_four_with_cross_link() {
    let mut root = SyncCycleCollector::new();
    let a = Cc::new(1, &mut root);
    let b = Cc::new(2, &mut root);
    let c = Cc::new(3, &mut root);
    let d = Cc::new(4, &mut root);
    let b_clone = root.increment(&b);
    root.add_child(&a, b_clone);
    let c_clone = root.increment(&c);
    root.add_child(&b, c_clone);
    let d_clone = root.increment(&d);
    root.add_child(&c, d_clone);
    let b_clone2 = root.increment(&b);
    root.add_child(&d, b_clone2);
    // Drop every external handle.
    root.decrement(a);
    root.collect_cycles();
    // `a` goes by plain reference counting.
    assert!(root.nodes[0].dropped);
    assert_eq!(root.nodes[0].metadata.weak, 0);
    root.decrement(b);
    root.collect_cycles();
    root.decrement(c);
    root.collect_cycles();
    root.decrement(d);
    root.collect_cycles();
    // `b`, `c`, `d` go by cycle collection.
    assert!(root.nodes[1].dropped);
    assert!(root.nodes[2].dropped);
    assert!(root.nodes[3].dropped);
    assert_eq!(root.nodes[1].metadata.weak, 0);
    assert_eq!(root.nodes[2].metadata.weak, 0);
    assert_eq!(root.nodes[3].metadata.weak, 0);
    assert!(root.roots.is_empty());
}

#[test]
fn batched_drops_two_node_cycle_reclaimed_in_one_pass() {
    let mut root = SyncCycleCollector::new();
    let a = Cc::new(1, &mut root);
    let b = Cc::new(2, &mut root);
    let b_clone = root.increment(&b);
    root.add_child(&a, b_clone);
    let a_clone = root.increment(&a);
    root.add_child(&b, a_clone);
    // Drop both externals without collecting in between: the buffer holds
    // the Purple pair, seed first.
    root.decrement(b);
    root.decrement(a);
    assert_eq!(root.roots, vec![1, 0]);
    assert_eq!(root.nodes[0].metadata.color, Color::Purple);
    assert_eq!(root.nodes[1].metadata.color, Color::Purple);
    // One batched collection reclaims the whole cycle.
    root.collect_cycles();
    assert!(root.nodes[0].dropped && root.nodes[1].dropped);
    assert_eq!(root.nodes[0].metadata.weak, 0);
    assert_eq!(root.nodes[1].metadata.weak, 0);
    assert!(root.roots.is_empty());
}

#[test]
fn batched_drops_externally_rooted_pair_survives_one_pass() {
    let mut root = SyncCycleCollector::new();
    let a = Cc::new(1, &mut root);
    let b = Cc::new(2, &mut root);
    let b_clone = root.increment(&b);
    root.add_child(&a, b_clone);
    let a_clone = root.increment(&a);
    root.add_child(&b, a_clone);
    let b_outside = root.increment(&b);
    // Drop one handle on each cell without collecting in between.
    root.decrement(a);
    root.decrement(b);
    assert_eq!(root.roots, vec![0, 1]);
    let strong_a = root.nodes[0].metadata.strong;
    let strong_b = root.nodes[1].metadata.strong;
    root.collect_cycles();
    // Nothing freed: the outside clone of `b` keeps the pair alive, counts
    // come back restored and colors return to Black.
    assert_eq!(root.nodes[0].metadata.strong, strong_a);
    assert_eq!(root.nodes[1].metadata.strong, strong_b);
    assert_eq!(root.nodes[0].metadata.color, Color::Black);
    assert_eq!(root.nodes[1].metadata.color, Color::Black);
    assert!(!root.nodes[0].dropped && !root.nodes[1].dropped);
    assert!(root.roots.is_empty());
    root.decrement(b_outside);
    root.collect_cycles();
    assert!(root.nodes[0].dropped && root.nodes[1].dropped);
}
