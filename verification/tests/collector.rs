use cycle_cc::{
    AccBoxMetaData, BoxMetaData, Cc, Color, MetaData, ParCycleCollector, SyncCycleCollector,
    SyncOrConcurrent,
};

#[test]
fn buffered_iff_in_roots_buffer() {
    let mut root = SyncCycleCollector::new();
    let a = Cc::new(0, &mut root);
    let b = Cc::new(0, &mut root);
    let a2 = root.increment(&a);
    // Two decrements on `a` that keep it alive: enrolled once, not twice.
    root.decrement(a2);
    let a3 = root.increment(&a);
    root.decrement(a3);
    for i in 0..root.nodes.len() {
        let occurrences = root.roots.iter().filter(|p| **p == i).count();
        if root.nodes[i].metadata.buffered {
            assert_eq!(occurrences, 1);
        } else {
            assert_eq!(occurrences, 0);
        }
    }
    assert!(root.nodes[0].metadata.buffered);
    assert!(!root.nodes[1].metadata.buffered);
    root.decrement(a);
    root.collect_cycles();
    root.decrement(b);
    root.collect_cycles();
    assert!(root.roots.is_empty());
}

#[test]
fn strong_count_is_increments_minus_decrements() {
    let mut root = SyncCycleCollector::new();
    let x = Cc::new(0, &mut root);
    // Allocation starts the ledger at 1.
    let mut live = vec![x];
    for _ in 0..4 {
        let h = root.increment(live.last().unwrap());
        live.push(h);
    }
    assert_eq!(root.nodes[0].metadata.strong, 5);
    root.decrement(live.pop().unwrap());
    root.decrement(live.pop().unwrap());
    // 1 + 4 increments == 2 decrements + 3 live.
    assert_eq!(root.nodes[0].metadata.strong, 3);
    while let Some(h) = live.pop() {
        root.decrement(h);
    }
    root.collect_cycles();
    assert_eq!(root.nodes[0].metadata.strong, 0);
}

#[test]
fn collect_cycles_is_idempotent_when_quiescent() {
    let mut root = SyncCycleCollector::new();
    let a = Cc::new(1, &mut root);
    let a_clone = root.increment(&a);
    root.add_child(&a, a_clone);
    let b = Cc::new(2, &mut root);
    root.decrement(a);
    root.collect_cycles();
    assert!(root.roots.is_empty());
    // A second pass on the now-quiescent collector frees nothing and
    // mutates no header.
    let snapshot = root.nodes.clone();
    root.collect_cycles();
    assert_eq!(root.nodes, snapshot);
    assert!(root.roots.is_empty());
    root.decrement(b);
    root.collect_cycles();
}

#[test]
fn collect_cycles_on_empty_collector_is_noop() {
    let mut root = SyncCycleCollector::new();
    root.collect_cycles();
    assert!(root.roots.is_empty());
    assert!(root.nodes.is_empty());
}

#[test]
fn mark_gray_then_scan_black_restores_childless_root() {
    let mut root = SyncCycleCollector::new();
    let x = Cc::new(7, &mut root);
    let strong_before = root.nodes[0].metadata.strong;
    root.mark_gray(0);
    assert_eq!(root.nodes[0].metadata.color, Color::Gray);
    assert_eq!(root.nodes[0].metadata.strong, strong_before);
    root.scan_black(0);
    assert_eq!(root.nodes[0].metadata.color, Color::Black);
    // Round trip: the strong count is back to its pre-pass value.
    assert_eq!(root.nodes[0].metadata.strong, strong_before);
    root.decrement(x);
    root.collect_cycles();
}

#[test]
fn mark_gray_trial_deletes_internal_edges() {
    let mut root = SyncCycleCollector::new();
    let a = Cc::new(0, &mut root);
    let b = Cc::new(0, &mut root);
    let b_clone = root.increment(&b);
    root.add_child(&a, b_clone);
    // b: one external handle + one edge.
    assert_eq!(root.nodes[1].metadata.strong, 2);
    root.mark_gray(0);
    // The internal edge was subtracted; the external handle survives.
    assert_eq!(root.nodes[1].metadata.strong, 1);
    assert_eq!(root.nodes[0].metadata.color, Color::Gray);
    assert_eq!(root.nodes[1].metadata.color, Color::Gray);
    root.scan_black(0);
    assert_eq!(root.nodes[1].metadata.strong, 2);
    assert_eq!(root.nodes[0].metadata.color, Color::Black);
    assert_eq!(root.nodes[1].metadata.color, Color::Black);
    root.decrement(a);
    root.collect_cycles();
    root.decrement(b);
    root.collect_cycles();
}

#[test]
fn scan_whitens_dead_and_rescues_live() {
    let mut root = SyncCycleCollector::new();
    let a = Cc::new(0, &mut root);
    root.mark_gray(0);
    // Trial deletion left the count at 1 (no internal edge): rescued.
    root.scan(0);
    assert_eq!(root.nodes[0].metadata.color, Color::Black);
    // A gray cell with no surviving count is confirmed White.
    let b = Cc::new(0, &mut root);
    let b_clone = root.increment(&b);
    root.add_child(&b, b_clone);
    root.decrement(b);
    // b now owes its whole count to its self-edge.
    root.mark_gray(1);
    root.scan(1);
    assert_eq!(root.nodes[1].metadata.color, Color::White);
    root.collect_cycles();
    root.decrement(a);
    root.collect_cycles();
}

#[test]
fn free_removes_the_implicit_weak() {
    let mut root = SyncCycleCollector::new();
    let x = Cc::new(0, &mut root);
    let w = x.downgrade(&mut root);
    root.decrement(x);
    root.collect_cycles();
    assert_eq!(root.nodes[0].metadata.weak, 1);
    root.drop_weak(w);
    assert_eq!(root.nodes[0].metadata.weak, 0);
    assert!(root.nodes[0].dropped);
}

#[test]
fn sync_or_concurrent_try_into() {
    let sync = SyncOrConcurrent::sync_cc(SyncCycleCollector::new());
    let got = sync.try_into_sync_cc();
    assert!(got.is_ok());
    let sync2 = SyncOrConcurrent::sync_cc(SyncCycleCollector::new());
    let err = sync2.try_into_concurrent_cc();
    assert!(err.is_err());
    let conc = SyncOrConcurrent::concurrent_cc(ParCycleCollector::new());
    let got2 = conc.try_into_concurrent_cc();
    assert!(got2.is_ok());
    let conc2 = SyncOrConcurrent::concurrent_cc(ParCycleCollector::new());
    let err2 = conc2.try_into_sync_cc();
    assert!(err2.is_err());
}

#[test]
fn sync_or_concurrent_add_root_dispatches() {
    let mut conc = SyncOrConcurrent::concurrent_cc(ParCycleCollector::new());
    conc.add_root(0);
    if let SyncOrConcurrent::concurrent_cc(cc) = conc {
        assert_eq!(cc.cycle_buffer, vec![0]);
    } else {
        panic!("expected the concurrent variant");
    }
}

#[test]
fn box_metadata_dispatches_both_header_kinds() {
    let sync = SyncOrConcurrent::sync_cc(SyncCycleCollector::new());
    let mut m = BoxMetaData::with(&sync);
    assert!(!m.is_atomic());
    assert_eq!(m.strong(), 1);
    assert_eq!(m.weak(), 1);
    assert!(!m.buffered());
    assert_eq!(m.color(), Color::Black);
    assert_eq!(m.inc_strong(), 2);
    assert_eq!(m.dec_strong(), 1);
    assert_eq!(m.inc_weak(), 2);
    assert_eq!(m.dec_weak(), 1);
    m.set_buffered(true);
    assert!(m.buffered());
    m.set_color(Color::Purple);
    assert_eq!(m.color(), Color::Purple);

    let conc = SyncOrConcurrent::concurrent_cc(ParCycleCollector::new());
    let mut a = BoxMetaData::with(&conc);
    assert!(a.is_atomic());
    assert_eq!(a.inc_strong(), 2);
    assert_eq!(a.dec_weak(), 0);
}

#[test]
fn acc_metadata_maintains_crc() {
    let mut m = AccBoxMetaData::with();
    assert_eq!(m.crc(), 0);
    m.inc_crc();
    m.inc_crc();
    assert_eq!(m.crc(), 2);
    m.dec_crc();
    assert_eq!(m.crc(), 1);
    let strong_now = m.update_crc();
    assert_eq!(strong_now, 1);
    assert_eq!(m.crc(), 1);
}

#[test]
fn par_collector_increment_rescues_black() {
    let mut cc = ParCycleCollector::new();
    let mut first = AccBoxMetaData::with();
    first.color = Color::Gray;
    cc.nodes.push(cycle_cc::AccBox { metadata: first, children: vec![1] });
    let mut second = AccBoxMetaData::with();
    second.color = Color::Gray;
    cc.nodes.push(cycle_cc::AccBox { metadata: second, children: vec![] });
    cc.increment(0);
    assert_eq!(cc.nodes[0].metadata.strong, 2);
    assert_eq!(cc.nodes[0].metadata.color, Color::Black);
    // The eager rescue recolored the gray child Black.
    assert_eq!(cc.nodes[1].metadata.color, Color::Black);
}

#[test]
fn par_collector_decrement_schedules_release() {
    let mut cc = ParCycleCollector::new();
    cc.nodes.push(cycle_cc::AccBox {
        metadata: AccBoxMetaData::with(),
        children: vec![],
    });
    cc.increment(0);
    cc.decrement(0);
    assert!(cc.cycle_buffer.is_empty());
    cc.decrement(0);
    assert_eq!(cc.nodes[0].metadata.strong, 0);
    assert_eq!(cc.cycle_buffer, vec![0]);
}

#[test]
fn round_trip_restores_self_cycle_count() {
    let mut root = SyncCycleCollector::new();
    let a = Cc::new(0, &mut root);
    let a_clone = root.increment(&a);
    root.add_child(&a, a_clone);
    // A spurious decrement-and-reclone turns the root Purple.
    let a2 = root.increment(&a);
    root.decrement(a2);
    assert_eq!(root.nodes[0].metadata.color, Color::Purple);
    let strong_before = root.nodes[0].metadata.strong;
    cycle_cc::mark_scan_round_trip(&mut root, 0);
    assert_eq!(root.nodes[0].metadata.strong, strong_before);
    assert_eq!(root.nodes[0].metadata.color, Color::Black);
    root.collect_cycles();
    root.decrement(a);
    root.collect_cycles();
    assert!(root.nodes[0].dropped);
}

#[test]
fn from_wraps_either_collector() {
    let s: SyncOrConcurrent = SyncOrConcurrent::from(SyncCycleCollector::new());
    assert!(matches!(s, SyncOrConcurrent::sync_cc(_)));
    let c: SyncOrConcurrent = SyncOrConcurrent::from(ParCycleCollector::new());
    assert!(matches!(c, SyncOrConcurrent::concurrent_cc(_)));
}

#[test]
fn round_trip_restores_two_node_cycle_counts() {
    let mut root = SyncCycleCollector::new();
    let a = Cc::new(1, &mut root);
    let b = Cc::new(2, &mut root);
    let b_clone = root.increment(&b);
    root.add_child(&a, b_clone);
    let a_clone = root.increment(&a);
    root.add_child(&b, a_clone);
    let strong_a = root.nodes[0].metadata.strong;
    let strong_b = root.nodes[1].metadata.strong;
    cycle_cc::mark_scan_round_trip_pair(&mut root, 0);
    assert_eq!(root.nodes[0].metadata.strong, strong_a);
    assert_eq!(root.nodes[1].metadata.strong, strong_b);
    assert_eq!(root.nodes[0].metadata.color, Color::Black);
    assert_eq!(root.nodes[1].metadata.color, Color::Black);
    root.decrement(b);
    root.collect_cycles();
    root.decrement(a);
    root.collect_cycles();
    assert!(root.nodes[0].dropped && root.nodes[1].dropped);
}

#[test]
fn buffered_dead_header_freed_by_next_pass() {
    let mut root = SyncCycleCollector::new();
    let x = Cc::new(4, &mut root);
    let x2 = root.increment(&x);
    // A decrement that leaves the cell alive buffers it as a candidate.
    root.decrement(x2);
    assert!(root.nodes[0].metadata.buffered);
    // The last handle dies while the cell sits in the buffer: released,
    // Black, dead — but the buffer entry keeps the header alive.
    root.decrement(x);
    assert_eq!(root.nodes[0].metadata.strong, 0);
    assert_eq!(root.nodes[0].metadata.color, Color::Black);
    assert_eq!(root.nodes[0].metadata.weak, 1);
    assert_eq!(root.roots, vec![0]);
    // The next pass drains the dead entry and frees the header.
    root.collect_cycles();
    assert!(root.nodes[0].dropped);
    assert_eq!(root.nodes[0].metadata.weak, 0);
    assert!(root.roots.is_empty());
}

#[test]
fn mark_scan_cover_a_three_cell_chain() {
    let mut root = SyncCycleCollector::new();
    let a = Cc::new(1, &mut root);
    let b = Cc::new(2, &mut root);
    let c = Cc::new(3, &mut root);
    let b_clone = root.increment(&b);
    root.add_child(&a, b_clone);
    let c_clone = root.increment(&c);
    root.add_child(&b, c_clone);
    // Trial deletion grays the whole reachable chain and subtracts one
    // unit per traversed edge.
    root.mark_gray(0);
    assert_eq!(root.nodes[0].metadata.color, Color::Gray);
    assert_eq!(root.nodes[1].metadata.color, Color::Gray);
    assert_eq!(root.nodes[2].metadata.color, Color::Gray);
    assert_eq!(root.nodes[1].metadata.strong, 1);
    assert_eq!(root.nodes[2].metadata.strong, 1);
    // The rescue blackens the whole chain and restores the units.
    root.scan_black(0);
    assert_eq!(root.nodes[0].metadata.color, Color::Black);
    assert_eq!(root.nodes[1].metadata.color, Color::Black);
    assert_eq!(root.nodes[2].metadata.color, Color::Black);
    assert_eq!(root.nodes[1].metadata.strong, 2);
    assert_eq!(root.nodes[2].metadata.strong, 2);
    root.decrement(a);
    root.collect_cycles();
    root.decrement(b);
    root.collect_cycles();
    root.decrement(c);
    root.collect_cycles();
    assert!(root.nodes[0].dropped && root.nodes[1].dropped && root.nodes[2].dropped);
}
