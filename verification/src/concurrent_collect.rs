//! The concurrent collector variant, sketched to the point where it honors
//! the shared header contract: `increment` rescues the subgraph eagerly by
//! recoloring it Black, and `decrement` schedules a release when the strong
//! count reaches zero.  The cycle buffer is processed epoch by epoch by the
//! full concurrent algorithm, which is deferred; the synchronous collector
//! is the authoritative one.

use vstd::prelude::*;
use vstd::std_specs::vec::vec_index_mut;
use crate::Color;
use crate::acc::{AccBox, AccPtr};

verus! {

/// Are all recorded edges of the concurrent slab in range?
pub open spec fn par_inv(nodes: Seq<AccBox>) -> bool {
    forall|i: int, j: int|
        0 <= i < nodes.len() && 0 <= j < nodes[i].children@.len()
            ==> (nodes[i].children@[j] as int) < nodes.len()
}

/// How many cells of the concurrent slab are not Black.
pub open spec fn count_not_black(nodes: Seq<AccBox>) -> nat
    decreases nodes.len(),
{
    if nodes.len() == 0 {
        0
    } else {
        count_not_black(nodes.drop_last()) + (if nodes.last().metadata.color == Color::Black {
            0nat
        } else {
            1nat
        })
    }
}

proof fn lemma_count_not_black_update(nodes: Seq<AccBox>, i: int, v: AccBox)
    requires
        0 <= i < nodes.len(),
    ensures
        count_not_black(nodes.update(i, v)) + (if nodes[i].metadata.color == Color::Black {
            0nat
        } else {
            1nat
        }) == count_not_black(nodes) + (if v.metadata.color == Color::Black {
            0nat
        } else {
            1nat
        }),
    decreases nodes.len(),
{
    let t = nodes.update(i, v);
    if i == nodes.len() - 1 {
        assert(t.drop_last() =~= nodes.drop_last());
    } else {
        assert(t.drop_last() =~= nodes.drop_last().update(i, v));
        lemma_count_not_black_update(nodes.drop_last(), i, v);
    }
}

/// The concurrent cycle collector: the slab of its managed cells and the
/// cycle buffer of candidate roots awaiting an epoch boundary.
#[derive(Debug)]
pub struct ParCycleCollector {
    pub nodes: Vec<AccBox>,
    pub cycle_buffer: Vec<AccPtr>,
}

impl ParCycleCollector {
    /// A fresh concurrent collector: empty slab, empty cycle buffer.
    pub fn new() -> (cc: ParCycleCollector)
        ensures
            cc.nodes@.len() == 0,
            cc.cycle_buffer@.len() == 0,
    {
        ParCycleCollector { nodes: Vec::new(), cycle_buffer: Vec::new() }
    }

    /// Record a candidate root in the cycle buffer, to be examined at the
    /// next epoch boundary.
    pub fn add_root(&mut self, elem: AccPtr)
        ensures
            final(self).nodes@ == old(self).nodes@,
            final(self).cycle_buffer@ == old(self).cycle_buffer@.push(elem),
    {
        self.cycle_buffer.push(elem);
    }

    /// The concurrent `Increment(S)`: raise the strong count, then rescue
    /// the whole subgraph eagerly by recoloring it Black.
    pub fn increment(&mut self, zelf: AccPtr)
        requires
            par_inv(old(self).nodes@),
            (zelf as int) < old(self).nodes@.len(),
            old(self).nodes@[zelf as int].metadata.strong < usize::MAX,
        ensures
            par_inv(final(self).nodes@),
            final(self).nodes@.len() == old(self).nodes@.len(),
            final(self).cycle_buffer@ == old(self).cycle_buffer@,
            final(self).nodes@[zelf as int].metadata.strong
                == old(self).nodes@[zelf as int].metadata.strong + 1,
            final(self).nodes@[zelf as int].metadata.color == Color::Black,
            forall|i: int| 0 <= i < old(self).nodes@.len() && i != zelf
                ==> final(self).nodes@[i]
                    == old(self).nodes@[i].with_metadata(
                        old(self).nodes@[i].metadata.with_color(
                            final(self).nodes@[i].metadata.color,
                        ),
                    ),
            forall|i: int| 0 <= i < old(self).nodes@.len()
                && old(self).nodes@[i].metadata.color == Color::Black
                ==> final(self).nodes@[i].metadata.color == Color::Black,
            forall|u: int, w: int|
                0 <= u < old(self).nodes@.len() && final(self).nodes@[u].metadata.color
                    == Color::Black && old(self).nodes@[u].metadata.color
                    != Color::Black && 0 <= w < final(self).nodes@[u].children@.len()
                    ==> final(self).nodes@[final(self).nodes@[u].children@[w] as int]
                    .metadata.color == Color::Black,
    {
        let m = vec_index_mut(&mut self.nodes, zelf);
        m.metadata.strong = m.metadata.strong + 1;
        proof {
            assert(self.nodes@ =~= old(self).nodes@.update(
                zelf as int,
                old(self).nodes@[zelf as int].with_metadata(
                    old(self).nodes@[zelf as int].metadata.with_strong(
                        (old(self).nodes@[zelf as int].metadata.strong + 1) as usize,
                    ),
                ),
            ));
        }
        self.scan_black(zelf);
    }

    /// The concurrent `Decrement(S)`: lower the strong count; when it
    /// reaches zero, schedule the release of the cell by recording it in
    /// the cycle buffer for the next epoch.
    pub fn decrement(&mut self, zelf: AccPtr)
        requires
            par_inv(old(self).nodes@),
            (zelf as int) < old(self).nodes@.len(),
            old(self).nodes@[zelf as int].metadata.strong >= 1,
        ensures
            par_inv(final(self).nodes@),
            final(self).nodes@.len() == old(self).nodes@.len(),
            final(self).nodes@ == old(self).nodes@.update(
                zelf as int,
                old(self).nodes@[zelf as int].with_metadata(
                    old(self).nodes@[zelf as int].metadata.with_strong(
                        (old(self).nodes@[zelf as int].metadata.strong - 1) as usize,
                    ),
                ),
            ),
            old(self).nodes@[zelf as int].metadata.strong == 1 ==> final(self).cycle_buffer@
                == old(self).cycle_buffer@.push(zelf),
            old(self).nodes@[zelf as int].metadata.strong > 1 ==> final(self).cycle_buffer@
                == old(self).cycle_buffer@,
    {
        let m = vec_index_mut(&mut self.nodes, zelf);
        m.metadata.strong = m.metadata.strong - 1;
        proof {
            assert(self.nodes@ =~= old(self).nodes@.update(
                zelf as int,
                old(self).nodes@[zelf as int].with_metadata(
                    old(self).nodes@[zelf as int].metadata.with_strong(
                        (old(self).nodes@[zelf as int].metadata.strong - 1) as usize,
                    ),
                ),
            ));
        }
        if self.nodes[zelf].metadata.strong == 0 {
            self.release(zelf);
        }
    }

    /// Schedule the release of a cell whose strong count has reached zero.
    /// The release itself runs at the next epoch boundary, in the deferred
    /// part of the concurrent algorithm.
    fn release(&mut self, zelf: AccPtr)
        requires
            (zelf as int) < old(self).nodes@.len(),
        ensures
            final(self).nodes@ == old(self).nodes@,
            final(self).cycle_buffer@ == old(self).cycle_buffer@.push(zelf),
    {
        self.cycle_buffer.push(zelf);
    }

    /// Recolor the subgraph reachable from `zelf` Black.  Unlike the
    /// synchronous `scan_black`, the concurrent form restores no counts: it
    /// only rescues colors.
    pub fn scan_black(&mut self, zelf: AccPtr)
        requires
            par_inv(old(self).nodes@),
            (zelf as int) < old(self).nodes@.len(),
        ensures
            par_inv(final(self).nodes@),
            final(self).nodes@.len() == old(self).nodes@.len(),
            final(self).cycle_buffer@ == old(self).cycle_buffer@,
            final(self).nodes@[zelf as int].metadata.color == Color::Black,
            forall|i: int| 0 <= i < old(self).nodes@.len()
                ==> final(self).nodes@[i]
                    == old(self).nodes@[i].with_metadata(
                        old(self).nodes@[i].metadata.with_color(
                            final(self).nodes@[i].metadata.color,
                        ),
                    ),
            forall|i: int| 0 <= i < old(self).nodes@.len()
                && old(self).nodes@[i].metadata.color == Color::Black
                ==> final(self).nodes@[i].metadata.color == Color::Black,
            forall|u: int, w: int|
                0 <= u < old(self).nodes@.len() && final(self).nodes@[u].metadata.color
                    == Color::Black && old(self).nodes@[u].metadata.color
                    != Color::Black && 0 <= w < final(self).nodes@[u].children@.len()
                    ==> final(self).nodes@[final(self).nodes@[u].children@[w] as int]
                    .metadata.color == Color::Black,
            old(self).nodes@[zelf as int].metadata.color == Color::Black
                ==> final(self).nodes@ == old(self).nodes@,
    {
        let mut stack: Vec<AccPtr> = Vec::new();
        stack.push(zelf);
        proof {
            assert(stack@ =~= seq![zelf]);
        }
        while stack.len() > 0
            invariant
                (zelf as int) < self.nodes@.len(),
                par_inv(self.nodes@),
                self.nodes@.len() == old(self).nodes@.len(),
                self.cycle_buffer@ == old(self).cycle_buffer@,
                forall|k: int| 0 <= k < stack@.len()
                    ==> (stack@[k] as int) < self.nodes@.len(),
                forall|i: int| 0 <= i < old(self).nodes@.len()
                    ==> self.nodes@[i]
                        == old(self).nodes@[i].with_metadata(
                            old(self).nodes@[i].metadata.with_color(
                                self.nodes@[i].metadata.color,
                            ),
                        ),
                forall|i: int| 0 <= i < old(self).nodes@.len()
                    && old(self).nodes@[i].metadata.color == Color::Black
                    ==> self.nodes@[i].metadata.color == Color::Black,
                self.nodes@[zelf as int].metadata.color == Color::Black
                    || (stack@ =~= seq![zelf] && self.nodes@ == old(self).nodes@),
                old(self).nodes@[zelf as int].metadata.color == Color::Black
                    ==> self.nodes@ == old(self).nodes@ && (stack@ =~= seq![zelf]
                    || stack@.len() == 0),
                forall|u: int, w: int|
                    0 <= u < old(self).nodes@.len() && self.nodes@[u].metadata.color
                        == Color::Black && old(self).nodes@[u].metadata.color
                        != Color::Black && 0 <= w < self.nodes@[u].children@.len()
                        ==> self.nodes@[self.nodes@[u].children@[w] as int].metadata
                        .color == Color::Black || crate::collect::in_roots(
                        stack@,
                        self.nodes@[u].children@[w] as int,
                    ),
            decreases count_not_black(self.nodes@), stack.len(),
        {
            let ghost prev_nodes = self.nodes@;
            let ghost prev_stack = stack@;
            let x = stack.pop().unwrap();
            proof {
                if prev_nodes[zelf as int].metadata.color != Color::Black {
                    assert(prev_stack =~= seq![zelf]);
                    assert(x == zelf);
                }
            }
            if self.nodes[x].metadata.color != Color::Black {
                let m = vec_index_mut(&mut self.nodes, x);
                m.metadata.color = Color::Black;
                proof {
                    assert(self.nodes@ =~= prev_nodes.update(
                        x as int,
                        prev_nodes[x as int].with_metadata(
                            prev_nodes[x as int].metadata.with_color(Color::Black),
                        ),
                    ));
                    lemma_count_not_black_update(
                        prev_nodes,
                        x as int,
                        self.nodes@[x as int],
                    );
                    assert(count_not_black(self.nodes@) < count_not_black(prev_nodes));
                    assert(old(self).nodes@[x as int].metadata.color != Color::Black)
                        by {
                        assert(prev_nodes[x as int].metadata.color != Color::Black);
                    }
                    // Every newly Black cell's children are Black or still
                    // on the stack; the one copy the pop removed named the
                    // cell just blackened.
                    assert forall|u: int, w: int|
                        0 <= u < old(self).nodes@.len() && self.nodes@[u].metadata.color
                            == Color::Black && old(self).nodes@[u].metadata.color
                            != Color::Black && 0 <= w
                            < self.nodes@[u].children@.len()
                        implies self.nodes@[self.nodes@[u].children@[w] as int].metadata
                        .color == Color::Black || crate::collect::in_roots(
                        stack@,
                        self.nodes@[u].children@[w] as int,
                    ) || (u == x as int && 0 <= w) by {
                        if u != x as int {
                            assert(self.nodes@[u] == prev_nodes[u]);
                            let child = prev_nodes[u].children@[w] as int;
                            assert((child as int) < prev_nodes.len());
                            assert(self.nodes@[u].children@[w] as int == child);
                            assert(prev_nodes[u].metadata.color == Color::Black);
                            assert(prev_nodes[child].metadata.color == Color::Black
                                || crate::collect::in_roots(prev_stack, child));
                            if prev_nodes[child].metadata.color == Color::Black {
                                if child == x as int {
                                    assert(self.nodes@[child].metadata.color
                                        == Color::Black);
                                } else {
                                    assert(self.nodes@[child] == prev_nodes[child]);
                                }
                            } else {
                                let k = choose|k: int|
                                    0 <= k < prev_stack.len() && prev_stack[k] as int
                                        == child;
                                if k < prev_stack.len() - 1 {
                                    assert(stack@[k] as int == child);
                                } else {
                                    assert(prev_stack[k] == x);
                                    assert(self.nodes@[child].metadata.color
                                        == Color::Black);
                                }
                            }
                        }
                    }
                }
                let ghost mid_nodes = self.nodes@;
                let ghost mid_count = count_not_black(self.nodes@);
                let mut j: usize = 0;
                let n_children = self.nodes[x].children.len();
                while j < n_children
                    invariant
                        (x as int) < self.nodes@.len(),
                        n_children == self.nodes@[x as int].children@.len(),
                        j <= n_children,
                        par_inv(self.nodes@),
                        self.nodes@ == mid_nodes,
                        self.nodes@.len() == old(self).nodes@.len(),
                        old(self).nodes@[x as int].metadata.color != Color::Black,
                        self.nodes@[x as int].metadata.color == Color::Black,
                        self.cycle_buffer@ == old(self).cycle_buffer@,
                        forall|k: int| 0 <= k < stack@.len()
                            ==> (stack@[k] as int) < self.nodes@.len(),
                        forall|u: int, w: int|
                            0 <= u < old(self).nodes@.len() && self.nodes@[u].metadata
                                .color == Color::Black && old(self).nodes@[u].metadata
                                .color != Color::Black && 0 <= w
                                < self.nodes@[u].children@.len()
                                ==> self.nodes@[self.nodes@[u].children@[w] as int]
                                .metadata.color == Color::Black
                                || crate::collect::in_roots(
                                stack@,
                                self.nodes@[u].children@[w] as int,
                            ) || (u == x as int && j <= w),
                    decreases n_children - j,
                {
                    let ghost it_stack = stack@;
                    let c = self.nodes[x].children[j];
                    stack.push(c);
                    proof {
                        // This very child is now on the stack: the ledger
                        // advances by one edge.
                        assert forall|u: int, w: int|
                            0 <= u < old(self).nodes@.len() && self.nodes@[u].metadata
                                .color == Color::Black && old(self).nodes@[u].metadata
                                .color != Color::Black && 0 <= w
                                < self.nodes@[u].children@.len()
                            implies self.nodes@[self.nodes@[u].children@[w] as int]
                            .metadata.color == Color::Black
                            || crate::collect::in_roots(
                            stack@,
                            self.nodes@[u].children@[w] as int,
                        ) || (u == x as int && j + 1 <= w) by {
                            let child = self.nodes@[u].children@[w] as int;
                            if self.nodes@[child].metadata.color != Color::Black {
                                if crate::collect::in_roots(it_stack, child) {
                                    crate::collect::lemma_in_roots_grows(
                                        it_stack,
                                        stack@,
                                        child,
                                    );
                                } else {
                                    assert(u == x as int && j <= w);
                                    if w == j {
                                        assert(self.nodes@[u].children@[w] == c);
                                        assert(stack@[stack@.len() - 1] == c);
                                    }
                                }
                            }
                        }
                    }
                    j = j + 1;
                }
                proof {
                    assert(self.nodes@ == mid_nodes);
                    assert(count_not_black(self.nodes@) == mid_count);
                    assert(self.nodes@[zelf as int].metadata.color == Color::Black);
                }
            } else {
                proof {
                    assert(self.nodes@ == prev_nodes);
                    assert(stack@ =~= prev_stack.subrange(0, prev_stack.len() - 1));
                    assert(self.nodes@[zelf as int].metadata.color == Color::Black);
                    // The popped copy named an already-Black cell, so every
                    // pending-closure witness survives the pop.
                    assert forall|u: int, w: int|
                        0 <= u < old(self).nodes@.len() && self.nodes@[u].metadata.color
                            == Color::Black && old(self).nodes@[u].metadata.color
                            != Color::Black && 0 <= w
                            < self.nodes@[u].children@.len()
                        implies self.nodes@[self.nodes@[u].children@[w] as int].metadata
                        .color == Color::Black || crate::collect::in_roots(
                        stack@,
                        self.nodes@[u].children@[w] as int,
                    ) by {
                        let child = self.nodes@[u].children@[w] as int;
                        if self.nodes@[child].metadata.color != Color::Black {
                            assert(crate::collect::in_roots(prev_stack, child));
                            let k = choose|k: int|
                                0 <= k < prev_stack.len() && prev_stack[k] as int
                                    == child;
                            if k < prev_stack.len() - 1 {
                                assert(stack@[k] as int == child);
                            } else {
                                assert(prev_stack[k] == x);
                                assert(self.nodes@[x as int].metadata.color
                                    == Color::Black);
                            }
                        }
                    }
                }
            }
        }
    }
}

} // verus!
