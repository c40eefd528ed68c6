//! The synchronous cycle collector: the roots buffer, the reference-count
//! mutations (`increment` / `decrement`) and the three trial-deletion passes
//! (`mark_roots`, `scan_roots`, `collect_roots`), after Bacon and Rajan's
//! synchronous algorithm.
//!
//! The collector owns the slab of managed cells; every `CcPtr` is an index
//! into it.  Freed cells stay in the slab as tombstones (`weak == 0`), so a
//! pointer is never dangling and no index is ever reused.

use vstd::prelude::*;
use vstd::std_specs::vec::vec_index_mut;
use crate::{Cc, CcBox, Color, Weak};
use crate::box_ptr::CcPtr;
use crate::concurrent_collect::ParCycleCollector;
use crate::dealloc;

verus! {

/// Does the sequence of roots-buffer entries hold `i`?
pub open spec fn in_roots(roots: Seq<CcPtr>, i: int) -> bool {
    exists|k: int| 0 <= k < roots.len() && roots[k] as int == i
}

/// A pointer found among the entries of a buffer is still found after the
/// buffer grows at the end.
pub(crate) proof fn lemma_in_roots_grows(s1: Seq<CcPtr>, s2: Seq<CcPtr>, v: int)
    requires
        in_roots(s1, v),
        s1.len() <= s2.len(),
        forall|k: int| 0 <= k < s1.len() ==> s2[k] == s1[k],
    ensures
        in_roots(s2, v),
{
    let k = choose|k: int| 0 <= k < s1.len() && s1[k] as int == v;
    assert(0 <= k < s2.len() && s2[k] as int == v);
}

/// The per-cell well-formedness conditions.
///
/// A cell whose weak count has reached zero is a tombstone: its storage has
/// been released, so its payload is dropped, its strong count is zero and it
/// cannot sit in the roots buffer.  A cell whose payload has been dropped has
/// no outgoing edges and no strong referents.  Every recorded edge points
/// into the slab.
pub open spec fn node_ok(nodes: Seq<CcBox>, i: int) -> bool {
    let n = nodes[i];
    &&& (n.metadata.weak == 0 ==> n.metadata.strong == 0 && !n.metadata.buffered && n.dropped)
    &&& (n.dropped ==> n.metadata.strong == 0 && n.children@.len() == 0)
    &&& (forall|j: int| 0 <= j < n.children@.len() ==> (n.children@[j] as int) < nodes.len())
}

/// All cells of the slab are well formed.
pub open spec fn inv_nodes(nodes: Seq<CcBox>) -> bool {
    forall|i: int| 0 <= i < nodes.len() ==> node_ok(nodes, i)
}

/// All cells of the slab but possibly the `i`th are well formed.
pub open spec fn inv_nodes_except(nodes: Seq<CcBox>, i: int) -> bool {
    forall|j: int| 0 <= j < nodes.len() && j != i ==> node_ok(nodes, j)
}

/// The roots buffer holds valid, pairwise distinct pointers to buffered
/// cells.
pub open spec fn inv_roots(roots: Seq<CcPtr>, nodes: Seq<CcBox>) -> bool {
    &&& (forall|k: int| 0 <= k < roots.len()
            ==> (roots[k] as int) < nodes.len() && nodes[roots[k] as int].metadata.buffered)
    &&& (forall|k1: int, k2: int| 0 <= k1 < roots.len() && 0 <= k2 < roots.len() && k1 != k2
            ==> roots[k1] != roots[k2])
}

/// Every buffered cell appears in the given roots buffer.
pub open spec fn buffered_covered(roots: Seq<CcPtr>, nodes: Seq<CcBox>) -> bool {
    forall|i: int| 0 <= i < nodes.len() && nodes[i].metadata.buffered ==> in_roots(roots, i)
}

/// Replacing one cell keeps the rest of the slab well formed.
pub(crate) proof fn lemma_inv_except_update(nodes: Seq<CcBox>, i: int, v: CcBox)
    requires
        0 <= i < nodes.len(),
        inv_nodes_except(nodes, i),
    ensures
        inv_nodes_except(nodes.update(i, v), i),
{
    let t = nodes.update(i, v);
    assert forall|j: int| 0 <= j < t.len() && j != i implies node_ok(t, j) by {
        assert(t[j] == nodes[j]);
        assert(node_ok(nodes, j));
    }
}

/// Replacing one cell keeps the slab well formed, provided the new cell is
/// itself well formed in its place.
pub(crate) proof fn lemma_inv_update(nodes: Seq<CcBox>, i: int, v: CcBox)
    requires
        0 <= i < nodes.len(),
        inv_nodes_except(nodes, i),
        node_ok(nodes.update(i, v), i),
    ensures
        inv_nodes(nodes.update(i, v)),
{
    let t = nodes.update(i, v);
    assert forall|j: int| 0 <= j < t.len() implies node_ok(t, j) by {
        if j != i {
            assert(t[j] == nodes[j]);
            assert(node_ok(nodes, j));
        }
    }
}

/// Replacing one cell without touching its buffered flag preserves the
/// roots-buffer invariants.
pub(crate) proof fn lemma_roots_update_same_buffered(
    roots: Seq<CcPtr>,
    nodes: Seq<CcBox>,
    i: int,
    v: CcBox,
)
    requires
        0 <= i < nodes.len(),
        inv_roots(roots, nodes),
        buffered_covered(roots, nodes),
        v.metadata.buffered == nodes[i].metadata.buffered,
    ensures
        inv_roots(roots, nodes.update(i, v)),
        buffered_covered(roots, nodes.update(i, v)),
{
    let t = nodes.update(i, v);
    assert forall|k: int| 0 <= k < roots.len() implies (roots[k] as int) < t.len()
        && t[roots[k] as int].metadata.buffered by {
        if roots[k] as int != i {
            assert(t[roots[k] as int] == nodes[roots[k] as int]);
        }
    }
    assert forall|j: int| 0 <= j < t.len() && t[j].metadata.buffered implies in_roots(
        roots,
        j,
    ) by {
        assert(nodes[j].metadata.buffered);
    }
}

/// How many cells of the slab satisfy `p`.
pub open spec fn count_matching(s: Seq<CcBox>, p: spec_fn(CcBox) -> bool) -> nat
    decreases s.len(),
{
    if s.len() == 0 {
        0
    } else {
        count_matching(s.drop_last(), p) + (if p(s.last()) { 1nat } else { 0nat })
    }
}

/// Is the cell colored Gray?
pub open spec fn gray_pred() -> spec_fn(CcBox) -> bool {
    |n: CcBox| n.metadata.color == Color::Gray
}

/// Is the cell colored White?
pub open spec fn white_pred() -> spec_fn(CcBox) -> bool {
    |n: CcBox| n.metadata.color == Color::White
}

/// Is the cell colored Black?
pub open spec fn black_pred() -> spec_fn(CcBox) -> bool {
    |n: CcBox| n.metadata.color == Color::Black
}

/// Does the cell still hold its payload?
pub open spec fn undropped_pred() -> spec_fn(CcBox) -> bool {
    |n: CcBox| !n.dropped
}

proof fn lemma_count_le_len(s: Seq<CcBox>, p: spec_fn(CcBox) -> bool)
    ensures
        count_matching(s, p) <= s.len(),
    decreases s.len(),
{
    if s.len() > 0 {
        lemma_count_le_len(s.drop_last(), p);
    }
}

/// Replacing one cell changes the count by the difference the predicate sees
/// at that position.
proof fn lemma_count_update(s: Seq<CcBox>, p: spec_fn(CcBox) -> bool, i: int, v: CcBox)
    requires
        0 <= i < s.len(),
    ensures
        count_matching(s.update(i, v), p) + (if p(s[i]) { 1nat } else { 0nat })
            == count_matching(s, p) + (if p(v) { 1nat } else { 0nat }),
    decreases s.len(),
{
    let t = s.update(i, v);
    assert(t.len() == s.len());
    if i == s.len() - 1 {
        assert(t.drop_last() =~= s.drop_last());
        assert(t.last() == v);
    } else {
        assert(t.drop_last() =~= s.drop_last().update(i, v));
        assert(t.last() == s.last());
        lemma_count_update(s.drop_last(), p, i, v);
    }
}

/// If every cell satisfying `p` in `s2` already satisfied it in `s1`, the
/// count cannot have grown.
proof fn lemma_count_pointwise_le(s1: Seq<CcBox>, s2: Seq<CcBox>, p: spec_fn(CcBox) -> bool)
    requires
        s1.len() == s2.len(),
        forall|i: int| 0 <= i < s2.len() && p(s2[i]) ==> p(s1[i]),
    ensures
        count_matching(s2, p) <= count_matching(s1, p),
    decreases s1.len(),
{
    if s1.len() > 0 {
        assert(forall|i: int| 0 <= i < s2.drop_last().len() && p(s2.drop_last()[i])
            ==> p(s1.drop_last()[i])) by {
            assert(forall|i: int| 0 <= i < s2.len() - 1 ==> s2.drop_last()[i] == s2[i]);
            assert(forall|i: int| 0 <= i < s1.len() - 1 ==> s1.drop_last()[i] == s1[i]);
        }
        lemma_count_pointwise_le(s1.drop_last(), s2.drop_last(), p);
    }
}

/// As above, but strictly: some cell satisfied `p` before and no longer does.
proof fn lemma_count_pointwise_lt(
    s1: Seq<CcBox>,
    s2: Seq<CcBox>,
    p: spec_fn(CcBox) -> bool,
    w: int,
)
    requires
        s1.len() == s2.len(),
        forall|i: int| 0 <= i < s2.len() && p(s2[i]) ==> p(s1[i]),
        0 <= w < s1.len(),
        p(s1[w]),
        !p(s2[w]),
    ensures
        count_matching(s2, p) < count_matching(s1, p),
    decreases s1.len(),
{
    assert(forall|i: int| 0 <= i < s2.drop_last().len() && p(s2.drop_last()[i])
        ==> p(s1.drop_last()[i])) by {
        assert(forall|i: int| 0 <= i < s2.len() - 1 ==> s2.drop_last()[i] == s2[i]);
        assert(forall|i: int| 0 <= i < s1.len() - 1 ==> s1.drop_last()[i] == s1[i]);
    }
    if w == s1.len() - 1 {
        lemma_count_pointwise_le(s1.drop_last(), s2.drop_last(), p);
    } else {
        assert(s1.drop_last()[w] == s1[w]);
        assert(s2.drop_last()[w] == s2[w]);
        lemma_count_pointwise_lt(s1.drop_last(), s2.drop_last(), p, w);
    }
}

/// The two slabs agree on everything but strong counts and colors: same
/// length, and pointwise the same weak count, buffered flag, payload state
/// and edge set.  The trial-deletion traversals change nothing else.
pub open spec fn same_skeleton(a: Seq<CcBox>, b: Seq<CcBox>) -> bool {
    &&& a.len() == b.len()
    &&& (forall|j: int| 0 <= j < a.len() ==> {
        &&& b[j].metadata.weak == a[j].metadata.weak
        &&& b[j].metadata.buffered == a[j].metadata.buffered
        &&& b[j].dropped == a[j].dropped
        &&& b[j].children@ == a[j].children@
        &&& b[j].value == a[j].value
    })
}

/// Every strong outgoing edge of the cell points at `w`.
pub open spec fn all_edges_to(n: CcBox, w: CcPtr) -> bool {
    forall|t: int| 0 <= t < n.children@.len() ==> n.children@[t] == w
}

/// Every strong outgoing edge of the cell points back to `s` itself: the
/// cell is at most a self-loop.
pub open spec fn all_edges_to_self(n: CcBox, s: CcPtr) -> bool {
    all_edges_to(n, s)
}

/// Two distinct cells forming a pure two-cell cycle: every edge of `s`
/// points at `t` — at least one does — and every edge of `t` points back at
/// `s`, neither cell is mid-traversal, and each cell's strong count covers
/// the edges into it.
pub open spec fn mutual_pair_pre(nodes: Seq<CcBox>, s: CcPtr, t: CcPtr) -> bool {
    &&& (s as int) < nodes.len()
    &&& (t as int) < nodes.len()
    &&& s != t
    &&& nodes[s as int].children@.len() >= 1
    &&& nodes[s as int].children@[0] == t
    &&& all_edges_to(nodes[s as int], t)
    &&& all_edges_to(nodes[t as int], s)
    &&& nodes[s as int].metadata.color != Color::Gray
    &&& nodes[t as int].metadata.color != Color::Gray
    &&& nodes[t as int].metadata.strong >= nodes[s as int].children@.len()
    &&& nodes[s as int].metadata.strong >= nodes[t as int].children@.len()
}

/// What `mark_gray` leaves behind on a pure two-cell cycle: both cells turn
/// Gray and each loses one strong unit per edge into it; nothing else moves.
pub open spec fn mark_gray_mutual_post(
    pre: Seq<CcBox>,
    post: Seq<CcBox>,
    s: CcPtr,
    t: CcPtr,
) -> bool {
    post == pre.update(
        s as int,
        pre[s as int].with_color(Color::Gray).with_strong(
            (pre[s as int].metadata.strong - pre[t as int].children@.len()) as usize,
        ),
    ).update(
        t as int,
        pre[t as int].with_color(Color::Gray).with_strong(
            (pre[t as int].metadata.strong - pre[s as int].children@.len()) as usize,
        ),
    )
}

/// What `collect_white` leaves behind for a White, unbuffered self-cycle:
/// the cell is recolored Black and freed — its implicit weak removed and,
/// when that was the last weak, its storage released.  No other cell moves.
pub open spec fn collect_white_self_post(pre: Seq<CcBox>, post: Seq<CcBox>, s: CcPtr) -> bool {
    &&& post.len() == pre.len()
    &&& (forall|j: int| 0 <= j < pre.len() && j != s ==> post[j] == pre[j])
    &&& post[s as int].metadata == pre[s as int].metadata.with_color(Color::Black).with_weak(
        (pre[s as int].metadata.weak - 1) as usize,
    )
    &&& post[s as int].value == pre[s as int].value
    &&& (pre[s as int].metadata.weak > 1 ==> post[s as int].dropped == pre[s as int].dropped
        && post[s as int].children@ == pre[s as int].children@)
    &&& (pre[s as int].metadata.weak == 1 ==> post[s as int].dropped
        && post[s as int].children@.len() == 0)
}

/// What draining a lone self-cycle root from the buffer leaves behind: the
/// cell leaves the buffer, turns Black and is freed — its implicit weak
/// removed and, when that was the last weak, its storage released.  No
/// other cell moves.
pub open spec fn reclaimed_post(pre: Seq<CcBox>, post: Seq<CcBox>, s: CcPtr) -> bool {
    &&& post.len() == pre.len()
    &&& (forall|j: int| 0 <= j < pre.len() && j != s ==> post[j] == pre[j])
    &&& post[s as int].metadata == pre[s as int].metadata.with_buffered(false).with_color(
        Color::Black,
    ).with_weak((pre[s as int].metadata.weak - 1) as usize)
    &&& post[s as int].value == pre[s as int].value
    &&& (pre[s as int].metadata.weak > 1 ==> post[s as int].dropped == pre[s as int].dropped
        && post[s as int].children@ == pre[s as int].children@)
    &&& (pre[s as int].metadata.weak == 1 ==> post[s as int].dropped
        && post[s as int].children@.len() == 0)
}

/// The preconditions under which `scan_black` is pinned down exactly on a
/// pure two-cell cycle: the mutual edge shape, neither cell Black yet, the
/// partner's payload still present, and both restored counts in range.
pub open spec fn scan_black_mutual_pre(nodes: Seq<CcBox>, s: CcPtr, t: CcPtr) -> bool {
    &&& (s as int) < nodes.len()
    &&& (t as int) < nodes.len()
    &&& s != t
    &&& nodes[s as int].children@.len() >= 1
    &&& nodes[s as int].children@[0] == t
    &&& all_edges_to(nodes[s as int], t)
    &&& all_edges_to(nodes[t as int], s)
    &&& nodes[s as int].metadata.color != Color::Black
    &&& nodes[t as int].metadata.color != Color::Black
    &&& !nodes[t as int].dropped
    &&& nodes[s as int].metadata.strong + nodes[t as int].children@.len() <= usize::MAX
    &&& nodes[t as int].metadata.strong + nodes[s as int].children@.len() <= usize::MAX
}

/// What `scan_black` leaves behind on a pure two-cell cycle: both cells
/// turn Black and each regains one strong unit per edge into it; nothing
/// else moves.
pub open spec fn scan_black_mutual_post(
    pre: Seq<CcBox>,
    post: Seq<CcBox>,
    s: CcPtr,
    t: CcPtr,
) -> bool {
    post == pre.update(
        s as int,
        pre[s as int].with_color(Color::Black).with_strong(
            (pre[s as int].metadata.strong + pre[t as int].children@.len()) as usize,
        ),
    ).update(
        t as int,
        pre[t as int].with_color(Color::Black).with_strong(
            (pre[t as int].metadata.strong + pre[s as int].children@.len()) as usize,
        ),
    )
}

/// A pure two-cell cycle whose trial deletion has confirmed it garbage:
/// both cells Gray with a zero strong count.
pub open spec fn mutual_gray_garbage_pre(nodes: Seq<CcBox>, s: CcPtr, t: CcPtr) -> bool {
    &&& (s as int) < nodes.len()
    &&& (t as int) < nodes.len()
    &&& s != t
    &&& nodes[s as int].children@.len() >= 1
    &&& nodes[s as int].children@[0] == t
    &&& all_edges_to(nodes[s as int], t)
    &&& all_edges_to(nodes[t as int], s)
    &&& nodes[s as int].metadata.color == Color::Gray
    &&& nodes[t as int].metadata.color == Color::Gray
    &&& nodes[s as int].metadata.strong == 0
    &&& nodes[t as int].metadata.strong == 0
}

/// A pure two-cell cycle confirmed garbage and cleared for reclamation:
/// both cells White, unbuffered, with zero strong counts and live headers.
pub open spec fn mutual_white_garbage_pre(nodes: Seq<CcBox>, s: CcPtr, t: CcPtr) -> bool {
    &&& (s as int) < nodes.len()
    &&& (t as int) < nodes.len()
    &&& s != t
    &&& nodes[s as int].children@.len() >= 1
    &&& nodes[s as int].children@[0] == t
    &&& all_edges_to(nodes[s as int], t)
    &&& all_edges_to(nodes[t as int], s)
    &&& nodes[s as int].metadata.color == Color::White
    &&& nodes[t as int].metadata.color == Color::White
    &&& !nodes[s as int].metadata.buffered
    &&& !nodes[t as int].metadata.buffered
    &&& nodes[s as int].metadata.strong == 0
    &&& nodes[t as int].metadata.strong == 0
    &&& nodes[s as int].metadata.weak >= 1
    &&& nodes[t as int].metadata.weak >= 1
}

/// What `collect_white` leaves behind on a garbage two-cell cycle: both
/// cells recolored Black and freed, exactly as `collect_white_self_post`
/// frees a lone cell; nothing else moves.
pub open spec fn collect_white_pair_post(
    pre: Seq<CcBox>,
    post: Seq<CcBox>,
    s: CcPtr,
    t: CcPtr,
) -> bool {
    &&& post.len() == pre.len()
    &&& (forall|j: int| 0 <= j < pre.len() && j != s && j != t ==> post[j] == pre[j])
    &&& post[s as int].metadata == pre[s as int].metadata.with_color(Color::Black).with_weak(
        (pre[s as int].metadata.weak - 1) as usize,
    )
    &&& post[s as int].value == pre[s as int].value
    &&& (pre[s as int].metadata.weak > 1 ==> post[s as int].dropped == pre[s as int].dropped
        && post[s as int].children@ == pre[s as int].children@)
    &&& (pre[s as int].metadata.weak == 1 ==> post[s as int].dropped
        && post[s as int].children@.len() == 0)
    &&& post[t as int].metadata == pre[t as int].metadata.with_color(Color::Black).with_weak(
        (pre[t as int].metadata.weak - 1) as usize,
    )
    &&& post[t as int].value == pre[t as int].value
    &&& (pre[t as int].metadata.weak > 1 ==> post[t as int].dropped == pre[t as int].dropped
        && post[t as int].children@ == pre[t as int].children@)
    &&& (pre[t as int].metadata.weak == 1 ==> post[t as int].dropped
        && post[t as int].children@.len() == 0)
}

/// A pure two-cell cycle whose seed the trial deletion confirmed dead but
/// whose partner kept a surviving count: the seed is whitened and then the
/// partner's rescue recolors and restores both.
pub open spec fn mutual_partner_rooted_pre(nodes: Seq<CcBox>, s: CcPtr, t: CcPtr) -> bool {
    &&& (s as int) < nodes.len()
    &&& (t as int) < nodes.len()
    &&& s != t
    &&& nodes[s as int].children@.len() >= 1
    &&& nodes[s as int].children@[0] == t
    &&& nodes[t as int].children@.len() >= 1
    &&& all_edges_to(nodes[s as int], t)
    &&& all_edges_to(nodes[t as int], s)
    &&& nodes[s as int].metadata.color == Color::Gray
    &&& nodes[t as int].metadata.color == Color::Gray
    &&& nodes[s as int].metadata.strong == 0
    &&& nodes[t as int].metadata.strong >= 1
    &&& nodes[t as int].metadata.strong + nodes[s as int].children@.len() <= usize::MAX
    &&& nodes[s as int].metadata.strong + nodes[t as int].children@.len() <= usize::MAX
}

/// What `mark_roots` leaves behind on a buffer holding exactly a Purple
/// two-cell-cycle root and its partner: both cells marked Gray by the trial
/// deletion, the root retained and the partner — Gray when its entry is
/// drained — unbuffered.
pub open spec fn mark_roots_pair_target(nodes: Seq<CcBox>, s: CcPtr, t: CcPtr) -> Seq<CcBox> {
    nodes.update(
        s as int,
        nodes[s as int].with_color(Color::Gray).with_strong(
            (nodes[s as int].metadata.strong - nodes[t as int].children@.len()) as usize,
        ),
    ).update(
        t as int,
        nodes[t as int].with_color(Color::Gray).with_strong(
            (nodes[t as int].metadata.strong - nodes[s as int].children@.len()) as usize,
        ).with_buffered(false),
    )
}

/// The collector state in which the buffer holds exactly a garbage
/// two-cell cycle: the Purple seed first, its partner second, every strong
/// count owed to the cycle's own edges, and only the implicit weaks left.
pub open spec fn two_cycle_garbage_pre(cc: SyncCycleCollector) -> bool {
    let r0 = cc.roots@[0];
    let r1 = cc.roots@[1];
    &&& cc.roots@.len() == 2
    &&& r1 == cc.nodes@[r0 as int].children@[0]
    &&& mutual_pair_pre(cc.nodes@, r0, r1)
    &&& cc.nodes@[r0 as int].metadata.color == Color::Purple
    &&& cc.nodes@[r0 as int].metadata.strong == cc.nodes@[r1 as int].children@.len()
    &&& cc.nodes@[r1 as int].metadata.strong == cc.nodes@[r0 as int].children@.len()
    &&& cc.nodes@[r0 as int].metadata.weak == 1
    &&& cc.nodes@[r1 as int].metadata.weak == 1
}

/// The collector state in which the buffer holds exactly a two-cell cycle
/// kept alive from outside: the Purple seed's whole count is owed to the
/// cycle, but its partner holds more strong units than the cycle explains.
pub open spec fn two_cycle_rooted_pre(cc: SyncCycleCollector) -> bool {
    let r0 = cc.roots@[0];
    let r1 = cc.roots@[1];
    &&& cc.roots@.len() == 2
    &&& r1 == cc.nodes@[r0 as int].children@[0]
    &&& mutual_pair_pre(cc.nodes@, r0, r1)
    &&& cc.nodes@[r0 as int].metadata.color == Color::Purple
    &&& cc.nodes@[r0 as int].metadata.strong == cc.nodes@[r1 as int].children@.len()
    &&& cc.nodes@[r0 as int].metadata.strong >= 1
    &&& cc.nodes@[r1 as int].metadata.strong > cc.nodes@[r0 as int].children@.len()
}

/// What `decrement` leaves behind when the strong count stays positive: the
/// count drops by one and the cell becomes a Purple candidate root,
/// enrolling in the roots buffer unless it is already there.
pub open spec fn decrement_live_post(
    pre: SyncCycleCollector,
    post: SyncCycleCollector,
    i: CcPtr,
) -> bool {
    let n = pre.nodes@[i as int];
    let dec = n.with_strong((n.metadata.strong - 1) as usize);
    if n.metadata.color == Color::Purple {
        post.nodes@ == pre.nodes@.update(i as int, dec) && post.roots@ == pre.roots@
    } else if n.metadata.buffered {
        post.nodes@ == pre.nodes@.update(i as int, dec.with_color(Color::Purple))
            && post.roots@ == pre.roots@
    } else {
        post.nodes@ == pre.nodes@.update(
            i as int,
            dec.with_color(Color::Purple).with_buffered(true),
        ) && post.roots@ == pre.roots@.push(i)
    }
}

/// What `decrement` leaves behind when it destroys the last strong handle on
/// an object without outgoing edges: the payload is dropped, the cell turns
/// Black, and unless the cell sits in the roots buffer its implicit weak is
/// removed — freeing it outright when no weak handle survives.
pub open spec fn decrement_last_leaf_post(
    pre: SyncCycleCollector,
    post: SyncCycleCollector,
    i: CcPtr,
) -> bool {
    let n = pre.nodes@[i as int];
    &&& post.roots@ == pre.roots@
    &&& post.nodes@.len() == pre.nodes@.len()
    &&& (forall|j: int| 0 <= j < pre.nodes@.len() && j != i ==> post.nodes@[j] == pre.nodes@[j])
    &&& post.nodes@[i as int].dropped
    &&& post.nodes@[i as int].children@.len() == 0
    &&& post.nodes@[i as int].metadata.strong == 0
    &&& post.nodes@[i as int].metadata.color == Color::Black
    &&& post.nodes@[i as int].metadata.buffered == n.metadata.buffered
    &&& post.nodes@[i as int].value == n.value
    &&& (n.metadata.buffered ==> post.nodes@[i as int].metadata.weak == n.metadata.weak)
    &&& (!n.metadata.buffered ==> post.nodes@[i as int].metadata.weak
        == n.metadata.weak - 1)
}

/// What `decrement` leaves behind when it destroys the last strong handle
/// on an object with exactly one outgoing edge, to another object that
/// survives the cascade: the released cell as in
/// `decrement_last_leaf_post`, and the child decremented exactly once and
/// made a candidate root by `PossibleRoot`.
pub open spec fn decrement_one_child_post(
    pre: SyncCycleCollector,
    post: SyncCycleCollector,
    i: CcPtr,
    c: CcPtr,
) -> bool {
    let n = pre.nodes@[i as int];
    let m = pre.nodes@[c as int];
    let dec = m.with_strong((m.metadata.strong - 1) as usize);
    &&& post.nodes@.len() == pre.nodes@.len()
    &&& (forall|j: int| 0 <= j < pre.nodes@.len() && j != i && j != c
        ==> post.nodes@[j] == pre.nodes@[j])
    &&& post.nodes@[i as int].dropped
    &&& post.nodes@[i as int].children@.len() == 0
    &&& post.nodes@[i as int].metadata.strong == 0
    &&& post.nodes@[i as int].metadata.color == Color::Black
    &&& post.nodes@[i as int].metadata.buffered == n.metadata.buffered
    &&& post.nodes@[i as int].value == n.value
    &&& (n.metadata.buffered ==> post.nodes@[i as int].metadata.weak == n.metadata.weak)
    &&& (!n.metadata.buffered ==> post.nodes@[i as int].metadata.weak
        == n.metadata.weak - 1)
    &&& (m.metadata.color == Color::Purple ==> post.nodes@[c as int] == dec
        && post.roots@ == pre.roots@)
    &&& (m.metadata.color != Color::Purple && m.metadata.buffered
        ==> post.nodes@[c as int] == dec.with_color(Color::Purple) && post.roots@
        == pre.roots@)
    &&& (m.metadata.color != Color::Purple && !m.metadata.buffered
        ==> post.nodes@[c as int] == dec.with_color(Color::Purple).with_buffered(true)
        && post.roots@ == pre.roots@.push(c))
}

/// Does the slab record a strong edge from `u` to `v`?
pub open spec fn has_edge(nodes: Seq<CcBox>, u: CcPtr, v: CcPtr) -> bool {
    exists|w: int|
        0 <= w < nodes[u as int].children@.len() && nodes[u as int].children@[w] == v
}

/// A walk through the slab along strong edges: one or more cell pointers,
/// each in range, each next one the target of some edge of its predecessor.
pub open spec fn edge_path(nodes: Seq<CcBox>, p: Seq<CcPtr>) -> bool {
    &&& p.len() >= 1
    &&& (forall|i: int| 0 <= i < p.len() ==> (p[i] as int) < nodes.len())
    &&& (forall|i: int| 0 <= i < p.len() - 1 ==> #[trigger] has_edge(nodes, p[i], p[i + 1]))
}

/// Law: a freshly recolored set that is closed under strong edges swallows
/// every walk out of it.  If the first cell of a path carries color `c`,
/// no cell of the path carried `c` before the pass, and every newly-`c`
/// cell's strong children are `c` (the closure the traversal
/// postconditions state), then every cell of the path ends colored `c`.
/// Instantiated with `mark_gray` this says the whole subgraph reachable
/// from a freshly marked root ends Gray; with `scan_black`, that it ends
/// Black.
pub proof fn lemma_color_closure_reaches(
    nodes0: Seq<CcBox>,
    nodes: Seq<CcBox>,
    p: Seq<CcPtr>,
    c: Color,
)
    requires
        nodes.len() == nodes0.len(),
        edge_path(nodes, p),
        nodes[p[0] as int].metadata.color == c,
        forall|i: int| 0 <= i < p.len() ==> nodes0[p[i] as int].metadata.color != c,
        forall|u: int, w: int|
            0 <= u < nodes.len() && nodes[u].metadata.color == c
                && nodes0[u].metadata.color != c && 0 <= w < nodes[u].children@.len()
                ==> nodes[nodes[u].children@[w] as int].metadata.color == c,
    ensures
        forall|i: int| 0 <= i < p.len() ==> nodes[p[i] as int].metadata.color == c,
    decreases p.len(),
{
    if p.len() > 1 {
        let i0: int = 0;
        assert(0 <= i0 < p.len() - 1);
        assert(has_edge(nodes, p[i0], p[i0 + 1]));
        assert(has_edge(nodes, p[0], p[1]));
        let w = choose|w: int|
            0 <= w < nodes[p[0] as int].children@.len() && nodes[p[0] as int].children@[
                w] == p[1];
        assert(nodes[p[1] as int].metadata.color == c);
        let q = p.subrange(1, p.len() as int);
        assert(edge_path(nodes, q)) by {
            assert forall|i: int| 0 <= i < q.len() - 1 implies #[trigger] has_edge(
                nodes,
                q[i],
                q[i + 1],
            ) by {
                assert(q[i] == p[i + 1] && q[i + 1] == p[i + 2]);
                assert(has_edge(nodes, p[i + 1], p[i + 2]));
            }
        }
        lemma_color_closure_reaches(nodes0, nodes, q, c);
        assert forall|i: int| 0 <= i < p.len() implies nodes[p[i] as int].metadata.color
            == c by {
            if i > 0 {
                assert(q[i - 1] == p[i]);
            }
        }
    }
}

/// Law: in a well-formed collector at rest, a cell's `buffered` flag holds
/// exactly when the cell appears in the roots buffer, and each cell appears
/// there at most once.
pub proof fn lemma_buffered_iff_in_roots(cc: &SyncCycleCollector, i: int)
    requires
        cc.wf(),
        0 <= i < cc.nodes@.len(),
    ensures
        cc.nodes@[i].metadata.buffered <==> in_roots(cc.roots@, i),
        forall|k1: int, k2: int|
            0 <= k1 < cc.roots@.len() && 0 <= k2 < cc.roots@.len()
                && cc.roots@[k1] as int == i && cc.roots@[k2] as int == i ==> k1 == k2,
{
    if in_roots(cc.roots@, i) {
        let k = choose|k: int| 0 <= k < cc.roots@.len() && cc.roots@[k] as int == i;
        assert(cc.nodes@[cc.roots@[k] as int].metadata.buffered);
    }
    assert forall|k1: int, k2: int|
        0 <= k1 < cc.roots@.len() && 0 <= k2 < cc.roots@.len() && cc.roots@[k1] as int == i
            && cc.roots@[k2] as int == i implies k1 == k2 by {
        if k1 != k2 {
            assert(cc.roots@[k1] != cc.roots@[k2]);
        }
    }
}

/// The running value of a reference-count ledger: one header's strong count
/// after a sequence of events, `true` for an increment (a clone or an
/// upgrade), `false` for a decrement (a drop).
pub open spec fn apply_count_events(init: int, events: Seq<bool>) -> int
    decreases events.len(),
{
    if events.len() == 0 {
        init
    } else {
        apply_count_events(init, events.drop_last()) + (if events.last() {
            1int
        } else {
            -1int
        })
    }
}

/// How many of the events are increments.
pub open spec fn count_increments(events: Seq<bool>) -> int
    decreases events.len(),
{
    if events.len() == 0 {
        0
    } else {
        count_increments(events.drop_last()) + (if events.last() { 1int } else { 0int })
    }
}

/// How many of the events are decrements.
pub open spec fn count_decrements(events: Seq<bool>) -> int
    decreases events.len(),
{
    if events.len() == 0 {
        0
    } else {
        count_decrements(events.drop_last()) + (if events.last() { 0int } else { 1int })
    }
}

/// Law: for any sequence of clones and drops on one header, the sum of the
/// increments equals the decrements plus the currently live count.
/// `increment` raises the strong count by exactly one and `decrement`
/// lowers it by exactly one (see their contracts), so a header's strong
/// count is the running value of this ledger, starting from the allocation
/// count.
pub proof fn lemma_strong_count_ledger(init: int, events: Seq<bool>)
    ensures
        init + count_increments(events) == count_decrements(events) + apply_count_events(
            init,
            events,
        ),
    decreases events.len(),
{
    if events.len() > 0 {
        lemma_strong_count_ledger(init, events.drop_last());
    }
}

/// All possible kinds of collector: the synchronous one, or the concurrent
/// variant that shares its header contract.
#[derive(Debug)]
#[allow(non_camel_case_types)]
pub enum SyncOrConcurrent {
    sync_cc(SyncCycleCollector),
    concurrent_cc(ParCycleCollector),
}

impl From<SyncCycleCollector> for SyncOrConcurrent {
    fn from(v: SyncCycleCollector) -> (r: SyncOrConcurrent) {
        SyncOrConcurrent::sync_cc(v)
    }
}

impl vstd::std_specs::convert::FromSpecImpl<SyncCycleCollector> for SyncOrConcurrent {
    open spec fn obeys_from_spec() -> bool {
        true
    }

    open spec fn from_spec(v: SyncCycleCollector) -> SyncOrConcurrent {
        SyncOrConcurrent::sync_cc(v)
    }
}

impl From<ParCycleCollector> for SyncOrConcurrent {
    fn from(v: ParCycleCollector) -> (r: SyncOrConcurrent) {
        SyncOrConcurrent::concurrent_cc(v)
    }
}

impl vstd::std_specs::convert::FromSpecImpl<ParCycleCollector> for SyncOrConcurrent {
    open spec fn obeys_from_spec() -> bool {
        true
    }

    open spec fn from_spec(v: ParCycleCollector) -> SyncOrConcurrent {
        SyncOrConcurrent::concurrent_cc(v)
    }
}

impl SyncOrConcurrent {
    /// Hand a candidate root to whichever collector this is.
    pub fn add_root(&mut self, elem: CcPtr)
        requires
            *old(self) matches SyncOrConcurrent::sync_cc(cc) ==> {
                &&& inv_nodes(cc.nodes@)
                &&& inv_roots(cc.roots@, cc.nodes@)
                &&& (elem as int) < cc.nodes@.len()
                &&& cc.nodes@[elem as int].metadata.buffered
                &&& !in_roots(cc.roots@, elem as int)
                &&& forall|i: int| 0 <= i < cc.nodes@.len() && i != elem
                        && cc.nodes@[i].metadata.buffered ==> in_roots(cc.roots@, i)
            },
        ensures
            *old(self) matches SyncOrConcurrent::sync_cc(cc) ==> {
                &&& *final(self) matches SyncOrConcurrent::sync_cc(cc2)
                    && cc2.wf()
                    && cc2.nodes@ == cc.nodes@
                    && cc2.roots@ == cc.roots@.push(elem)
            },
            *old(self) matches SyncOrConcurrent::concurrent_cc(cc) ==> {
                &&& *final(self) matches SyncOrConcurrent::concurrent_cc(cc2)
                    && cc2.nodes@ == cc.nodes@
                    && cc2.cycle_buffer@ == cc.cycle_buffer@.push(elem)
            },
    {
        match self {
            SyncOrConcurrent::sync_cc(cc) => cc.add_root(elem),
            SyncOrConcurrent::concurrent_cc(cc) => cc.add_root(elem),
        }
    }

    /// Extract the synchronous collector, or give the value back unchanged.
    pub fn try_into_sync_cc(self) -> (r: Result<SyncCycleCollector, SyncOrConcurrent>)
        ensures
            self matches SyncOrConcurrent::sync_cc(v) ==> r == Ok::<
                SyncCycleCollector,
                SyncOrConcurrent,
            >(v),
            self matches SyncOrConcurrent::concurrent_cc(_) ==> r == Err::<
                SyncCycleCollector,
                SyncOrConcurrent,
            >(self),
    {
        if let SyncOrConcurrent::sync_cc(v) = self {
            Ok(v)
        } else {
            Err(self)
        }
    }

    /// Extract the concurrent collector, or give the value back unchanged.
    pub fn try_into_concurrent_cc(self) -> (r: Result<ParCycleCollector, SyncOrConcurrent>)
        ensures
            self matches SyncOrConcurrent::concurrent_cc(v) ==> r == Ok::<
                ParCycleCollector,
                SyncOrConcurrent,
            >(v),
            self matches SyncOrConcurrent::sync_cc(_) ==> r == Err::<
                ParCycleCollector,
                SyncOrConcurrent,
            >(self),
    {
        if let SyncOrConcurrent::concurrent_cc(v) = self {
            Ok(v)
        } else {
            Err(self)
        }
    }
}

/// One synchronous cycle collector, owning the slab of managed cells and the
/// roots buffer of candidate cycle roots.  One collector serves one virtual
/// machine.
#[derive(Debug)]
pub struct SyncCycleCollector {
    pub nodes: Vec<CcBox>,
    pub roots: Vec<CcPtr>,
}

impl SyncCycleCollector {
    /// The collector's well-formedness: every cell is well formed, the roots
    /// buffer holds valid, distinct, buffered entries, and every buffered
    /// cell appears in the buffer.  Together these make the `buffered` flag
    /// the exact record of roots-buffer membership, each member appearing
    /// once.
    pub open spec fn wf(&self) -> bool {
        &&& inv_nodes(self.nodes@)
        &&& inv_roots(self.roots@, self.nodes@)
        &&& buffered_covered(self.roots@, self.nodes@)
    }

    /// A fresh collector: empty slab, empty roots buffer.
    pub fn new() -> (cc: SyncCycleCollector)
        ensures
            cc.wf(),
            cc.nodes@.len() == 0,
            cc.roots@.len() == 0,
    {
        SyncCycleCollector { nodes: Vec::new(), roots: Vec::new() }
    }
}

impl Default for SyncCycleCollector {
    fn default() -> (cc: SyncCycleCollector)
        ensures
            cc.wf(),
            cc.nodes@.len() == 0,
            cc.roots@.len() == 0,
    {
        SyncCycleCollector::new()
    }
}

impl SyncCycleCollector {

    /// Append a candidate root to the roots buffer.  The caller guarantees
    /// that the cell's `buffered` flag has just transitioned to true and that
    /// the cell is not yet in the buffer, so no duplicate can enter.
    pub fn add_root(&mut self, box_ptr: CcPtr)
        requires
            inv_nodes(old(self).nodes@),
            inv_roots(old(self).roots@, old(self).nodes@),
            (box_ptr as int) < old(self).nodes@.len(),
            old(self).nodes@[box_ptr as int].metadata.buffered,
            !in_roots(old(self).roots@, box_ptr as int),
            forall|i: int| 0 <= i < old(self).nodes@.len() && i != box_ptr
                && old(self).nodes@[i].metadata.buffered ==> in_roots(old(self).roots@, i),
        ensures
            final(self).wf(),
            final(self).nodes@ == old(self).nodes@,
            final(self).roots@ == old(self).roots@.push(box_ptr),
    {
        self.roots.push(box_ptr);
        proof {
            let r0 = old(self).roots@;
            let r1 = self.roots@;
            let nodes = self.nodes@;
            assert(r1 == r0.push(box_ptr));
            assert(r1[r0.len() as int] == box_ptr);
            assert forall|i: int| 0 <= i < nodes.len()
                && nodes[i].metadata.buffered implies in_roots(r1, i) by {
                if i == box_ptr as int {
                    assert(0 <= r0.len() < r1.len() && r1[r0.len() as int] as int == i);
                } else {
                    assert(in_roots(r0, i));
                    let k = choose|k: int| 0 <= k < r0.len() && r0[k] as int == i;
                    assert(0 <= k < r1.len() && r1[k] as int == i);
                }
            }
            assert forall|k1: int, k2: int| 0 <= k1 < r1.len() && 0 <= k2 < r1.len() && k1 != k2
                implies r1[k1] != r1[k2] by {
                if k1 < r0.len() && k2 < r0.len() {
                    assert(r1[k1] == r0[k1] && r1[k2] == r0[k2]);
                } else if k1 == r0.len() as int {
                    assert(r1[k2] == r0[k2]);
                    if r0[k2] == box_ptr {
                        assert(r0[k2] as int == box_ptr as int);
                        assert(in_roots(r0, box_ptr as int));
                    }
                } else {
                    assert(k2 == r0.len() as int);
                    assert(r1[k1] == r0[k1]);
                    if r0[k1] == box_ptr {
                        assert(r0[k1] as int == box_ptr as int);
                        assert(in_roots(r0, box_ptr as int));
                    }
                }
            }
        }
    }

    /// `Increment(S)`: raise the strong count and force the color back to
    /// Black.  The color reset rescues a handle cloned during a collection
    /// from any provisional Gray or White marking.
    pub fn increment(&mut self, zelf: &Cc) -> (r: Cc)
        requires
            old(self).wf(),
            (zelf.ptr as int) < old(self).nodes@.len(),
            old(self).nodes@[zelf.ptr as int].metadata.strong >= 1,
            old(self).nodes@[zelf.ptr as int].metadata.strong < usize::MAX,
        ensures
            final(self).wf(),
            r.ptr == zelf.ptr,
            final(self).nodes@ == old(self).nodes@.update(
                zelf.ptr as int,
                old(self).nodes@[zelf.ptr as int].with_strong(
                    (old(self).nodes@[zelf.ptr as int].metadata.strong + 1) as usize,
                ).with_color(Color::Black),
            ),
            final(self).roots@ == old(self).roots@,
    {
        let i = zelf.ptr;
        let m = vec_index_mut(&mut self.nodes, i);
        m.metadata.inc_strong();
        m.metadata.set_color(Color::Black);
        proof {
            let nodes0 = old(self).nodes@;
            let v = nodes0[i as int].with_strong(
                (nodes0[i as int].metadata.strong + 1) as usize,
            ).with_color(Color::Black);
            assert(self.nodes@ =~= nodes0.update(i as int, v));
            assert(node_ok(nodes0, i as int));
            assert(node_ok(nodes0.update(i as int, v), i as int));
            lemma_inv_update(nodes0, i as int, v);
            lemma_roots_update_same_buffered(old(self).roots@, nodes0, i as int, v);
        }
        Cc { ptr: i }
    }

    /// Store a strong handle inside a managed object: record the edge from
    /// `parent` to the object `child` designates, the edge set a trace of
    /// `parent` enumerates.  The stored handle keeps owning its unit of the
    /// child's strong count, so no count changes.
    pub fn add_child(&mut self, parent: &Cc, child: Cc)
        requires
            old(self).wf(),
            (parent.ptr as int) < old(self).nodes@.len(),
            old(self).nodes@[parent.ptr as int].metadata.strong >= 1,
            (child.ptr as int) < old(self).nodes@.len(),
            old(self).nodes@[child.ptr as int].metadata.strong >= 1,
        ensures
            final(self).wf(),
            final(self).roots@ == old(self).roots@,
            final(self).nodes@.len() == old(self).nodes@.len(),
            forall|j: int| 0 <= j < old(self).nodes@.len() && j != parent.ptr
                ==> final(self).nodes@[j] == old(self).nodes@[j],
            final(self).nodes@[parent.ptr as int].metadata
                == old(self).nodes@[parent.ptr as int].metadata,
            final(self).nodes@[parent.ptr as int].value
                == old(self).nodes@[parent.ptr as int].value,
            final(self).nodes@[parent.ptr as int].dropped
                == old(self).nodes@[parent.ptr as int].dropped,
            final(self).nodes@[parent.ptr as int].children@
                == old(self).nodes@[parent.ptr as int].children@.push(child.ptr),
    {
        let m = vec_index_mut(&mut self.nodes, parent.ptr);
        m.children.push(child.ptr);
        proof {
            let nodes0 = old(self).nodes@;
            let v = self.nodes@[parent.ptr as int];
            assert(self.nodes@ =~= nodes0.update(parent.ptr as int, v));
            assert(node_ok(nodes0, parent.ptr as int));
            assert(node_ok(nodes0.update(parent.ptr as int, v), parent.ptr as int)) by {
                assert(!nodes0[parent.ptr as int].dropped);
                assert(forall|j: int| 0 <= j < v.children@.len() - 1
                    ==> v.children@[j] == nodes0[parent.ptr as int].children@[j]);
            }
            lemma_inv_update(nodes0, parent.ptr as int, v);
            lemma_roots_update_same_buffered(old(self).roots@, nodes0, parent.ptr as int, v);
        }
    }

    /// `Release(S)`: the strong count has reached zero, so the payload is
    /// dropped here.  Takes the object's strong outgoing edges out and hands
    /// them back to the caller, which owes one decrement per edge; colors
    /// the cell Black; and, unless the cell sits in the roots buffer, frees
    /// it.
    fn release(&mut self, zelf: CcPtr) -> (cs: Vec<CcPtr>)
        requires
            old(self).wf(),
            (zelf as int) < old(self).nodes@.len(),
            old(self).nodes@[zelf as int].metadata.strong == 0,
            !old(self).nodes@[zelf as int].dropped,
        ensures
            final(self).wf(),
            final(self).roots@ == old(self).roots@,
            final(self).nodes@.len() == old(self).nodes@.len(),
            cs@ == old(self).nodes@[zelf as int].children@,
            forall|j: int| 0 <= j < old(self).nodes@.len() && j != zelf
                ==> final(self).nodes@[j] == old(self).nodes@[j],
            final(self).nodes@[zelf as int].dropped,
            final(self).nodes@[zelf as int].children@.len() == 0,
            final(self).nodes@[zelf as int].metadata.strong == 0,
            final(self).nodes@[zelf as int].metadata.color == Color::Black,
            final(self).nodes@[zelf as int].metadata.buffered
                == old(self).nodes@[zelf as int].metadata.buffered,
            final(self).nodes@[zelf as int].value == old(self).nodes@[zelf as int].value,
            old(self).nodes@[zelf as int].metadata.buffered
                ==> final(self).nodes@[zelf as int].metadata.weak
                    == old(self).nodes@[zelf as int].metadata.weak,
            !old(self).nodes@[zelf as int].metadata.buffered
                ==> final(self).nodes@[zelf as int].metadata.weak
                    == old(self).nodes@[zelf as int].metadata.weak - 1,
    {
        let ghost nodes0 = old(self).nodes@;
        let mut cs: Vec<CcPtr> = Vec::new();
        let m = vec_index_mut(&mut self.nodes, zelf);
        core::mem::swap(&mut cs, &mut m.children);
        m.dropped = true;
        m.metadata.set_color(Color::Black);
        proof {
            let v = self.nodes@[zelf as int];
            assert(self.nodes@ =~= nodes0.update(zelf as int, v));
            assert(node_ok(nodes0, zelf as int));
            assert(node_ok(nodes0.update(zelf as int, v), zelf as int));
            lemma_inv_update(nodes0, zelf as int, v);
            lemma_roots_update_same_buffered(old(self).roots@, nodes0, zelf as int, v);
        }
        let buffered = self.nodes[zelf].metadata.buffered();
        if !buffered {
            let ghost mid = *self;
            dealloc::free(self, zelf);
            proof {
                // `free` only lowers the cell's weak count (and may turn it
                // into a tombstone); no buffered flag moved, so the roots
                // invariants carry over.
                assert forall|i: int| 0 <= i < self.nodes@.len()
                    && self.nodes@[i].metadata.buffered implies in_roots(self.roots@, i) by {
                    assert(mid.nodes@[i].metadata.buffered);
                }
            }
        }
        cs
    }

    /// `Decrement(S)`: destroy a strong handle, which this call consumes.
    /// Lowers the object's strong count; if the count reaches zero the
    /// object is released and each of its strong children is decremented in
    /// turn, else the object becomes a candidate cycle root.  A decrement of
    /// an already-dead object does nothing (defensive; it cannot occur in a
    /// well-formed program).
    ///
    /// Dropping a handle is, in full, a decrement followed by a
    /// `collect_cycles` run: a caller that models a drop makes both calls.
    /// Batching the collection behind a roots-buffer watermark instead is a
    /// policy choice, not a correctness one.
    pub fn decrement(&mut self, zelf: Cc)
        requires
            old(self).wf(),
            (zelf.ptr as int) < old(self).nodes@.len(),
        ensures
            final(self).wf(),
            final(self).nodes@.len() == old(self).nodes@.len(),
            forall|j: int| 0 <= j < old(self).nodes@.len()
                ==> final(self).nodes@[j].metadata.strong
                    <= old(self).nodes@[j].metadata.strong,
            forall|j: int| 0 <= j < old(self).nodes@.len()
                ==> final(self).nodes@[j].metadata.weak <= old(self).nodes@[j].metadata.weak,
            forall|j: int| 0 <= j < old(self).nodes@.len()
                ==> final(self).nodes@[j].value == old(self).nodes@[j].value,
            forall|j: int| 0 <= j < old(self).nodes@.len() && old(self).nodes@[j].dropped
                ==> final(self).nodes@[j] == old(self).nodes@[j],
            old(self).roots@.len() <= final(self).roots@.len(),
            forall|k: int| 0 <= k < old(self).roots@.len()
                ==> final(self).roots@[k] == old(self).roots@[k],
            old(self).nodes@[zelf.ptr as int].metadata.strong == 0 ==> {
                &&& final(self).nodes@ == old(self).nodes@
                &&& final(self).roots@ == old(self).roots@
            },
            old(self).nodes@[zelf.ptr as int].metadata.strong > 1 ==> decrement_live_post(
                *old(self),
                *final(self),
                zelf.ptr,
            ),
            old(self).nodes@[zelf.ptr as int].metadata.strong == 1
                && old(self).nodes@[zelf.ptr as int].children@.len() == 0
                ==> decrement_last_leaf_post(*old(self), *final(self), zelf.ptr),
            old(self).nodes@[zelf.ptr as int].metadata.strong == 1 && all_edges_to_self(
                old(self).nodes@[zelf.ptr as int],
                zelf.ptr,
            ) ==> decrement_last_leaf_post(*old(self), *final(self), zelf.ptr),
            old(self).nodes@[zelf.ptr as int].metadata.strong == 1
                && old(self).nodes@[zelf.ptr as int].children@.len() == 1
                && old(self).nodes@[zelf.ptr as int].children@[0] != zelf.ptr
                && old(self).nodes@[old(self).nodes@[zelf.ptr as int].children@[0] as int]
                .metadata.strong >= 2 ==> decrement_one_child_post(
                *old(self),
                *final(self),
                zelf.ptr,
                old(self).nodes@[zelf.ptr as int].children@[0],
            ),
            old(self).nodes@[zelf.ptr as int].metadata.strong == 1 ==> {
                &&& final(self).nodes@[zelf.ptr as int].dropped
                &&& final(self).nodes@[zelf.ptr as int].metadata.strong == 0
                &&& final(self).nodes@[zelf.ptr as int].children@.len() == 0
                &&& final(self).nodes@[zelf.ptr as int].metadata.color == Color::Black
                &&& final(self).nodes@[zelf.ptr as int].metadata.buffered
                    == old(self).nodes@[zelf.ptr as int].metadata.buffered
                &&& (old(self).nodes@[zelf.ptr as int].metadata.buffered
                    ==> final(self).nodes@[zelf.ptr as int].metadata.weak
                        == old(self).nodes@[zelf.ptr as int].metadata.weak)
                &&& (!old(self).nodes@[zelf.ptr as int].metadata.buffered
                    ==> final(self).nodes@[zelf.ptr as int].metadata.weak
                        == old(self).nodes@[zelf.ptr as int].metadata.weak - 1)
            },
    {
        let i = zelf.ptr;
        let ghost nodes0 = old(self).nodes@;
        if self.nodes[i].metadata.strong() == 0 {
            return ;
        }
        let m = vec_index_mut(&mut self.nodes, i);
        let ns = m.metadata.dec_strong();
        proof {
            let v = nodes0[i as int].with_strong(
                (nodes0[i as int].metadata.strong - 1) as usize,
            );
            assert(self.nodes@ =~= nodes0.update(i as int, v));
            assert(node_ok(nodes0, i as int));
            assert(node_ok(nodes0.update(i as int, v), i as int));
            lemma_inv_update(nodes0, i as int, v);
            lemma_roots_update_same_buffered(old(self).roots@, nodes0, i as int, v);
        }
        if ns > 0 {
            let ghost mid = *self;
            self.possible_root(i);
            proof {
                let n = nodes0[i as int];
                let dec = n.with_strong((n.metadata.strong - 1) as usize);
                assert(mid.nodes@ == nodes0.update(i as int, dec));
                assert(mid.nodes@[i as int] == dec);
                if n.metadata.color != Color::Purple {
                    if n.metadata.buffered {
                        assert(self.nodes@ =~= nodes0.update(
                            i as int,
                            dec.with_color(Color::Purple),
                        ));
                    } else {
                        assert(self.nodes@ =~= nodes0.update(
                            i as int,
                            dec.with_color(Color::Purple).with_buffered(true),
                        ));
                    }
                }
            }
            return ;
        }
        let mut pending = self.release(i);
        let ghost after_release = self.nodes@[i as int];
        let ghost c0 = nodes0[i as int].children@[0];
        let ghost self_kids = all_edges_to_self(nodes0[i as int], i);
        let ghost one_child = nodes0[i as int].children@.len() == 1 && c0 != i
            && (c0 as int) < nodes0.len() && nodes0[c0 as int].metadata.strong >= 2;
        while pending.len() > 0
            invariant
                i == zelf.ptr,
                nodes0 == old(self).nodes@,
                (i as int) < nodes0.len(),
                self.nodes@[i as int] == after_release,
                after_release.dropped,
                after_release.metadata.strong == 0,
                after_release.metadata.color == Color::Black,
                after_release.children@.len() == 0,
                after_release.metadata.buffered == nodes0[i as int].metadata.buffered,
                after_release.value == nodes0[i as int].value,
                nodes0[i as int].metadata.buffered ==> after_release.metadata.weak
                    == nodes0[i as int].metadata.weak,
                !nodes0[i as int].metadata.buffered ==> after_release.metadata.weak
                    == nodes0[i as int].metadata.weak - 1,
                c0 == nodes0[i as int].children@[0],
                self_kids == all_edges_to_self(nodes0[i as int], i),
                one_child == (nodes0[i as int].children@.len() == 1 && c0 != i
                    && (c0 as int) < nodes0.len() && nodes0[c0 as int].metadata.strong
                    >= 2),
                self_kids ==> (forall|t: int| 0 <= t < pending@.len() ==> pending@[t]
                    == i) && (forall|j: int| 0 <= j < nodes0.len() && j != i
                    ==> self.nodes@[j] == nodes0[j]) && self.roots@ == old(self).roots@,
                one_child ==> (pending@ =~= seq![c0] && (forall|j: int| 0 <= j
                    < nodes0.len() && j != i ==> self.nodes@[j] == nodes0[j])
                    && self.roots@ == old(self).roots@) || (pending@.len() == 0
                    && decrement_one_child_post(*old(self), *self, i, c0)),
                self.wf(),
                self.nodes@.len() == nodes0.len(),
                forall|k: int| 0 <= k < pending@.len()
                    ==> (pending@[k] as int) < self.nodes@.len(),
                forall|j: int| 0 <= j < nodes0.len()
                    ==> self.nodes@[j].metadata.strong <= nodes0[j].metadata.strong,
                forall|j: int| 0 <= j < nodes0.len()
                    ==> self.nodes@[j].metadata.weak <= nodes0[j].metadata.weak,
                forall|j: int| 0 <= j < nodes0.len()
                    ==> self.nodes@[j].value == nodes0[j].value,
                forall|j: int| 0 <= j < nodes0.len() && nodes0[j].dropped
                    ==> self.nodes@[j] == nodes0[j],
                old(self).roots@.len() <= self.roots@.len(),
                forall|k: int| 0 <= k < old(self).roots@.len()
                    ==> self.roots@[k] == old(self).roots@[k],
                nodes0[zelf.ptr as int].metadata.strong == 1
                    && nodes0[zelf.ptr as int].children@.len() == 0 ==> {
                    &&& decrement_last_leaf_post(*old(self), *self, zelf.ptr)
                    &&& pending@.len() == 0
                },
            decreases count_matching(self.nodes@, undropped_pred()), pending.len(),
        {
            let ghost prev_nodes = self.nodes@;
            let ghost prev_pending = pending@;
            let c = pending.pop().unwrap();
            if self.nodes[c].metadata.strong() > 0 {
                proof {
                    // The released cell itself has a zero count, so this
                    // cascade step cannot concern it.
                    assert(c as int != i as int) by {
                        if c as int == i as int {
                            assert(self.nodes@[i as int].metadata.strong == 0);
                        }
                    }
                    if self_kids {
                        // Every pending pointer is the released cell itself,
                        // whose count is zero: this branch cannot run.
                        assert(c == i);
                        assert(false);
                    }
                }
                let m2 = vec_index_mut(&mut self.nodes, c);
                let ns2 = m2.metadata.dec_strong();
                proof {
                    let v = prev_nodes[c as int].with_strong(
                        (prev_nodes[c as int].metadata.strong - 1) as usize,
                    );
                    assert(self.nodes@ =~= prev_nodes.update(c as int, v));
                    assert(node_ok(prev_nodes, c as int));
                    assert(node_ok(prev_nodes.update(c as int, v), c as int));
                    lemma_inv_update(prev_nodes, c as int, v);
                    lemma_roots_update_same_buffered(self.roots@, prev_nodes, c as int, v);
                    lemma_count_update(prev_nodes, undropped_pred(), c as int, v);
                }
                if ns2 == 0 {
                    let ghost mid_nodes = self.nodes@;
                    proof {
                        assert(!mid_nodes[c as int].dropped);
                    }
                    let mut cs = self.release(c);
                    proof {
                        assert forall|j: int| 0 <= j < self.nodes@.len()
                            && undropped_pred()(self.nodes@[j]) implies undropped_pred()(
                            mid_nodes[j],
                        ) by {
                            if j != c {
                                assert(self.nodes@[j] == mid_nodes[j]);
                            }
                        }
                        lemma_count_pointwise_lt(
                            mid_nodes,
                            self.nodes@,
                            undropped_pred(),
                            c as int,
                        );
                    }
                    pending.append(&mut cs);
                } else {
                    let ghost mid2 = self.nodes@;
                    self.possible_root(c);
                    proof {
                        lemma_count_pointwise_le(prev_nodes, self.nodes@, undropped_pred());
                        lemma_count_pointwise_le(self.nodes@, prev_nodes, undropped_pred());
                        if one_child && prev_pending =~= seq![c0] {
                            assert(c == c0);
                            assert(prev_nodes[c0 as int] == nodes0[c0 as int]);
                            let m = nodes0[c0 as int];
                            let dec = m.with_strong((m.metadata.strong - 1) as usize);
                            assert(mid2 == prev_nodes.update(c0 as int, dec));
                            assert(mid2[c0 as int] == dec);
                            if m.metadata.color == Color::Purple {
                                assert(self.nodes@ == mid2 && self.roots@
                                    == old(self).roots@);
                            } else if m.metadata.buffered {
                                assert(self.nodes@ == mid2.update(
                                    c0 as int,
                                    dec.with_color(Color::Purple),
                                ) && self.roots@ == old(self).roots@);
                            } else {
                                assert(self.nodes@ == mid2.update(
                                    c0 as int,
                                    dec.with_color(Color::Purple).with_buffered(true),
                                ) && self.roots@ == old(self).roots@.push(c0));
                            }
                            assert forall|j: int| 0 <= j < nodes0.len() && j != i && j
                                != c0 implies self.nodes@[j] == nodes0[j] by {
                                assert(prev_nodes[j] == nodes0[j]);
                                assert(mid2[j] == prev_nodes[j]);
                                assert(self.nodes@[j] == mid2[j]);
                            }
                            assert(mid2[i as int] == prev_nodes[i as int]);
                            assert(self.nodes@[i as int] == mid2[i as int]);
                            assert(self.nodes@[i as int] == after_release);
                            assert(self.nodes@.len() == nodes0.len());
                            assert(self.nodes@[i as int].dropped);
                            assert(self.nodes@[i as int].children@.len() == 0);
                            assert(self.nodes@[i as int].metadata.strong == 0);
                            assert(self.nodes@[i as int].metadata.color == Color::Black);
                            assert(self.nodes@[i as int].metadata.buffered
                                == nodes0[i as int].metadata.buffered);
                            assert(self.nodes@[i as int].value == nodes0[i as int].value);
                            assert(nodes0[i as int].metadata.buffered
                                ==> self.nodes@[i as int].metadata.weak
                                == nodes0[i as int].metadata.weak);
                            assert(!nodes0[i as int].metadata.buffered
                                ==> self.nodes@[i as int].metadata.weak
                                == nodes0[i as int].metadata.weak - 1);
                            assert(m.metadata.color == Color::Purple
                                ==> self.nodes@[c0 as int] == dec && self.roots@
                                == old(self).roots@);
                            assert(m.metadata.color != Color::Purple && m.metadata.buffered
                                ==> self.nodes@[c0 as int] == dec.with_color(Color::Purple)
                                && self.roots@ == old(self).roots@);
                            assert(m.metadata.color != Color::Purple && !m.metadata.buffered
                                ==> self.nodes@[c0 as int] == dec.with_color(
                                Color::Purple,
                            ).with_buffered(true) && self.roots@ == old(self).roots@.push(
                                c0,
                            ));
                            assert(decrement_one_child_post(*old(self), *self, i, c0));
                            assert(pending@.len() == 0);
                        }
                    }
                }
            } else {
                proof {
                    if one_child {
                        assert(prev_pending =~= seq![c0]);
                        assert(c == c0);
                        assert(prev_nodes[c0 as int] == nodes0[c0 as int]);
                        assert(false);
                    }
                }
            }
        }
    }

    /// Deallocate the cell if possible; its payload should already have been
    /// dropped.  Forwards to the deallocator.
    pub fn free(&mut self, zelf: CcPtr)
        requires
            inv_nodes(old(self).nodes@),
            (zelf as int) < old(self).nodes@.len(),
            old(self).nodes@[zelf as int].metadata.strong == 0,
            !old(self).nodes@[zelf as int].metadata.buffered,
            old(self).nodes@[zelf as int].metadata.weak >= 1,
        ensures
            inv_nodes(final(self).nodes@),
            final(self).roots@ == old(self).roots@,
            final(self).nodes@.len() == old(self).nodes@.len(),
            forall|j: int| 0 <= j < old(self).nodes@.len() && j != zelf
                ==> final(self).nodes@[j] == old(self).nodes@[j],
            final(self).nodes@[zelf as int].metadata
                == old(self).nodes@[zelf as int].metadata.with_weak(
                (old(self).nodes@[zelf as int].metadata.weak - 1) as usize,
            ),
            old(self).nodes@[zelf as int].metadata.weak == 1
                ==> final(self).nodes@[zelf as int].dropped
                    && final(self).nodes@[zelf as int].children@.len() == 0,
    {
        dealloc::free(self, zelf);
    }

    /// Destroy a weak handle: lower the weak count by the unit the handle
    /// owned; when the count reaches zero — which can happen only once every
    /// strong handle is gone and the implicit weak has been removed — the
    /// backing storage is released.
    pub fn drop_weak(&mut self, zelf: Weak)
        requires
            old(self).wf(),
            (zelf.ptr as int) < old(self).nodes@.len(),
            old(self).nodes@[zelf.ptr as int].metadata.weak >= 1,
            old(self).nodes@[zelf.ptr as int].metadata.weak == 1 ==> {
                &&& old(self).nodes@[zelf.ptr as int].metadata.strong == 0
                &&& !old(self).nodes@[zelf.ptr as int].metadata.buffered
            },
        ensures
            final(self).wf(),
            final(self).roots@ == old(self).roots@,
            final(self).nodes@.len() == old(self).nodes@.len(),
            forall|j: int| 0 <= j < old(self).nodes@.len() && j != zelf.ptr
                ==> final(self).nodes@[j] == old(self).nodes@[j],
            final(self).nodes@[zelf.ptr as int].metadata
                == old(self).nodes@[zelf.ptr as int].metadata.with_weak(
                (old(self).nodes@[zelf.ptr as int].metadata.weak - 1) as usize,
            ),
            final(self).nodes@[zelf.ptr as int].value
                == old(self).nodes@[zelf.ptr as int].value,
            old(self).nodes@[zelf.ptr as int].metadata.weak == 1
                ==> final(self).nodes@[zelf.ptr as int].dropped
                    && final(self).nodes@[zelf.ptr as int].children@.len() == 0,
            old(self).nodes@[zelf.ptr as int].metadata.weak > 1
                ==> final(self).nodes@[zelf.ptr as int].dropped
                    == old(self).nodes@[zelf.ptr as int].dropped
                    && final(self).nodes@[zelf.ptr as int].children@
                        == old(self).nodes@[zelf.ptr as int].children@,
    {
        let p = zelf.ptr;
        let ghost nodes0 = old(self).nodes@;
        let m = vec_index_mut(&mut self.nodes, p);
        m.metadata.dec_weak();
        proof {
            let v = nodes0[p as int].with_weak((nodes0[p as int].metadata.weak - 1) as usize);
            assert(self.nodes@ =~= nodes0.update(p as int, v));
            assert(node_ok(nodes0, p as int));
            lemma_inv_except_update(nodes0, p as int, v);
        }
        let weak_now = self.nodes[p].metadata.weak();
        if weak_now == 0 {
            // The weak count only reaches zero after all the strong handles
            // have disappeared.
            dealloc::deallocate(self, p);
        } else {
            proof {
                let v = nodes0[p as int].with_weak(
                    (nodes0[p as int].metadata.weak - 1) as usize,
                );
                assert(node_ok(nodes0.update(p as int, v), p as int));
                lemma_inv_update(nodes0, p as int, v);
            }
        }
        proof {
            assert forall|k: int| 0 <= k < self.roots@.len() implies (self.roots@[k] as int)
                < self.nodes@.len() && self.nodes@[self.roots@[k] as int].metadata.buffered by {
                assert(nodes0[self.roots@[k] as int].metadata.buffered);
                assert(self.roots@[k] as int != p as int || nodes0[p as int].metadata.weak
                    > 1);
                assert(self.nodes@[self.roots@[k] as int].metadata.buffered);
            }
            assert forall|i: int| 0 <= i < self.nodes@.len()
                && self.nodes@[i].metadata.buffered implies in_roots(self.roots@, i) by {
                assert(nodes0[i].metadata.buffered);
            }
        }
    }

    /// `PossibleRoot(S)`: color the cell Purple and, if it is not already
    /// buffered, enroll it in the roots buffer.
    ///
    /// The collector owns the slab, so by construction it outlives every
    /// header registered with it: the teardown race of a header whose
    /// collector is already gone cannot arise, and no immediate-free path
    /// for it is needed.
    pub fn possible_root(&mut self, zelf: CcPtr)
        requires
            old(self).wf(),
            (zelf as int) < old(self).nodes@.len(),
            old(self).nodes@[zelf as int].metadata.strong >= 1,
        ensures
            final(self).wf(),
            final(self).nodes@.len() == old(self).nodes@.len(),
            old(self).nodes@[zelf as int].metadata.color == Color::Purple ==> {
                &&& final(self).nodes@ == old(self).nodes@
                &&& final(self).roots@ == old(self).roots@
            },
            old(self).nodes@[zelf as int].metadata.color != Color::Purple
                && old(self).nodes@[zelf as int].metadata.buffered ==> {
                &&& final(self).nodes@ == old(self).nodes@.update(
                    zelf as int,
                    old(self).nodes@[zelf as int].with_color(Color::Purple),
                )
                &&& final(self).roots@ == old(self).roots@
            },
            old(self).nodes@[zelf as int].metadata.color != Color::Purple
                && !old(self).nodes@[zelf as int].metadata.buffered ==> {
                &&& final(self).nodes@ == old(self).nodes@.update(
                    zelf as int,
                    old(self).nodes@[zelf as int].with_color(Color::Purple).with_buffered(true),
                )
                &&& final(self).roots@ == old(self).roots@.push(zelf)
            },
    {
        let ghost nodes0 = old(self).nodes@;
        let ghost roots0 = old(self).roots@;
        if self.nodes[zelf].metadata.color() != Color::Purple {
            let m = vec_index_mut(&mut self.nodes, zelf);
            m.metadata.set_color(Color::Purple);
            let buffered = self.nodes[zelf].metadata.buffered();
            proof {
                assert(node_ok(nodes0, zelf as int));
            }
            if !buffered {
                let m2 = vec_index_mut(&mut self.nodes, zelf);
                m2.metadata.set_buffered(true);
                proof {
                    let v = nodes0[zelf as int].with_color(Color::Purple).with_buffered(true);
                    assert(self.nodes@ =~= nodes0.update(zelf as int, v));
                    assert(node_ok(nodes0.update(zelf as int, v), zelf as int));
                    lemma_inv_update(nodes0, zelf as int, v);
                    // The roots buffer still satisfies its own invariant against
                    // the updated slab: no buffer entry designates `zelf`, which
                    // was not buffered.
                    assert forall|k: int| 0 <= k < roots0.len() implies (roots0[k] as int)
                        < self.nodes@.len()
                        && self.nodes@[roots0[k] as int].metadata.buffered by {
                        assert(nodes0[roots0[k] as int].metadata.buffered);
                        assert(roots0[k] as int != zelf as int);
                        assert(self.nodes@[roots0[k] as int] == nodes0[roots0[k] as int]);
                    }
                    assert(!in_roots(roots0, zelf as int)) by {
                        if in_roots(roots0, zelf as int) {
                            let k = choose|k: int|
                                0 <= k < roots0.len() && roots0[k] as int == zelf as int;
                            assert(nodes0[zelf as int].metadata.buffered);
                        }
                    }
                    assert forall|i: int| 0 <= i < self.nodes@.len() && i != zelf as int
                        && self.nodes@[i].metadata.buffered implies in_roots(roots0, i) by {
                        assert(self.nodes@[i] == nodes0[i]);
                        assert(nodes0[i].metadata.buffered);
                    }
                }
                self.add_root(zelf);
            } else {
                proof {
                    let v = nodes0[zelf as int].with_color(Color::Purple);
                    assert(self.nodes@ =~= nodes0.update(zelf as int, v));
                    assert(node_ok(nodes0.update(zelf as int, v), zelf as int));
                    lemma_inv_update(nodes0, zelf as int, v);
                    lemma_roots_update_same_buffered(roots0, nodes0, zelf as int, v);
                }
            }
        }
    }

    /// `MarkGray(S)`: color the subgraph reachable from `zelf` Gray, and
    /// subtract every internal edge from its target's strong count — the
    /// trial deletion, so that any surviving nonzero count proves an
    /// external root.  A target whose count is already zero is left as it
    /// is (defensive, in the spirit of `decrement`'s dead-object check; a
    /// consistent graph never reaches it).
    ///
    /// For a root whose outgoing edges all point back to itself (none at
    /// all, or a self-cycle) the last postconditions pin the pass down
    /// exactly: the root turns Gray and loses one strong unit per edge,
    /// and nothing else changes.  The same holds of a pure two-cell cycle:
    /// both cells turn Gray and each loses one unit per edge into it.  With
    /// the matching clauses of `scan_black`, such roots leave the mark/scan
    /// round trip with every strong count restored (see
    /// `mark_scan_round_trip` and `mark_scan_round_trip_pair`).
    pub fn mark_gray(&mut self, zelf: CcPtr)
        requires
            inv_nodes(old(self).nodes@),
            (zelf as int) < old(self).nodes@.len(),
        ensures
            inv_nodes(final(self).nodes@),
            final(self).roots@ == old(self).roots@,
            same_skeleton(old(self).nodes@, final(self).nodes@),
            forall|j: int| 0 <= j < old(self).nodes@.len()
                ==> final(self).nodes@[j].metadata.strong
                    <= old(self).nodes@[j].metadata.strong,
            forall|j: int| 0 <= j < old(self).nodes@.len()
                && old(self).nodes@[j].metadata.color == Color::Gray
                ==> final(self).nodes@[j].metadata.color == Color::Gray,
            forall|j: int| 0 <= j < old(self).nodes@.len()
                ==> final(self).nodes@[j].metadata.color
                    == old(self).nodes@[j].metadata.color
                    || final(self).nodes@[j].metadata.color == Color::Gray,
            forall|u: int, w: int|
                0 <= u < old(self).nodes@.len() && final(self).nodes@[u].metadata.color
                    == Color::Gray && old(self).nodes@[u].metadata.color != Color::Gray
                    && 0 <= w < final(self).nodes@[u].children@.len()
                    ==> final(self).nodes@[final(self).nodes@[u].children@[w] as int]
                    .metadata.color == Color::Gray,
            final(self).nodes@[zelf as int].metadata.color == Color::Gray,
            old(self).nodes@[zelf as int].children@.len() == 0 ==> final(self).nodes@
                == (if old(self).nodes@[zelf as int].metadata.color == Color::Gray {
                    old(self).nodes@
                } else {
                    old(self).nodes@.update(
                        zelf as int,
                        old(self).nodes@[zelf as int].with_color(Color::Gray),
                    )
                }),
            old(self).nodes@[zelf as int].metadata.color == Color::Gray
                ==> final(self).nodes@ == old(self).nodes@,
            all_edges_to_self(old(self).nodes@[zelf as int], zelf)
                && old(self).nodes@[zelf as int].metadata.color != Color::Gray
                && old(self).nodes@[zelf as int].metadata.strong
                    >= old(self).nodes@[zelf as int].children@.len()
                ==> final(self).nodes@ == old(self).nodes@.update(
                    zelf as int,
                    old(self).nodes@[zelf as int].with_color(Color::Gray).with_strong(
                        (old(self).nodes@[zelf as int].metadata.strong
                            - old(self).nodes@[zelf as int].children@.len()) as usize,
                    ),
                ),
            mutual_pair_pre(
                old(self).nodes@,
                zelf,
                old(self).nodes@[zelf as int].children@[0],
            ) ==> mark_gray_mutual_post(
                old(self).nodes@,
                final(self).nodes@,
                zelf,
                old(self).nodes@[zelf as int].children@[0],
            ),
    {
        let ghost nodes0 = old(self).nodes@;
        let ghost k0 = nodes0[zelf as int].children@.len() as int;
        let ghost strong0 = nodes0[zelf as int].metadata.strong as int;
        let ghost self_loop = all_edges_to_self(nodes0[zelf as int], zelf)
            && nodes0[zelf as int].metadata.color != Color::Gray && strong0 >= k0;
        let ghost mg_target = nodes0.update(
            zelf as int,
            nodes0[zelf as int].with_color(Color::Gray).with_strong(
                (strong0 - k0) as usize,
            ),
        );
        let ghost tt = nodes0[zelf as int].children@[0];
        let ghost mg2 = mutual_pair_pre(nodes0, zelf, tt);
        let ghost ts0 = nodes0[tt as int].metadata.strong as int;
        let ghost k2g = nodes0[tt as int].children@.len() as int;
        let ghost mg2_a = nodes0.update(
            zelf as int,
            nodes0[zelf as int].with_color(Color::Gray),
        ).update(tt as int, nodes0[tt as int].with_strong((ts0 - k0) as usize));
        let ghost mg2_b = nodes0.update(
            zelf as int,
            nodes0[zelf as int].with_color(Color::Gray).with_strong(
                (strong0 - k2g) as usize,
            ),
        ).update(
            tt as int,
            nodes0[tt as int].with_color(Color::Gray).with_strong((ts0 - k0) as usize),
        );
        let mut stack: Vec<CcPtr> = Vec::new();
        stack.push(zelf);
        proof {
            assert(stack@ =~= seq![zelf]);
        }
        while stack.len() > 0
            invariant
                (zelf as int) < nodes0.len(),
                k0 == nodes0[zelf as int].children@.len() as int,
                strong0 == nodes0[zelf as int].metadata.strong as int,
                self_loop == (all_edges_to_self(nodes0[zelf as int], zelf)
                    && nodes0[zelf as int].metadata.color != Color::Gray && strong0
                    >= k0),
                mg_target == nodes0.update(
                    zelf as int,
                    nodes0[zelf as int].with_color(Color::Gray).with_strong(
                        (strong0 - k0) as usize,
                    ),
                ),
                inv_nodes(self.nodes@),
                self.roots@ == old(self).roots@,
                same_skeleton(nodes0, self.nodes@),
                forall|k: int| 0 <= k < stack@.len()
                    ==> (stack@[k] as int) < self.nodes@.len(),
                forall|j: int| 0 <= j < nodes0.len()
                    ==> self.nodes@[j].metadata.strong <= nodes0[j].metadata.strong,
                forall|j: int| 0 <= j < nodes0.len()
                    && nodes0[j].metadata.color == Color::Gray
                    ==> self.nodes@[j].metadata.color == Color::Gray,
                forall|j: int| 0 <= j < nodes0.len()
                    ==> self.nodes@[j].metadata.color == nodes0[j].metadata.color
                        || self.nodes@[j].metadata.color == Color::Gray,
                forall|u: int, w: int|
                    0 <= u < nodes0.len() && self.nodes@[u].metadata.color
                        == Color::Gray && nodes0[u].metadata.color != Color::Gray && 0
                        <= w < self.nodes@[u].children@.len()
                        ==> self.nodes@[self.nodes@[u].children@[w] as int].metadata
                        .color == Color::Gray || in_roots(
                        stack@,
                        self.nodes@[u].children@[w] as int,
                    ),
                self.nodes@[zelf as int].metadata.color == Color::Gray
                    || (stack@ =~= seq![zelf] && self.nodes@ == nodes0),
                nodes0[zelf as int].children@.len() == 0 ==> (stack@ =~= seq![zelf]
                    && self.nodes@ == nodes0) || (stack@.len() == 0 && self.nodes@
                    == (if nodes0[zelf as int].metadata.color == Color::Gray {
                        nodes0
                    } else {
                        nodes0.update(
                            zelf as int,
                            nodes0[zelf as int].with_color(Color::Gray),
                        )
                    })),
                nodes0[zelf as int].metadata.color == Color::Gray ==> self.nodes@
                    == nodes0 && (stack@ =~= seq![zelf] || stack@.len() == 0),
                self_loop ==> (stack@ =~= seq![zelf] && self.nodes@ == nodes0) || (
                self.nodes@ == mg_target && (forall|t: int| 0 <= t < stack@.len()
                    ==> stack@[t] == zelf)),
                tt == nodes0[zelf as int].children@[0],
                ts0 == nodes0[tt as int].metadata.strong as int,
                k2g == nodes0[tt as int].children@.len() as int,
                mg2 == mutual_pair_pre(nodes0, zelf, tt),
                mg2_a == nodes0.update(
                    zelf as int,
                    nodes0[zelf as int].with_color(Color::Gray),
                ).update(tt as int, nodes0[tt as int].with_strong((ts0 - k0) as usize)),
                mg2_b == nodes0.update(
                    zelf as int,
                    nodes0[zelf as int].with_color(Color::Gray).with_strong(
                        (strong0 - k2g) as usize,
                    ),
                ).update(
                    tt as int,
                    nodes0[tt as int].with_color(Color::Gray).with_strong(
                        (ts0 - k0) as usize,
                    ),
                ),
                mg2 ==> (stack@ =~= seq![zelf] && self.nodes@ == nodes0) || (
                self.nodes@ == mg2_a && stack@.len() >= 1 && (forall|i: int| 0 <= i
                    < stack@.len() ==> stack@[i] == tt)) || (self.nodes@ == mg2_b && (
                forall|i: int| 0 <= i < stack@.len() ==> stack@[i] == zelf || stack@[i]
                    == tt)),
            decreases
                    self.nodes@.len() - count_matching(self.nodes@, gray_pred()),
                    stack.len(),
        {
            let ghost prev_nodes = self.nodes@;
            let ghost prev_stack = stack@;
            let x = stack.pop().unwrap();
            proof {
                lemma_count_le_len(self.nodes@, gray_pred());
                if prev_nodes[zelf as int].metadata.color != Color::Gray {
                    assert(prev_stack =~= seq![zelf]);
                    assert(x == zelf);
                }
            }
            if self.nodes[x].metadata.color() != Color::Gray {
                let m = vec_index_mut(&mut self.nodes, x);
                m.metadata.set_color(Color::Gray);
                proof {
                    let v = prev_nodes[x as int].with_color(Color::Gray);
                    assert(self.nodes@ =~= prev_nodes.update(x as int, v));
                    assert(node_ok(prev_nodes, x as int));
                    assert(node_ok(self.nodes@, x as int));
                    lemma_inv_update(prev_nodes, x as int, v);
                    lemma_count_update(prev_nodes, gray_pred(), x as int, v);
                    lemma_count_le_len(self.nodes@, gray_pred());
                }
                let ghost mid_nodes = self.nodes@;
                proof {
                    // The popped cell was not Gray, and colors only ever turn
                    // Gray here, so it was not Gray at entry either.
                    assert(nodes0[x as int].metadata.color != Color::Gray) by {
                        assert(prev_nodes[x as int].metadata.color != Color::Gray);
                    }
                    // Every newly Gray cell's children are Gray or still on
                    // the stack; the one copy the pop removed named the cell
                    // just grayed.
                    assert forall|u: int, w: int|
                        0 <= u < nodes0.len() && self.nodes@[u].metadata.color
                            == Color::Gray && nodes0[u].metadata.color != Color::Gray
                            && 0 <= w < self.nodes@[u].children@.len()
                        implies self.nodes@[self.nodes@[u].children@[w] as int].metadata
                        .color == Color::Gray || in_roots(
                        stack@,
                        self.nodes@[u].children@[w] as int,
                    ) || (u == x as int && 0 <= w) by {
                        if u != x as int {
                            assert(self.nodes@[u] == prev_nodes[u]);
                            assert(node_ok(prev_nodes, u));
                            let child = prev_nodes[u].children@[w] as int;
                            assert(self.nodes@[u].children@[w] as int == child);
                            assert(prev_nodes[u].metadata.color == Color::Gray);
                            assert(prev_nodes[child].metadata.color == Color::Gray
                                || in_roots(prev_stack, child));
                            if prev_nodes[child].metadata.color == Color::Gray {
                                if child == x as int {
                                    assert(self.nodes@[child].metadata.color
                                        == Color::Gray);
                                } else {
                                    assert(self.nodes@[child] == prev_nodes[child]);
                                }
                            } else {
                                let k = choose|k: int|
                                    0 <= k < prev_stack.len() && prev_stack[k] as int
                                        == child;
                                if k < prev_stack.len() - 1 {
                                    assert(stack@[k] as int == child);
                                } else {
                                    assert(prev_stack[k] == x);
                                    assert(self.nodes@[child].metadata.color
                                        == Color::Gray);
                                }
                            }
                        }
                    }
                    if self_loop && x == zelf && prev_nodes == nodes0 {
                        assert(nodes0[zelf as int].with_color(Color::Gray).with_strong(
                            (strong0 - 0) as usize,
                        ) == nodes0[zelf as int].with_color(Color::Gray));
                        assert(prev_stack =~= seq![zelf]);
                        assert(stack@ =~= prev_stack.subrange(
                            0,
                            prev_stack.len() - 1,
                        ));
                        assert(stack@.len() == 0);
                    }
                    if mg2 {
                        // The two-cell phases: the seed is processed first,
                        // then its partner; afterwards everything is Gray.
                        if prev_nodes == nodes0 {
                            assert(x == zelf);
                            assert(stack@ =~= prev_stack.subrange(
                                0,
                                prev_stack.len() - 1,
                            ));
                            assert(stack@.len() == 0);
                            assert(mid_nodes == nodes0.update(
                                zelf as int,
                                nodes0[zelf as int].with_color(Color::Gray),
                            ));
                        } else if prev_nodes == mg2_a {
                            assert(x == tt);
                            assert(mid_nodes =~= mg2_a.update(
                                tt as int,
                                mg2_a[tt as int].with_color(Color::Gray),
                            ));
                        }
                    }
                }
                let mut j: usize = 0;
                let n_children = self.nodes[x].children.len();
                while j < n_children
                    invariant
                        (x as int) < self.nodes@.len(),
                        (zelf as int) < nodes0.len(),
                        k0 == nodes0[zelf as int].children@.len() as int,
                        strong0 == nodes0[zelf as int].metadata.strong as int,
                        self_loop == (all_edges_to_self(nodes0[zelf as int], zelf)
                            && nodes0[zelf as int].metadata.color != Color::Gray
                            && strong0 >= k0),
                        j <= n_children,
                        n_children == self.nodes@[x as int].children@.len(),
                        inv_nodes(self.nodes@),
                        self.roots@ == old(self).roots@,
                        same_skeleton(nodes0, self.nodes@),
                        same_skeleton(mid_nodes, self.nodes@),
                        forall|k: int| 0 <= k < stack@.len()
                            ==> (stack@[k] as int) < self.nodes@.len(),
                        forall|t: int| 0 <= t < nodes0.len()
                            ==> self.nodes@[t].metadata.strong
                                <= nodes0[t].metadata.strong,
                        forall|t: int| 0 <= t < mid_nodes.len()
                            ==> self.nodes@[t].metadata.color
                                == mid_nodes[t].metadata.color,
                        forall|t: int| 0 <= t < nodes0.len()
                            ==> self.nodes@[t].metadata.color
                                == nodes0[t].metadata.color
                                || self.nodes@[t].metadata.color == Color::Gray,
                        nodes0[x as int].metadata.color != Color::Gray,
                        self.nodes@[x as int].metadata.color == Color::Gray,
                        forall|u: int, w: int|
                            0 <= u < nodes0.len() && self.nodes@[u].metadata.color
                                == Color::Gray && nodes0[u].metadata.color
                                != Color::Gray && 0 <= w
                                < self.nodes@[u].children@.len()
                                ==> self.nodes@[self.nodes@[u].children@[w] as int]
                                .metadata.color == Color::Gray || in_roots(
                                stack@,
                                self.nodes@[u].children@[w] as int,
                            ) || (u == x as int && j <= w),
                        count_matching(self.nodes@, gray_pred())
                            == count_matching(mid_nodes, gray_pred()),
                        self.nodes@[zelf as int].metadata.color == Color::Gray,
                        n_children == 0 ==> stack@ =~= prev_stack.subrange(
                            0,
                            prev_stack.len() - 1,
                        ) && self.nodes@ == mid_nodes,
                        self_loop && x == zelf && prev_nodes == nodes0
                            ==> self.nodes@ == nodes0.update(
                            zelf as int,
                            nodes0[zelf as int].with_color(Color::Gray).with_strong(
                                (strong0 - j) as usize,
                            ),
                        ) && (forall|t: int| 0 <= t < stack@.len() ==> stack@[t]
                            == zelf) && n_children as int == k0,
                        tt == nodes0[zelf as int].children@[0],
                        ts0 == nodes0[tt as int].metadata.strong as int,
                        k2g == nodes0[tt as int].children@.len() as int,
                        mg2 == mutual_pair_pre(nodes0, zelf, tt),
                        mg2 && x == zelf && prev_nodes == nodes0 ==> self.nodes@
                            == nodes0.update(
                            zelf as int,
                            nodes0[zelf as int].with_color(Color::Gray),
                        ).update(
                            tt as int,
                            nodes0[tt as int].with_strong((ts0 - j) as usize),
                        ) && (forall|i: int| 0 <= i < stack@.len() ==> stack@[i] == tt)
                            && stack@.len() == j && n_children as int == k0,
                        mg2 && x == tt && prev_nodes == mg2_a ==> self.nodes@
                            == mg2_a.update(
                            tt as int,
                            mg2_a[tt as int].with_color(Color::Gray),
                        ).update(
                            zelf as int,
                            nodes0[zelf as int].with_color(Color::Gray).with_strong(
                                (strong0 - j) as usize,
                            ),
                        ) && (forall|i: int| 0 <= i < stack@.len() ==> stack@[i] == zelf
                            || stack@[i] == tt) && n_children as int == k2g,
                        mg2_a == nodes0.update(
                            zelf as int,
                            nodes0[zelf as int].with_color(Color::Gray),
                        ).update(
                            tt as int,
                            nodes0[tt as int].with_strong((ts0 - k0) as usize),
                        ),
                    decreases n_children - j,
                {
                    proof {
                        assert(node_ok(self.nodes@, x as int));
                    }
                    let ghost it_nodes = self.nodes@;
                    let ghost it_stack = stack@;
                    let c = self.nodes[x].children[j];
                    proof {
                        if self_loop && x == zelf && prev_nodes == nodes0 {
                            assert(self.nodes@[x as int].children@[j as int]
                                == nodes0[zelf as int].children@[j as int]);
                            assert(c == zelf);
                        }
                        if mg2 && x == zelf && prev_nodes == nodes0 {
                            assert(self.nodes@[x as int].children@
                                == nodes0[zelf as int].children@);
                            assert(self.nodes@[x as int].children@[j as int]
                                == nodes0[zelf as int].children@[j as int]);
                            assert(c == tt);
                        }
                        if mg2 && x == tt && prev_nodes == mg2_a {
                            assert(self.nodes@[x as int].children@
                                == nodes0[tt as int].children@);
                            assert(self.nodes@[x as int].children@[j as int]
                                == nodes0[tt as int].children@[j as int]);
                            assert(c == zelf);
                        }
                    }
                    let sc = self.nodes[c].metadata.strong();
                    if sc > 0 {
                        let ghost pn = self.nodes@;
                        let m2 = vec_index_mut(&mut self.nodes, c);
                        m2.metadata.dec_strong();
                        proof {
                            let v = pn[c as int].with_strong((sc - 1) as usize);
                            assert(self.nodes@ =~= pn.update(c as int, v));
                            assert(node_ok(pn, c as int));
                            assert(node_ok(self.nodes@, c as int));
                            lemma_inv_update(pn, c as int, v);
                            lemma_count_update(pn, gray_pred(), c as int, v);
                            if self_loop && x == zelf && prev_nodes == nodes0 {
                                assert(self.nodes@ =~= nodes0.update(
                                    zelf as int,
                                    nodes0[zelf as int].with_color(
                                        Color::Gray,
                                    ).with_strong((strong0 - (j + 1)) as usize),
                                ));
                            }
                            if mg2 && x == zelf && prev_nodes == nodes0 {
                                assert(sc as int == ts0 - j);
                                assert(self.nodes@ =~= nodes0.update(
                                    zelf as int,
                                    nodes0[zelf as int].with_color(Color::Gray),
                                ).update(
                                    tt as int,
                                    nodes0[tt as int].with_strong(
                                        (ts0 - (j + 1)) as usize,
                                    ),
                                ));
                            }
                            if mg2 && x == tt && prev_nodes == mg2_a {
                                assert(sc as int == strong0 - j);
                                assert(self.nodes@ =~= mg2_a.update(
                                    tt as int,
                                    mg2_a[tt as int].with_color(Color::Gray),
                                ).update(
                                    zelf as int,
                                    nodes0[zelf as int].with_color(
                                        Color::Gray,
                                    ).with_strong((strong0 - (j + 1)) as usize),
                                ));
                            }
                        }
                    } else {
                        proof {
                            if self_loop && x == zelf && prev_nodes == nodes0 {
                                // The self-loop count never runs dry: each of
                                // the edges finds at least one unit left.
                                assert(sc as int == strong0 - j);
                                assert(false);
                            }
                            if mg2 && x == zelf && prev_nodes == nodes0 {
                                // The partner's count covers every edge from
                                // the seed.
                                assert(sc as int == ts0 - j);
                                assert(false);
                            }
                            if mg2 && x == tt && prev_nodes == mg2_a {
                                // And the seed's count covers every edge back.
                                assert(sc as int == strong0 - j);
                                assert(false);
                            }
                        }
                    }
                    stack.push(c);
                    proof {
                        // The trial decrement moved no color and no edge, and
                        // the push put this very child on the stack: the
                        // pending-closure ledger advances by one edge.
                        assert forall|u: int, w: int|
                            0 <= u < nodes0.len() && self.nodes@[u].metadata.color
                                == Color::Gray && nodes0[u].metadata.color
                                != Color::Gray && 0 <= w
                                < self.nodes@[u].children@.len()
                            implies self.nodes@[self.nodes@[u].children@[w] as int]
                            .metadata.color == Color::Gray || in_roots(
                            stack@,
                            self.nodes@[u].children@[w] as int,
                        ) || (u == x as int && j + 1 <= w) by {
                            assert(node_ok(self.nodes@, u));
                            let child = self.nodes@[u].children@[w] as int;
                            assert(0 <= child < self.nodes@.len());
                            assert(self.nodes@[u].children@ == it_nodes[u].children@);
                            assert(self.nodes@[u].metadata.color
                                == it_nodes[u].metadata.color);
                            assert(self.nodes@[child].metadata.color
                                == it_nodes[child].metadata.color);
                            if it_nodes[it_nodes[u].children@[w] as int].metadata.color
                                == Color::Gray {
                            } else if in_roots(
                                it_stack,
                                it_nodes[u].children@[w] as int,
                            ) {
                                lemma_in_roots_grows(it_stack, stack@, child);
                            } else {
                                assert(u == x as int && j <= w);
                                if w == j {
                                    assert(it_nodes[u].children@[w] == c);
                                    assert(stack@[stack@.len() - 1] == c);
                                }
                            }
                        }
                    }
                    j = j + 1;
                }
                proof {
                    assert(count_matching(self.nodes@, gray_pred())
                        == count_matching(prev_nodes, gray_pred()) + 1);
                    lemma_count_le_len(prev_nodes, gray_pred());
                    if mg2 && x == zelf && prev_nodes == nodes0 {
                        assert(self.nodes@ == mg2_a);
                    }
                    if mg2 && x == tt && prev_nodes == mg2_a {
                        assert(self.nodes@ =~= mg2_b);
                    }
                }
            } else {
                proof {
                    assert(self.nodes@ == prev_nodes);
                    assert(stack@ =~= prev_stack.subrange(0, prev_stack.len() - 1));
                    // The popped copy named an already-Gray cell, so every
                    // pending-closure witness survives the pop.
                    assert forall|u: int, w: int|
                        0 <= u < nodes0.len() && self.nodes@[u].metadata.color
                            == Color::Gray && nodes0[u].metadata.color != Color::Gray
                            && 0 <= w < self.nodes@[u].children@.len()
                        implies self.nodes@[self.nodes@[u].children@[w] as int].metadata
                        .color == Color::Gray || in_roots(
                        stack@,
                        self.nodes@[u].children@[w] as int,
                    ) by {
                        let child = self.nodes@[u].children@[w] as int;
                        if self.nodes@[child].metadata.color != Color::Gray {
                            assert(in_roots(prev_stack, child));
                            let k = choose|k: int|
                                0 <= k < prev_stack.len() && prev_stack[k] as int
                                    == child;
                            if k < prev_stack.len() - 1 {
                                assert(stack@[k] as int == child);
                            } else {
                                assert(prev_stack[k] == x);
                                assert(self.nodes@[x as int].metadata.color
                                    == Color::Gray);
                            }
                        }
                    }
                    if mg2 && self.nodes@ == mg2_b {
                        assert forall|i: int| 0 <= i < stack@.len() implies stack@[i]
                            == zelf || stack@[i] == tt by {
                            assert(prev_stack[i] == zelf || prev_stack[i] == tt);
                        }
                    }
                }
            }
        }
    }

    /// `ScanBlack(S)`: the object is externally reachable.  Recolor it and
    /// its non-Black descendants Black, undoing the trial deletion by
    /// restoring one strong count unit per traversed edge.  An edge into a
    /// cell whose payload is gone, or whose count would overflow, restores
    /// nothing (defensive; a consistent graph never reaches either).
    ///
    /// For a root whose outgoing edges all point back to itself, and for a
    /// pure two-cell cycle, the last postconditions pin the pass down
    /// exactly: each cell turns Black and regains one strong unit per edge
    /// into it, completing the round trip that `mark_gray`'s matching
    /// clauses open (see `mark_scan_round_trip` and
    /// `mark_scan_round_trip_pair`).
    pub fn scan_black(&mut self, zelf: CcPtr)
        requires
            inv_nodes(old(self).nodes@),
            (zelf as int) < old(self).nodes@.len(),
        ensures
            inv_nodes(final(self).nodes@),
            final(self).roots@ == old(self).roots@,
            same_skeleton(old(self).nodes@, final(self).nodes@),
            forall|j: int| 0 <= j < old(self).nodes@.len()
                && final(self).nodes@[j].metadata.color == Color::Gray
                ==> old(self).nodes@[j].metadata.color == Color::Gray,
            forall|j: int| 0 <= j < old(self).nodes@.len()
                && old(self).nodes@[j].metadata.color == Color::Black
                ==> final(self).nodes@[j].metadata.color == Color::Black,
            forall|j: int| 0 <= j < old(self).nodes@.len()
                ==> final(self).nodes@[j].metadata.color
                    == old(self).nodes@[j].metadata.color
                    || final(self).nodes@[j].metadata.color == Color::Black,
            forall|j: int| 0 <= j < old(self).nodes@.len()
                ==> final(self).nodes@[j].metadata.strong
                    >= old(self).nodes@[j].metadata.strong,
            forall|u: int, w: int|
                0 <= u < old(self).nodes@.len() && final(self).nodes@[u].metadata.color
                    == Color::Black && old(self).nodes@[u].metadata.color
                    != Color::Black && 0 <= w < final(self).nodes@[u].children@.len()
                    ==> final(self).nodes@[final(self).nodes@[u].children@[w] as int]
                    .metadata.color == Color::Black,
            final(self).nodes@[zelf as int].metadata.color == Color::Black,
            old(self).nodes@[zelf as int].children@.len() == 0 ==> final(self).nodes@
                == old(self).nodes@.update(
                    zelf as int,
                    old(self).nodes@[zelf as int].with_color(Color::Black),
                ),
            old(self).nodes@[zelf as int].metadata.color == Color::Black
                ==> final(self).nodes@ == old(self).nodes@,
            all_edges_to_self(old(self).nodes@[zelf as int], zelf)
                && old(self).nodes@[zelf as int].metadata.color != Color::Black
                && old(self).nodes@[zelf as int].metadata.strong
                    + old(self).nodes@[zelf as int].children@.len() <= usize::MAX
                ==> final(self).nodes@ == old(self).nodes@.update(
                    zelf as int,
                    old(self).nodes@[zelf as int].with_color(Color::Black).with_strong(
                        (old(self).nodes@[zelf as int].metadata.strong
                            + old(self).nodes@[zelf as int].children@.len()) as usize,
                    ),
                ),
            scan_black_mutual_pre(
                old(self).nodes@,
                zelf,
                old(self).nodes@[zelf as int].children@[0],
            ) ==> scan_black_mutual_post(
                old(self).nodes@,
                final(self).nodes@,
                zelf,
                old(self).nodes@[zelf as int].children@[0],
            ),
    {
        let ghost nodes0 = old(self).nodes@;
        let ghost k0 = nodes0[zelf as int].children@.len() as int;
        let ghost strong0 = nodes0[zelf as int].metadata.strong as int;
        let ghost sb_loop = all_edges_to_self(nodes0[zelf as int], zelf)
            && nodes0[zelf as int].metadata.color != Color::Black && strong0 + k0
            <= usize::MAX;
        let ghost sb_target = nodes0.update(
            zelf as int,
            nodes0[zelf as int].with_color(Color::Black).with_strong(
                (strong0 + k0) as usize,
            ),
        );
        let ghost tt = nodes0[zelf as int].children@[0];
        let ghost sb2 = scan_black_mutual_pre(nodes0, zelf, tt);
        let ghost ts0 = nodes0[tt as int].metadata.strong as int;
        let ghost k2g = nodes0[tt as int].children@.len() as int;
        let ghost sb2_a = nodes0.update(
            zelf as int,
            nodes0[zelf as int].with_color(Color::Black),
        ).update(tt as int, nodes0[tt as int].with_strong((ts0 + k0) as usize));
        let ghost sb2_b = nodes0.update(
            zelf as int,
            nodes0[zelf as int].with_color(Color::Black).with_strong(
                (strong0 + k2g) as usize,
            ),
        ).update(
            tt as int,
            nodes0[tt as int].with_color(Color::Black).with_strong((ts0 + k0) as usize),
        );
        let mut stack: Vec<CcPtr> = Vec::new();
        stack.push(zelf);
        proof {
            assert(stack@ =~= seq![zelf]);
        }
        while stack.len() > 0
            invariant
                (zelf as int) < nodes0.len(),
                k0 == nodes0[zelf as int].children@.len() as int,
                strong0 == nodes0[zelf as int].metadata.strong as int,
                sb_loop == (all_edges_to_self(nodes0[zelf as int], zelf)
                    && nodes0[zelf as int].metadata.color != Color::Black && strong0
                    + k0 <= usize::MAX),
                sb_target == nodes0.update(
                    zelf as int,
                    nodes0[zelf as int].with_color(Color::Black).with_strong(
                        (strong0 + k0) as usize,
                    ),
                ),
                inv_nodes(self.nodes@),
                self.roots@ == old(self).roots@,
                same_skeleton(nodes0, self.nodes@),
                forall|k: int| 0 <= k < stack@.len()
                    ==> (stack@[k] as int) < self.nodes@.len(),
                forall|j: int| 0 <= j < nodes0.len()
                    && self.nodes@[j].metadata.color == Color::Gray
                    ==> nodes0[j].metadata.color == Color::Gray,
                forall|j: int| 0 <= j < nodes0.len()
                    && nodes0[j].metadata.color == Color::Black
                    ==> self.nodes@[j].metadata.color == Color::Black,
                forall|j: int| 0 <= j < nodes0.len()
                    ==> self.nodes@[j].metadata.color == nodes0[j].metadata.color
                        || self.nodes@[j].metadata.color == Color::Black,
                forall|j: int| 0 <= j < nodes0.len()
                    ==> self.nodes@[j].metadata.strong >= nodes0[j].metadata.strong,
                forall|u: int, w: int|
                    0 <= u < nodes0.len() && self.nodes@[u].metadata.color
                        == Color::Black && nodes0[u].metadata.color != Color::Black
                        && 0 <= w < self.nodes@[u].children@.len()
                        ==> self.nodes@[self.nodes@[u].children@[w] as int].metadata
                        .color == Color::Black || in_roots(
                        stack@,
                        self.nodes@[u].children@[w] as int,
                    ),
                self.nodes@[zelf as int].metadata.color == Color::Black
                    || (stack@ =~= seq![zelf] && self.nodes@ == nodes0),
                nodes0[zelf as int].children@.len() == 0 ==> (stack@ =~= seq![zelf]
                    && self.nodes@ == nodes0) || (stack@.len() == 0 && self.nodes@
                    == nodes0.update(
                        zelf as int,
                        nodes0[zelf as int].with_color(Color::Black),
                    )),
                nodes0[zelf as int].metadata.color == Color::Black ==> self.nodes@
                    == nodes0 && (stack@ =~= seq![zelf] || stack@.len() == 0),
                sb_loop ==> (stack@ =~= seq![zelf] && self.nodes@ == nodes0) || (
                stack@.len() == 0 && self.nodes@ == sb_target),
                tt == nodes0[zelf as int].children@[0],
                ts0 == nodes0[tt as int].metadata.strong as int,
                k2g == nodes0[tt as int].children@.len() as int,
                sb2 == scan_black_mutual_pre(nodes0, zelf, tt),
                sb2_a == nodes0.update(
                    zelf as int,
                    nodes0[zelf as int].with_color(Color::Black),
                ).update(tt as int, nodes0[tt as int].with_strong((ts0 + k0) as usize)),
                sb2_b == nodes0.update(
                    zelf as int,
                    nodes0[zelf as int].with_color(Color::Black).with_strong(
                        (strong0 + k2g) as usize,
                    ),
                ).update(
                    tt as int,
                    nodes0[tt as int].with_color(Color::Black).with_strong(
                        (ts0 + k0) as usize,
                    ),
                ),
                sb2 ==> (stack@ =~= seq![zelf] && self.nodes@ == nodes0) || (
                self.nodes@ == sb2_a && stack@.len() >= 1 && (forall|i: int| 0 <= i
                    < stack@.len() ==> stack@[i] == tt)) || (self.nodes@ == sb2_b && (
                forall|i: int| 0 <= i < stack@.len() ==> stack@[i] == tt)),
            decreases
                    self.nodes@.len() - count_matching(self.nodes@, black_pred()),
                    stack.len(),
        {
            let ghost prev_nodes = self.nodes@;
            let ghost prev_stack = stack@;
            let x = stack.pop().unwrap();
            proof {
                lemma_count_le_len(self.nodes@, black_pred());
                if prev_nodes[zelf as int].metadata.color != Color::Black {
                    assert(prev_stack =~= seq![zelf]);
                    assert(x == zelf);
                }
            }
            if self.nodes[x].metadata.color() != Color::Black {
                let m = vec_index_mut(&mut self.nodes, x);
                m.metadata.set_color(Color::Black);
                proof {
                    let v = prev_nodes[x as int].with_color(Color::Black);
                    assert(self.nodes@ =~= prev_nodes.update(x as int, v));
                    assert(node_ok(prev_nodes, x as int));
                    assert(node_ok(self.nodes@, x as int));
                    lemma_inv_update(prev_nodes, x as int, v);
                    lemma_count_update(prev_nodes, black_pred(), x as int, v);
                    lemma_count_le_len(self.nodes@, black_pred());
                }
                let ghost mid_nodes = self.nodes@;
                proof {
                    // The popped cell was not Black, and colors only ever
                    // turn Black here, so it was not Black at entry either.
                    assert(nodes0[x as int].metadata.color != Color::Black) by {
                        assert(prev_nodes[x as int].metadata.color != Color::Black);
                    }
                    // Every newly Black cell's children are Black or still
                    // on the stack; the one copy the pop removed named the
                    // cell just blackened.
                    assert forall|u: int, w: int|
                        0 <= u < nodes0.len() && self.nodes@[u].metadata.color
                            == Color::Black && nodes0[u].metadata.color != Color::Black
                            && 0 <= w < self.nodes@[u].children@.len()
                        implies self.nodes@[self.nodes@[u].children@[w] as int].metadata
                        .color == Color::Black || in_roots(
                        stack@,
                        self.nodes@[u].children@[w] as int,
                    ) || (u == x as int && 0 <= w) by {
                        if u != x as int {
                            assert(self.nodes@[u] == prev_nodes[u]);
                            assert(node_ok(prev_nodes, u));
                            let child = prev_nodes[u].children@[w] as int;
                            assert(self.nodes@[u].children@[w] as int == child);
                            assert(prev_nodes[u].metadata.color == Color::Black);
                            assert(prev_nodes[child].metadata.color == Color::Black
                                || in_roots(prev_stack, child));
                            if prev_nodes[child].metadata.color == Color::Black {
                                if child == x as int {
                                    assert(self.nodes@[child].metadata.color
                                        == Color::Black);
                                } else {
                                    assert(self.nodes@[child] == prev_nodes[child]);
                                }
                            } else {
                                let k = choose|k: int|
                                    0 <= k < prev_stack.len() && prev_stack[k] as int
                                        == child;
                                if k < prev_stack.len() - 1 {
                                    assert(stack@[k] as int == child);
                                } else {
                                    assert(prev_stack[k] == x);
                                    assert(self.nodes@[child].metadata.color
                                        == Color::Black);
                                }
                            }
                        }
                    }
                    if sb_loop && x == zelf && prev_nodes == nodes0 {
                        assert(nodes0[zelf as int].with_color(Color::Black).with_strong(
                            (strong0 + 0) as usize,
                        ) == nodes0[zelf as int].with_color(Color::Black));
                        assert(prev_stack =~= seq![zelf]);
                        assert(stack@ =~= prev_stack.subrange(
                            0,
                            prev_stack.len() - 1,
                        ));
                        assert(stack@.len() == 0);
                    }
                    if sb2 {
                        if prev_nodes == nodes0 {
                            assert(x == zelf);
                            assert(stack@ =~= prev_stack.subrange(
                                0,
                                prev_stack.len() - 1,
                            ));
                            assert(stack@.len() == 0);
                            assert(mid_nodes == nodes0.update(
                                zelf as int,
                                nodes0[zelf as int].with_color(Color::Black),
                            ));
                        } else if prev_nodes == sb2_a {
                            assert(x == tt);
                            assert(mid_nodes =~= sb2_a.update(
                                tt as int,
                                sb2_a[tt as int].with_color(Color::Black),
                            ));
                        }
                    }
                }
                let mut j: usize = 0;
                let n_children = self.nodes[x].children.len();
                while j < n_children
                    invariant
                        (x as int) < self.nodes@.len(),
                        (zelf as int) < nodes0.len(),
                        k0 == nodes0[zelf as int].children@.len() as int,
                        strong0 == nodes0[zelf as int].metadata.strong as int,
                        sb_loop == (all_edges_to_self(nodes0[zelf as int], zelf)
                            && nodes0[zelf as int].metadata.color != Color::Black
                            && strong0 + k0 <= usize::MAX),
                        j <= n_children,
                        n_children == self.nodes@[x as int].children@.len(),
                        inv_nodes(self.nodes@),
                        self.roots@ == old(self).roots@,
                        same_skeleton(nodes0, self.nodes@),
                        same_skeleton(mid_nodes, self.nodes@),
                        forall|k: int| 0 <= k < stack@.len()
                            ==> (stack@[k] as int) < self.nodes@.len(),
                        forall|t: int| 0 <= t < mid_nodes.len()
                            ==> self.nodes@[t].metadata.color
                                == mid_nodes[t].metadata.color,
                        forall|t: int| 0 <= t < nodes0.len()
                            ==> self.nodes@[t].metadata.color
                                == nodes0[t].metadata.color
                                || self.nodes@[t].metadata.color == Color::Black,
                        forall|t: int| 0 <= t < nodes0.len()
                            ==> self.nodes@[t].metadata.strong
                                >= nodes0[t].metadata.strong,
                        nodes0[x as int].metadata.color != Color::Black,
                        self.nodes@[x as int].metadata.color == Color::Black,
                        forall|u: int, w: int|
                            0 <= u < nodes0.len() && self.nodes@[u].metadata.color
                                == Color::Black && nodes0[u].metadata.color
                                != Color::Black && 0 <= w
                                < self.nodes@[u].children@.len()
                                ==> self.nodes@[self.nodes@[u].children@[w] as int]
                                .metadata.color == Color::Black || in_roots(
                                stack@,
                                self.nodes@[u].children@[w] as int,
                            ) || (u == x as int && j <= w),
                        count_matching(self.nodes@, black_pred())
                            == count_matching(mid_nodes, black_pred()),
                        self.nodes@[zelf as int].metadata.color == Color::Black,
                        n_children == 0 ==> stack@ =~= prev_stack.subrange(
                            0,
                            prev_stack.len() - 1,
                        ) && self.nodes@ == mid_nodes,
                        sb_loop && x == zelf && prev_nodes == nodes0 ==> self.nodes@
                            == nodes0.update(
                            zelf as int,
                            nodes0[zelf as int].with_color(Color::Black).with_strong(
                                (strong0 + j) as usize,
                            ),
                        ) && stack@.len() == 0 && n_children as int == k0,
                        tt == nodes0[zelf as int].children@[0],
                        ts0 == nodes0[tt as int].metadata.strong as int,
                        k2g == nodes0[tt as int].children@.len() as int,
                        sb2 == scan_black_mutual_pre(nodes0, zelf, tt),
                        sb2_a == nodes0.update(
                            zelf as int,
                            nodes0[zelf as int].with_color(Color::Black),
                        ).update(
                            tt as int,
                            nodes0[tt as int].with_strong((ts0 + k0) as usize),
                        ),
                        sb2 && x == zelf && prev_nodes == nodes0 ==> self.nodes@
                            == nodes0.update(
                            zelf as int,
                            nodes0[zelf as int].with_color(Color::Black),
                        ).update(
                            tt as int,
                            nodes0[tt as int].with_strong((ts0 + j) as usize),
                        ) && (forall|i: int| 0 <= i < stack@.len() ==> stack@[i] == tt)
                            && stack@.len() == j && n_children as int == k0,
                        sb2 && x == tt && prev_nodes == sb2_a ==> self.nodes@
                            == sb2_a.update(
                            tt as int,
                            sb2_a[tt as int].with_color(Color::Black),
                        ).update(
                            zelf as int,
                            nodes0[zelf as int].with_color(Color::Black).with_strong(
                                (strong0 + j) as usize,
                            ),
                        ) && (forall|i: int| 0 <= i < stack@.len() ==> stack@[i] == tt)
                            && n_children as int == k2g,
                    decreases n_children - j,
                {
                    proof {
                        assert(node_ok(self.nodes@, x as int));
                    }
                    let ghost it_nodes = self.nodes@;
                    let ghost it_stack = stack@;
                    let c = self.nodes[x].children[j];
                    proof {
                        if sb_loop && x == zelf && prev_nodes == nodes0 {
                            assert(self.nodes@[x as int].children@[j as int]
                                == nodes0[zelf as int].children@[j as int]);
                            assert(c == zelf);
                            assert(node_ok(nodes0, zelf as int));
                            assert(!nodes0[zelf as int].dropped);
                        }
                        if sb2 && x == zelf && prev_nodes == nodes0 {
                            assert(self.nodes@[x as int].children@
                                == nodes0[zelf as int].children@);
                            assert(self.nodes@[x as int].children@[j as int]
                                == nodes0[zelf as int].children@[j as int]);
                            assert(c == tt);
                        }
                        if sb2 && x == tt && prev_nodes == sb2_a {
                            assert(self.nodes@[x as int].children@
                                == nodes0[tt as int].children@);
                            assert(self.nodes@[x as int].children@[j as int]
                                == nodes0[tt as int].children@[j as int]);
                            assert(c == zelf);
                            // The seed has outgoing edges, so its payload is
                            // still present.
                            assert(node_ok(self.nodes@, zelf as int));
                            assert(self.nodes@[zelf as int].children@
                                == nodes0[zelf as int].children@);
                            assert(!self.nodes@[zelf as int].dropped);
                        }
                    }
                    // Undo the trial deletion on this edge.
                    let dropped_c = self.nodes[c].dropped;
                    let sc = self.nodes[c].metadata.strong();
                    if !dropped_c && sc < usize::MAX {
                        let ghost pn = self.nodes@;
                        let m2 = vec_index_mut(&mut self.nodes, c);
                        m2.metadata.inc_strong();
                        proof {
                            let v = pn[c as int].with_strong((sc + 1) as usize);
                            assert(self.nodes@ =~= pn.update(c as int, v));
                            assert(node_ok(pn, c as int));
                            assert(node_ok(self.nodes@, c as int));
                            lemma_inv_update(pn, c as int, v);
                            lemma_count_update(pn, black_pred(), c as int, v);
                            if sb_loop && x == zelf && prev_nodes == nodes0 {
                                assert(self.nodes@ =~= nodes0.update(
                                    zelf as int,
                                    nodes0[zelf as int].with_color(
                                        Color::Black,
                                    ).with_strong((strong0 + (j + 1)) as usize),
                                ));
                            }
                            if sb2 && x == zelf && prev_nodes == nodes0 {
                                assert(sc as int == ts0 + j);
                                assert(self.nodes@ =~= nodes0.update(
                                    zelf as int,
                                    nodes0[zelf as int].with_color(Color::Black),
                                ).update(
                                    tt as int,
                                    nodes0[tt as int].with_strong(
                                        (ts0 + (j + 1)) as usize,
                                    ),
                                ));
                            }
                            if sb2 && x == tt && prev_nodes == sb2_a {
                                assert(sc as int == strong0 + j);
                                assert(self.nodes@ =~= sb2_a.update(
                                    tt as int,
                                    sb2_a[tt as int].with_color(Color::Black),
                                ).update(
                                    zelf as int,
                                    nodes0[zelf as int].with_color(
                                        Color::Black,
                                    ).with_strong((strong0 + (j + 1)) as usize),
                                ));
                            }
                        }
                    } else {
                        proof {
                            if sb_loop && x == zelf && prev_nodes == nodes0 {
                                // Neither defense can fire on the self-loop:
                                // the cell is live and the sum stays in range.
                                assert(sc as int == strong0 + j);
                                assert(false);
                            }
                            if sb2 && x == zelf && prev_nodes == nodes0 {
                                assert(sc as int == ts0 + j);
                                assert(false);
                            }
                            if sb2 && x == tt && prev_nodes == sb2_a {
                                assert(sc as int == strong0 + j);
                                assert(false);
                            }
                        }
                    }
                    let c_color = self.nodes[c].metadata.color();
                    if c_color != Color::Black {
                        stack.push(c);
                        proof {
                            if sb_loop && x == zelf && prev_nodes == nodes0 {
                                assert(self.nodes@[c as int].metadata.color
                                    == Color::Black);
                                assert(false);
                            }
                            if sb2 && x == tt && prev_nodes == sb2_a {
                                // The seed is already Black: the back edges
                                // push nothing.
                                assert(self.nodes@[c as int].metadata.color
                                    == Color::Black);
                                assert(false);
                            }
                        }
                    } else {
                        proof {
                            if sb2 && x == zelf && prev_nodes == nodes0 {
                                // The partner is not Black yet: every forward
                                // edge pushes it.
                                assert(self.nodes@[c as int].metadata.color
                                    == nodes0[tt as int].metadata.color);
                                assert(false);
                            }
                        }
                    }
                    proof {
                        // The restored unit moved no color and no edge, and
                        // this child is now Black or freshly on the stack:
                        // the pending-closure ledger advances by one edge.
                        assert forall|u: int, w: int|
                            0 <= u < nodes0.len() && self.nodes@[u].metadata.color
                                == Color::Black && nodes0[u].metadata.color
                                != Color::Black && 0 <= w
                                < self.nodes@[u].children@.len()
                            implies self.nodes@[self.nodes@[u].children@[w] as int]
                            .metadata.color == Color::Black || in_roots(
                            stack@,
                            self.nodes@[u].children@[w] as int,
                        ) || (u == x as int && j + 1 <= w) by {
                            assert(node_ok(self.nodes@, u));
                            let child = self.nodes@[u].children@[w] as int;
                            assert(0 <= child < self.nodes@.len());
                            assert(self.nodes@[u].children@ == it_nodes[u].children@);
                            assert(self.nodes@[u].metadata.color
                                == it_nodes[u].metadata.color);
                            assert(self.nodes@[child].metadata.color
                                == it_nodes[child].metadata.color);
                            if it_nodes[it_nodes[u].children@[w] as int].metadata.color
                                == Color::Black {
                            } else if in_roots(
                                it_stack,
                                it_nodes[u].children@[w] as int,
                            ) {
                                lemma_in_roots_grows(it_stack, stack@, child);
                            } else {
                                assert(u == x as int && j <= w);
                                if w == j {
                                    assert(it_nodes[u].children@[w] == c);
                                    if c_color == Color::Black {
                                        assert(self.nodes@[child].metadata.color
                                            == Color::Black);
                                    } else {
                                        assert(stack@[stack@.len() - 1] == c);
                                    }
                                }
                            }
                        }
                    }
                    j = j + 1;
                }
                proof {
                    assert(count_matching(self.nodes@, black_pred())
                        == count_matching(prev_nodes, black_pred()) + 1);
                    lemma_count_le_len(prev_nodes, black_pred());
                    if sb2 && x == zelf && prev_nodes == nodes0 {
                        assert(self.nodes@ == sb2_a);
                    }
                    if sb2 && x == tt && prev_nodes == sb2_a {
                        assert(self.nodes@ =~= sb2_b);
                    }
                }
            } else {
                proof {
                    assert(self.nodes@ == prev_nodes);
                    assert(stack@ =~= prev_stack.subrange(0, prev_stack.len() - 1));
                    // The popped copy named an already-Black cell, so every
                    // pending-closure witness survives the pop.
                    assert forall|u: int, w: int|
                        0 <= u < nodes0.len() && self.nodes@[u].metadata.color
                            == Color::Black && nodes0[u].metadata.color != Color::Black
                            && 0 <= w < self.nodes@[u].children@.len()
                        implies self.nodes@[self.nodes@[u].children@[w] as int].metadata
                        .color == Color::Black || in_roots(
                        stack@,
                        self.nodes@[u].children@[w] as int,
                    ) by {
                        let child = self.nodes@[u].children@[w] as int;
                        if self.nodes@[child].metadata.color != Color::Black {
                            assert(in_roots(prev_stack, child));
                            let k = choose|k: int|
                                0 <= k < prev_stack.len() && prev_stack[k] as int
                                    == child;
                            if k < prev_stack.len() - 1 {
                                assert(stack@[k] as int == child);
                            } else {
                                assert(prev_stack[k] == x);
                                assert(self.nodes@[x as int].metadata.color
                                    == Color::Black);
                            }
                        }
                    }
                    if sb2 && self.nodes@ == sb2_b {
                        assert forall|i: int| 0 <= i < stack@.len() implies stack@[i]
                            == tt by {
                            assert(prev_stack[i] == tt);
                        }
                    }
                    if nodes0[zelf as int].children@.len() == 0
                        && nodes0[zelf as int].metadata.color == Color::Black {
                        assert(nodes0[zelf as int].with_color(Color::Black)
                            == nodes0[zelf as int]);
                        assert(nodes0.update(
                            zelf as int,
                            nodes0[zelf as int].with_color(Color::Black),
                        ) =~= nodes0);
                    }
                }
            }
        }
    }

    /// `Scan(S)`: decide the fate of a Gray subgraph.  A Gray cell whose
    /// strong count survived the trial deletion is externally reachable and
    /// is rescued with `scan_black`; one whose count is zero is confirmed
    /// White — garbage — and its children are scanned in turn.  A cell that
    /// is not Gray is left untouched.
    pub fn scan(&mut self, zelf: CcPtr)
        requires
            inv_nodes(old(self).nodes@),
            (zelf as int) < old(self).nodes@.len(),
        ensures
            inv_nodes(final(self).nodes@),
            final(self).roots@ == old(self).roots@,
            same_skeleton(old(self).nodes@, final(self).nodes@),
            forall|j: int| 0 <= j < old(self).nodes@.len()
                && final(self).nodes@[j].metadata.color == Color::Gray
                ==> old(self).nodes@[j].metadata.color == Color::Gray,
            final(self).nodes@[zelf as int].metadata.color != Color::Gray,
            forall|j: int| 0 <= j < old(self).nodes@.len()
                ==> final(self).nodes@[j].metadata.color
                    == old(self).nodes@[j].metadata.color
                    || final(self).nodes@[j].metadata.color == Color::White
                    || final(self).nodes@[j].metadata.color == Color::Black,
            old(self).nodes@[zelf as int].metadata.color == Color::Gray
                && old(self).nodes@[zelf as int].metadata.strong > 0
                ==> final(self).nodes@[zelf as int].metadata.color == Color::Black,
            old(self).nodes@[zelf as int].metadata.color == Color::Gray
                && old(self).nodes@[zelf as int].metadata.strong == 0
                ==> final(self).nodes@[zelf as int].metadata.color == Color::White
                    || final(self).nodes@[zelf as int].metadata.color == Color::Black,
            old(self).nodes@[zelf as int].metadata.color != Color::Gray
                ==> final(self).nodes@ == old(self).nodes@,
            all_edges_to_self(old(self).nodes@[zelf as int], zelf)
                && old(self).nodes@[zelf as int].metadata.color == Color::Gray
                && old(self).nodes@[zelf as int].metadata.strong == 0
                ==> final(self).nodes@ == old(self).nodes@.update(
                    zelf as int,
                    old(self).nodes@[zelf as int].with_color(Color::White),
                ),
            scan_black_mutual_pre(
                old(self).nodes@,
                zelf,
                old(self).nodes@[zelf as int].children@[0],
            ) && old(self).nodes@[zelf as int].metadata.color == Color::Gray
                && old(self).nodes@[zelf as int].metadata.strong >= 1
                ==> scan_black_mutual_post(
                old(self).nodes@,
                final(self).nodes@,
                zelf,
                old(self).nodes@[zelf as int].children@[0],
            ),
            mutual_gray_garbage_pre(
                old(self).nodes@,
                zelf,
                old(self).nodes@[zelf as int].children@[0],
            ) ==> final(self).nodes@ == old(self).nodes@.update(
                zelf as int,
                old(self).nodes@[zelf as int].with_color(Color::White),
            ).update(
                old(self).nodes@[zelf as int].children@[0] as int,
                old(self).nodes@[old(self).nodes@[zelf as int].children@[0] as int]
                    .with_color(Color::White),
            ),
            mutual_partner_rooted_pre(
                old(self).nodes@,
                zelf,
                old(self).nodes@[zelf as int].children@[0],
            ) ==> scan_black_mutual_post(
                old(self).nodes@.update(
                    zelf as int,
                    old(self).nodes@[zelf as int].with_color(Color::White),
                ),
                final(self).nodes@,
                old(self).nodes@[zelf as int].children@[0],
                zelf,
            ),
    {
        let ghost nodes0 = old(self).nodes@;
        let ghost sc_loop = all_edges_to_self(nodes0[zelf as int], zelf)
            && nodes0[zelf as int].metadata.color == Color::Gray
            && nodes0[zelf as int].metadata.strong == 0;
        let ghost sc_target = nodes0.update(
            zelf as int,
            nodes0[zelf as int].with_color(Color::White),
        );
        let ghost tt = nodes0[zelf as int].children@[0];
        let ghost sr = scan_black_mutual_pre(nodes0, zelf, tt)
            && nodes0[zelf as int].metadata.color == Color::Gray
            && nodes0[zelf as int].metadata.strong >= 1;
        let ghost sg = mutual_gray_garbage_pre(nodes0, zelf, tt);
        let ghost sg_target = nodes0.update(
            zelf as int,
            nodes0[zelf as int].with_color(Color::White),
        ).update(tt as int, nodes0[tt as int].with_color(Color::White));
        let ghost sp = mutual_partner_rooted_pre(nodes0, zelf, tt);
        let ghost sp_a = nodes0.update(
            zelf as int,
            nodes0[zelf as int].with_color(Color::White),
        );
        let mut stack: Vec<CcPtr> = Vec::new();
        stack.push(zelf);
        proof {
            assert(stack@ =~= seq![zelf]);
        }
        while stack.len() > 0
            invariant
                (zelf as int) < nodes0.len(),
                sc_loop == (all_edges_to_self(nodes0[zelf as int], zelf)
                    && nodes0[zelf as int].metadata.color == Color::Gray
                    && nodes0[zelf as int].metadata.strong == 0),
                sc_target == nodes0.update(
                    zelf as int,
                    nodes0[zelf as int].with_color(Color::White),
                ),
                inv_nodes(self.nodes@),
                self.roots@ == old(self).roots@,
                same_skeleton(nodes0, self.nodes@),
                forall|k: int| 0 <= k < stack@.len()
                    ==> (stack@[k] as int) < self.nodes@.len(),
                forall|j: int| 0 <= j < nodes0.len()
                    && self.nodes@[j].metadata.color == Color::Gray
                    ==> nodes0[j].metadata.color == Color::Gray,
                forall|j: int| 0 <= j < nodes0.len()
                    ==> self.nodes@[j].metadata.color == nodes0[j].metadata.color
                        || self.nodes@[j].metadata.color == Color::White
                        || self.nodes@[j].metadata.color == Color::Black,
                nodes0[zelf as int].metadata.color == Color::Gray
                    && nodes0[zelf as int].metadata.strong == 0 ==> (stack@
                    =~= seq![zelf] && self.nodes@ == nodes0) || self.nodes@[zelf as int]
                    .metadata.color == Color::White || self.nodes@[zelf as int].metadata
                    .color == Color::Black,
                self.nodes@[zelf as int].metadata.color != Color::Gray
                    || (stack@ =~= seq![zelf] && self.nodes@ == nodes0),
                nodes0[zelf as int].metadata.color != Color::Gray ==> self.nodes@
                    == nodes0 && (stack@ =~= seq![zelf] || stack@.len() == 0),
                nodes0[zelf as int].metadata.color == Color::Gray
                    && nodes0[zelf as int].metadata.strong > 0 ==> (stack@
                    =~= seq![zelf] && self.nodes@ == nodes0) || (stack@.len() == 0
                    && self.nodes@[zelf as int].metadata.color == Color::Black),
                sc_loop ==> (stack@ =~= seq![zelf] && self.nodes@ == nodes0) || (
                self.nodes@ == sc_target && (forall|t: int| 0 <= t < stack@.len()
                    ==> stack@[t] == zelf)),
                tt == nodes0[zelf as int].children@[0],
                sr == (scan_black_mutual_pre(nodes0, zelf, tt)
                    && nodes0[zelf as int].metadata.color == Color::Gray
                    && nodes0[zelf as int].metadata.strong >= 1),
                sg == mutual_gray_garbage_pre(nodes0, zelf, tt),
                sg_target == nodes0.update(
                    zelf as int,
                    nodes0[zelf as int].with_color(Color::White),
                ).update(tt as int, nodes0[tt as int].with_color(Color::White)),
                sr ==> (stack@ =~= seq![zelf] && self.nodes@ == nodes0) || (
                stack@.len() == 0 && scan_black_mutual_post(
                    nodes0,
                    self.nodes@,
                    zelf,
                    tt,
                )),
                sg ==> (stack@ =~= seq![zelf] && self.nodes@ == nodes0) || (
                self.nodes@ == nodes0.update(
                    zelf as int,
                    nodes0[zelf as int].with_color(Color::White),
                ) && stack@.len() >= 1 && (forall|i: int| 0 <= i < stack@.len()
                    ==> stack@[i] == tt)) || (self.nodes@ == sg_target && (forall|
                i: int| 0 <= i < stack@.len() ==> stack@[i] == zelf || stack@[i]
                    == tt)),
                sp == mutual_partner_rooted_pre(nodes0, zelf, tt),
                sp_a == nodes0.update(
                    zelf as int,
                    nodes0[zelf as int].with_color(Color::White),
                ),
                sp ==> (stack@ =~= seq![zelf] && self.nodes@ == nodes0) || (
                self.nodes@ == sp_a && stack@.len() >= 1 && (forall|i: int| 0 <= i
                    < stack@.len() ==> stack@[i] == tt)) || (scan_black_mutual_post(
                    sp_a,
                    self.nodes@,
                    tt,
                    zelf,
                ) && (forall|i: int| 0 <= i < stack@.len() ==> stack@[i] == tt)),
            decreases count_matching(self.nodes@, gray_pred()), stack.len(),
        {
            let ghost prev_nodes = self.nodes@;
            let ghost prev_stack = stack@;
            let x = stack.pop().unwrap();
            proof {
                if prev_nodes[zelf as int].metadata.color == Color::Gray {
                    assert(prev_stack =~= seq![zelf]);
                    assert(x == zelf);
                }
                if sg && prev_nodes == nodes0.update(
                    zelf as int,
                    nodes0[zelf as int].with_color(Color::White),
                ) {
                    assert(prev_stack[prev_stack.len() - 1] == tt);
                    assert(x == tt);
                }
                if sp && prev_nodes == sp_a {
                    assert(prev_stack[prev_stack.len() - 1] == tt);
                    assert(x == tt);
                }
            }
            if self.nodes[x].metadata.color() == Color::Gray {
                if self.nodes[x].metadata.strong() > 0 {
                    proof {
                        if sr && prev_nodes == nodes0 {
                            assert(x == zelf);
                        }
                        if sp && prev_nodes == nodes0 {
                            // The seed's count is zero: it is whitened, not
                            // rescued.
                            assert(x == zelf);
                            assert(self.nodes@[zelf as int].metadata.strong == 0);
                            assert(false);
                        }
                        if sg {
                            // Garbage pair: both counts are zero, so the
                            // rescue branch cannot run.
                            if prev_nodes == nodes0 {
                                assert(self.nodes@[x as int].metadata.strong == 0);
                            } else if prev_nodes == nodes0.update(
                                zelf as int,
                                nodes0[zelf as int].with_color(Color::White),
                            ) {
                                assert(self.nodes@[x as int].metadata.strong == 0);
                            }
                            assert(false);
                        }
                        if sc_loop {
                            // Under the self-loop hypothesis the root's count
                            // is zero and a gray cell is never the target of
                            // a rescue here.
                            assert(prev_nodes == nodes0 && x == zelf);
                            assert(false);
                        }
                    }
                    self.scan_black(x);
                    proof {
                        assert forall|j: int| 0 <= j < self.nodes@.len()
                            && gray_pred()(self.nodes@[j]) implies gray_pred()(
                            prev_nodes[j],
                        ) by {}
                        lemma_count_pointwise_lt(
                            prev_nodes,
                            self.nodes@,
                            gray_pred(),
                            x as int,
                        );
                        if sr && prev_nodes == nodes0 && x == zelf {
                            assert(scan_black_mutual_pre(
                                nodes0,
                                zelf,
                                nodes0[zelf as int].children@[0],
                            ));
                            assert(scan_black_mutual_post(
                                nodes0,
                                self.nodes@,
                                zelf,
                                tt,
                            ));
                            assert(prev_stack =~= seq![zelf]);
                            assert(stack@.len() == 0);
                        }
                        if nodes0[zelf as int].metadata.color == Color::Gray
                            && nodes0[zelf as int].metadata.strong > 0
                            && prev_nodes == nodes0 {
                            assert(x == zelf);
                            assert(self.nodes@[zelf as int].metadata.color
                                == Color::Black);
                            assert(prev_stack =~= seq![zelf]);
                            assert(stack@.len() == 0);
                        }
                        if sp && prev_nodes == sp_a && x == tt {
                            assert(sp_a[tt as int] == nodes0[tt as int]);
                            assert(sp_a[tt as int].children@[0] == zelf);
                            assert(sp_a[zelf as int]
                                == nodes0[zelf as int].with_color(Color::White));
                            assert(!sp_a[zelf as int].dropped) by {
                                assert(node_ok(prev_nodes, zelf as int));
                                assert(sp_a[zelf as int].children@.len() >= 1);
                            }
                            assert(nodes0[tt as int].children@[0] == zelf);
                            assert(sp_a[zelf as int].children@
                                == nodes0[zelf as int].children@);
                            assert(all_edges_to(sp_a[zelf as int], tt)) by {
                                assert forall|w: int| 0 <= w
                                    < sp_a[zelf as int].children@.len() implies sp_a[
                                zelf as int].children@[w] == tt by {
                                    assert(nodes0[zelf as int].children@[w] == tt);
                                }
                            }
                            assert(all_edges_to(sp_a[tt as int], zelf)) by {
                                assert(sp_a[tt as int] == nodes0[tt as int]);
                            }
                            assert(sp_a[zelf as int].metadata.strong == 0);
                            assert(sp_a[tt as int].metadata.strong
                                == nodes0[tt as int].metadata.strong);
                            assert(scan_black_mutual_pre(sp_a, tt, zelf));
                            assert(scan_black_mutual_post(sp_a, self.nodes@, tt, zelf));
                            assert forall|i: int| 0 <= i < stack@.len() implies stack@[
                            i] == tt by {
                                assert(prev_stack[i] == tt);
                            }
                        }
                    }
                } else {
                    let m = vec_index_mut(&mut self.nodes, x);
                    m.metadata.set_color(Color::White);
                    proof {
                        let v = prev_nodes[x as int].with_color(Color::White);
                        assert(self.nodes@ =~= prev_nodes.update(x as int, v));
                        assert(node_ok(prev_nodes, x as int));
                        assert(node_ok(self.nodes@, x as int));
                        lemma_inv_update(prev_nodes, x as int, v);
                        lemma_count_update(prev_nodes, gray_pred(), x as int, v);
                        if sc_loop {
                            assert(prev_nodes == nodes0 && x == zelf);
                            assert(self.nodes@ == sc_target);
                        }
                        if sg && prev_nodes == nodes0 {
                            assert(x == zelf);
                            assert(self.nodes@ =~= nodes0.update(
                                zelf as int,
                                nodes0[zelf as int].with_color(Color::White),
                            ));
                        }
                        if sp && prev_nodes == nodes0 {
                            assert(x == zelf);
                            assert(self.nodes@ =~= sp_a);
                        }
                        if sg && prev_nodes == nodes0.update(
                            zelf as int,
                            nodes0[zelf as int].with_color(Color::White),
                        ) {
                            assert(x == tt);
                            assert(self.nodes@ =~= sg_target);
                        }
                    }
                    let ghost mid_nodes = self.nodes@;
                    let mut j: usize = 0;
                    let n_children = self.nodes[x].children.len();
                    while j < n_children
                        invariant
                            (x as int) < self.nodes@.len(),
                            (zelf as int) < nodes0.len(),
                            j <= n_children,
                            n_children == self.nodes@[x as int].children@.len(),
                            inv_nodes(self.nodes@),
                            self.roots@ == old(self).roots@,
                            same_skeleton(nodes0, self.nodes@),
                            self.nodes@ == mid_nodes,
                            forall|t: int| 0 <= t < nodes0.len()
                                ==> self.nodes@[t].metadata.color
                                    == nodes0[t].metadata.color
                                    || self.nodes@[t].metadata.color == Color::White
                                    || self.nodes@[t].metadata.color == Color::Black,
                            forall|k: int| 0 <= k < stack@.len()
                                ==> (stack@[k] as int) < self.nodes@.len(),
                            sc_loop == (all_edges_to_self(nodes0[zelf as int], zelf)
                                && nodes0[zelf as int].metadata.color == Color::Gray
                                && nodes0[zelf as int].metadata.strong == 0),
                            sc_target == nodes0.update(
                                zelf as int,
                                nodes0[zelf as int].with_color(Color::White),
                            ),
                            sc_loop && x == zelf && mid_nodes == sc_target
                                ==> forall|t: int| 0 <= t < stack@.len()
                                    ==> stack@[t] == zelf,
                            tt == nodes0[zelf as int].children@[0],
                            sg == mutual_gray_garbage_pre(nodes0, zelf, tt),
                            sg_target == nodes0.update(
                                zelf as int,
                                nodes0[zelf as int].with_color(Color::White),
                            ).update(
                                tt as int,
                                nodes0[tt as int].with_color(Color::White),
                            ),
                            sg && x == zelf && mid_nodes == nodes0.update(
                                zelf as int,
                                nodes0[zelf as int].with_color(Color::White),
                            ) ==> (forall|i: int| 0 <= i < stack@.len() ==> stack@[i]
                                == tt) && stack@.len() == j && n_children as int
                                == nodes0[zelf as int].children@.len(),
                            sp == mutual_partner_rooted_pre(nodes0, zelf, tt),
                            sp && x == zelf && mid_nodes == nodes0.update(
                                zelf as int,
                                nodes0[zelf as int].with_color(Color::White),
                            ) ==> (forall|i: int| 0 <= i < stack@.len() ==> stack@[i]
                                == tt) && stack@.len() == j && n_children as int
                                == nodes0[zelf as int].children@.len(),
                            sg && x == tt && mid_nodes == sg_target ==> (forall|
                            i: int| 0 <= i < stack@.len() ==> stack@[i] == zelf
                                || stack@[i] == tt) && n_children as int
                                == nodes0[tt as int].children@.len(),
                        decreases n_children - j,
                    {
                        proof {
                            assert(node_ok(self.nodes@, x as int));
                        }
                        let c = self.nodes[x].children[j];
                        proof {
                            if sc_loop && x == zelf && mid_nodes == sc_target {
                                assert(self.nodes@[x as int] == sc_target[zelf as int]);
                                assert(sc_target[zelf as int]
                                    == nodes0[zelf as int].with_color(Color::White));
                                assert(self.nodes@[x as int].children@
                                    == nodes0[zelf as int].children@);
                                assert(self.nodes@[x as int].children@[j as int]
                                    == nodes0[zelf as int].children@[j as int]);
                                assert(c == zelf);
                            }
                            if sg && x == zelf && mid_nodes == nodes0.update(
                                zelf as int,
                                nodes0[zelf as int].with_color(Color::White),
                            ) {
                                assert(self.nodes@[x as int]
                                    == nodes0[zelf as int].with_color(Color::White));
                                assert(self.nodes@[x as int].children@
                                    == nodes0[zelf as int].children@);
                                assert(self.nodes@[x as int].children@[j as int]
                                    == nodes0[zelf as int].children@[j as int]);
                                assert(c == tt);
                            }
                            if sp && x == zelf && mid_nodes == nodes0.update(
                                zelf as int,
                                nodes0[zelf as int].with_color(Color::White),
                            ) {
                                assert(self.nodes@[x as int]
                                    == nodes0[zelf as int].with_color(Color::White));
                                assert(self.nodes@[x as int].children@
                                    == nodes0[zelf as int].children@);
                                assert(self.nodes@[x as int].children@[j as int]
                                    == nodes0[zelf as int].children@[j as int]);
                                assert(c == tt);
                            }
                            if sg && x == tt && mid_nodes == sg_target {
                                assert(self.nodes@[x as int]
                                    == nodes0[tt as int].with_color(Color::White));
                                assert(self.nodes@[x as int].children@
                                    == nodes0[tt as int].children@);
                                assert(self.nodes@[x as int].children@[j as int]
                                    == nodes0[tt as int].children@[j as int]);
                                assert(c == zelf);
                            }
                        }
                        stack.push(c);
                        j = j + 1;
                    }
                    proof {
                        if sc_loop && x == zelf {
                            assert(prev_stack =~= seq![zelf]);
                        }
                        if sg && x == zelf && prev_nodes == nodes0 {
                            assert(prev_stack =~= seq![zelf]);
                            assert(nodes0[zelf as int].children@.len() >= 1);
                        }
                        if sp && x == zelf && prev_nodes == nodes0 {
                            assert(prev_stack =~= seq![zelf]);
                            assert(nodes0[zelf as int].children@.len() >= 1);
                        }
                    }
                }
            } else {
                proof {
                    assert(self.nodes@ == prev_nodes);
                    assert(stack@ =~= prev_stack.subrange(0, prev_stack.len() - 1));
                    if sc_loop && self.nodes@ == sc_target {
                        assert forall|t: int| 0 <= t < stack@.len() implies stack@[t]
                            == zelf by {
                            assert(prev_stack[t] == zelf);
                        }
                    }
                    if sg && self.nodes@ == sg_target {
                        assert forall|i: int| 0 <= i < stack@.len() implies stack@[i]
                            == zelf || stack@[i] == tt by {
                            assert(prev_stack[i] == zelf || prev_stack[i] == tt);
                        }
                    }
                    if sg && self.nodes@ == nodes0.update(
                        zelf as int,
                        nodes0[zelf as int].with_color(Color::White),
                    ) {
                        // The partner is still Gray in this phase, so a skip
                        // cannot happen before it is whitened too.
                        assert(x == tt);
                        assert(self.nodes@[tt as int].metadata.color == Color::Gray);
                        assert(false);
                    }
                    if sp && self.nodes@ == sp_a {
                        assert(x == tt);
                        assert(self.nodes@[tt as int].metadata.color == Color::Gray);
                        assert(false);
                    }
                    if sp && scan_black_mutual_post(sp_a, self.nodes@, tt, zelf) {
                        assert forall|i: int| 0 <= i < stack@.len() implies stack@[i]
                            == tt by {
                            assert(prev_stack[i] == tt);
                        }
                    }
                }
            }
        }
    }

    /// `CollectWhite(S)`: reclaim a confirmed garbage subgraph.  A White,
    /// unbuffered cell is recolored Black, its children are collected in
    /// turn, and its header is freed; a White cell still in the roots
    /// buffer is skipped here and reclaimed when its buffer entry is
    /// drained.  The count and liveness checks before the free are
    /// defensive; a consistent graph always passes them.
    pub fn collect_white(&mut self, zelf: CcPtr)
        requires
            inv_nodes(old(self).nodes@),
            (zelf as int) < old(self).nodes@.len(),
        ensures
            inv_nodes(final(self).nodes@),
            final(self).roots@ == old(self).roots@,
            final(self).nodes@.len() == old(self).nodes@.len(),
            forall|j: int| 0 <= j < old(self).nodes@.len()
                ==> final(self).nodes@[j].metadata.buffered
                    == old(self).nodes@[j].metadata.buffered,
            forall|j: int| 0 <= j < old(self).nodes@.len()
                ==> final(self).nodes@[j].metadata.strong
                    == old(self).nodes@[j].metadata.strong,
            forall|j: int| 0 <= j < old(self).nodes@.len()
                ==> final(self).nodes@[j].metadata.weak
                    <= old(self).nodes@[j].metadata.weak,
            forall|j: int| 0 <= j < old(self).nodes@.len()
                ==> final(self).nodes@[j].value == old(self).nodes@[j].value,
            forall|j: int| 0 <= j < old(self).nodes@.len() && old(self).nodes@[j].dropped
                ==> final(self).nodes@[j].dropped,
            forall|j: int| 0 <= j < old(self).nodes@.len()
                ==> final(self).nodes@[j].metadata.color
                    == old(self).nodes@[j].metadata.color
                    || (old(self).nodes@[j].metadata.color == Color::White
                        && final(self).nodes@[j].metadata.color == Color::Black),
            old(self).nodes@[zelf as int].metadata.color != Color::White
                ==> final(self).nodes@ == old(self).nodes@,
            old(self).nodes@[zelf as int].metadata.color == Color::White
                && old(self).nodes@[zelf as int].metadata.buffered
                ==> final(self).nodes@ == old(self).nodes@,
            old(self).nodes@[zelf as int].metadata.color == Color::White
                && !old(self).nodes@[zelf as int].metadata.buffered
                && old(self).nodes@[zelf as int].metadata.strong == 0
                && old(self).nodes@[zelf as int].metadata.weak >= 1 ==> {
                &&& final(self).nodes@[zelf as int].metadata
                    == old(self).nodes@[zelf as int].metadata.with_color(
                    Color::Black,
                ).with_weak((old(self).nodes@[zelf as int].metadata.weak - 1) as usize)
                &&& final(self).nodes@[zelf as int].value
                    == old(self).nodes@[zelf as int].value
                &&& (old(self).nodes@[zelf as int].metadata.weak > 1
                    ==> final(self).nodes@[zelf as int].dropped
                    == old(self).nodes@[zelf as int].dropped
                    && final(self).nodes@[zelf as int].children@
                    == old(self).nodes@[zelf as int].children@)
                &&& (old(self).nodes@[zelf as int].metadata.weak == 1
                    ==> final(self).nodes@[zelf as int].dropped
                    && final(self).nodes@[zelf as int].children@.len() == 0)
            },
            all_edges_to_self(old(self).nodes@[zelf as int], zelf)
                && old(self).nodes@[zelf as int].metadata.color == Color::White
                && !old(self).nodes@[zelf as int].metadata.buffered
                && old(self).nodes@[zelf as int].metadata.strong == 0
                && old(self).nodes@[zelf as int].metadata.weak >= 1
                ==> collect_white_self_post(old(self).nodes@, final(self).nodes@, zelf),
            mutual_white_garbage_pre(
                old(self).nodes@,
                zelf,
                old(self).nodes@[zelf as int].children@[0],
            ) ==> collect_white_pair_post(
                old(self).nodes@,
                final(self).nodes@,
                zelf,
                old(self).nodes@[zelf as int].children@[0],
            ),
    {
        let ghost nodes0 = old(self).nodes@;
        let ghost cw_loop = all_edges_to_self(nodes0[zelf as int], zelf)
            && nodes0[zelf as int].metadata.color == Color::White
            && !nodes0[zelf as int].metadata.buffered
            && nodes0[zelf as int].metadata.strong == 0
            && nodes0[zelf as int].metadata.weak >= 1;
        let ghost tt = nodes0[zelf as int].children@[0];
        let ghost cw2 = mutual_white_garbage_pre(nodes0, zelf, tt);
        let ghost cw_root = nodes0[zelf as int].metadata.color == Color::White
            && !nodes0[zelf as int].metadata.buffered
            && nodes0[zelf as int].metadata.strong == 0
            && nodes0[zelf as int].metadata.weak >= 1;
        let mut stack: Vec<CcPtr> = Vec::new();
        stack.push(zelf);
        proof {
            assert(stack@ =~= seq![zelf]);
        }
        while stack.len() > 0
            invariant
                (zelf as int) < nodes0.len(),
                cw_loop == (all_edges_to_self(nodes0[zelf as int], zelf)
                    && nodes0[zelf as int].metadata.color == Color::White
                    && !nodes0[zelf as int].metadata.buffered
                    && nodes0[zelf as int].metadata.strong == 0
                    && nodes0[zelf as int].metadata.weak >= 1),
                cw_loop ==> (stack@ =~= seq![zelf] && self.nodes@ == nodes0) || (
                collect_white_self_post(nodes0, self.nodes@, zelf) && (forall|t: int|
                    0 <= t < stack@.len() ==> stack@[t] == zelf)),
                tt == nodes0[zelf as int].children@[0],
                cw2 == mutual_white_garbage_pre(nodes0, zelf, tt),
                cw_root == (nodes0[zelf as int].metadata.color == Color::White
                    && !nodes0[zelf as int].metadata.buffered
                    && nodes0[zelf as int].metadata.strong == 0
                    && nodes0[zelf as int].metadata.weak >= 1),
                cw_root ==> (stack@ =~= seq![zelf] && self.nodes@ == nodes0) || {
                    &&& self.nodes@[zelf as int].metadata
                        == nodes0[zelf as int].metadata.with_color(
                        Color::Black,
                    ).with_weak((nodes0[zelf as int].metadata.weak - 1) as usize)
                    &&& self.nodes@[zelf as int].value == nodes0[zelf as int].value
                    &&& (nodes0[zelf as int].metadata.weak > 1
                        ==> self.nodes@[zelf as int].dropped
                        == nodes0[zelf as int].dropped && self.nodes@[zelf as int]
                        .children@ == nodes0[zelf as int].children@)
                    &&& (nodes0[zelf as int].metadata.weak == 1
                        ==> self.nodes@[zelf as int].dropped
                        && self.nodes@[zelf as int].children@.len() == 0)
                },
                cw2 ==> (stack@ =~= seq![zelf] && self.nodes@ == nodes0) || (
                collect_white_self_post(nodes0, self.nodes@, zelf) && stack@.len() >= 1
                    && (forall|i: int| 0 <= i < stack@.len() ==> stack@[i] == tt)) || (
                collect_white_pair_post(nodes0, self.nodes@, zelf, tt) && (forall|
                i: int| 0 <= i < stack@.len() ==> stack@[i] == zelf || stack@[i]
                    == tt)),
                inv_nodes(self.nodes@),
                self.roots@ == old(self).roots@,
                self.nodes@.len() == nodes0.len(),
                forall|k: int| 0 <= k < stack@.len()
                    ==> (stack@[k] as int) < self.nodes@.len(),
                forall|j: int| 0 <= j < nodes0.len()
                    ==> self.nodes@[j].metadata.buffered == nodes0[j].metadata.buffered,
                forall|j: int| 0 <= j < nodes0.len()
                    ==> self.nodes@[j].metadata.strong == nodes0[j].metadata.strong,
                forall|j: int| 0 <= j < nodes0.len()
                    ==> self.nodes@[j].metadata.weak <= nodes0[j].metadata.weak,
                forall|j: int| 0 <= j < nodes0.len()
                    ==> self.nodes@[j].value == nodes0[j].value,
                forall|j: int| 0 <= j < nodes0.len() && nodes0[j].dropped
                    ==> self.nodes@[j].dropped,
                forall|j: int| 0 <= j < nodes0.len()
                    ==> self.nodes@[j].metadata.color == nodes0[j].metadata.color
                        || (nodes0[j].metadata.color == Color::White
                            && self.nodes@[j].metadata.color == Color::Black),
                nodes0[zelf as int].metadata.color != Color::White ==> self.nodes@
                    == nodes0 && (stack@ =~= seq![zelf] || stack@.len() == 0),
                nodes0[zelf as int].metadata.color == Color::White
                    && nodes0[zelf as int].metadata.buffered ==> self.nodes@ == nodes0
                    && (stack@ =~= seq![zelf] || stack@.len() == 0),
            decreases count_matching(self.nodes@, white_pred()), stack.len(),
        {
            let ghost prev_nodes = self.nodes@;
            let ghost prev_stack = stack@;
            let x = stack.pop().unwrap();
            proof {
                if cw_loop {
                    assert(x == zelf) by {
                        if prev_stack =~= seq![zelf] && prev_nodes == nodes0 {
                        } else {
                            assert(prev_stack[prev_stack.len() - 1] == zelf);
                        }
                    }
                }
                if cw_root && prev_nodes == nodes0 {
                    assert(prev_stack =~= seq![zelf]);
                    assert(x == zelf);
                }
                if cw2 {
                    if prev_nodes == nodes0 {
                        assert(prev_stack =~= seq![zelf]);
                        assert(x == zelf);
                    } else if collect_white_self_post(nodes0, prev_nodes, zelf)
                        && !collect_white_pair_post(nodes0, prev_nodes, zelf, tt) {
                        assert(prev_stack[prev_stack.len() - 1] == tt);
                        assert(x == tt);
                    }
                }
            }
            let x_white = self.nodes[x].metadata.color() == Color::White;
            let x_buffered = self.nodes[x].metadata.buffered();
            if x_white && !x_buffered {
                proof {
                    if cw_loop {
                        // Only the first visit sees the cell still White.
                        assert(prev_stack =~= seq![zelf] && prev_nodes == nodes0) by {
                            if collect_white_self_post(nodes0, prev_nodes, zelf) {
                                assert(prev_nodes[zelf as int].metadata
                                    == nodes0[zelf as int].metadata.with_color(
                                    Color::Black,
                                ).with_weak(
                                    (nodes0[zelf as int].metadata.weak - 1) as usize,
                                ));
                            }
                        }
                    }
                    if cw2 && collect_white_pair_post(nodes0, prev_nodes, zelf, tt) {
                        // Both cells are Black already: no further visit can
                        // see White.
                        assert(prev_nodes[zelf as int].metadata.color == Color::Black);
                        assert(prev_nodes[tt as int].metadata.color == Color::Black);
                        assert(x == zelf || x == tt);
                        assert(false);
                    }
                }
                let m = vec_index_mut(&mut self.nodes, x);
                m.metadata.set_color(Color::Black);
                proof {
                    let v = prev_nodes[x as int].with_color(Color::Black);
                    assert(self.nodes@ =~= prev_nodes.update(x as int, v));
                    assert(node_ok(prev_nodes, x as int));
                    assert(node_ok(self.nodes@, x as int));
                    lemma_inv_update(prev_nodes, x as int, v);
                    lemma_count_update(prev_nodes, white_pred(), x as int, v);
                    if cw2 && x == zelf && prev_nodes == nodes0 {
                        assert(prev_stack =~= seq![zelf]);
                        assert(stack@ =~= prev_stack.subrange(0, prev_stack.len() - 1));
                        assert(stack@.len() == 0);
                        assert(self.nodes@ == nodes0.update(
                            zelf as int,
                            nodes0[zelf as int].with_color(Color::Black),
                        ));
                    }
                    if cw2 && x == tt && collect_white_self_post(
                        nodes0,
                        prev_nodes,
                        zelf,
                    ) {
                        assert(prev_nodes[tt as int] == nodes0[tt as int]);
                        assert(self.nodes@ == prev_nodes.update(
                            tt as int,
                            nodes0[tt as int].with_color(Color::Black),
                        ));
                        assert forall|i: int| 0 <= i < stack@.len() implies stack@[i]
                            == zelf || stack@[i] == tt by {
                            assert(prev_stack[i] == tt);
                        }
                    }
                }
                let ghost mid_nodes = self.nodes@;
                let mut j: usize = 0;
                let n_children = self.nodes[x].children.len();
                while j < n_children
                    invariant
                        (x as int) < self.nodes@.len(),
                        (zelf as int) < nodes0.len(),
                        j <= n_children,
                        n_children == self.nodes@[x as int].children@.len(),
                        self.nodes@ == mid_nodes,
                        forall|k: int| 0 <= k < stack@.len()
                            ==> (stack@[k] as int) < self.nodes@.len(),
                        inv_nodes(self.nodes@),
                        cw_loop == (all_edges_to_self(nodes0[zelf as int], zelf)
                            && nodes0[zelf as int].metadata.color == Color::White
                            && !nodes0[zelf as int].metadata.buffered
                            && nodes0[zelf as int].metadata.strong == 0
                            && nodes0[zelf as int].metadata.weak >= 1),
                        cw_loop && x == zelf && mid_nodes == nodes0.update(
                            zelf as int,
                            nodes0[zelf as int].with_color(Color::Black),
                        ) ==> forall|t: int| 0 <= t < stack@.len() ==> stack@[t]
                            == zelf,
                        tt == nodes0[zelf as int].children@[0],
                        cw2 == mutual_white_garbage_pre(nodes0, zelf, tt),
                        cw2 && x == zelf && mid_nodes == nodes0.update(
                            zelf as int,
                            nodes0[zelf as int].with_color(Color::Black),
                        ) ==> (forall|i: int| 0 <= i < stack@.len() ==> stack@[i]
                            == tt) && stack@.len() == j && n_children as int
                            == nodes0[zelf as int].children@.len(),
                        cw2 && x == tt && collect_white_self_post(
                            nodes0,
                            prev_nodes,
                            zelf,
                        ) && mid_nodes == prev_nodes.update(
                            tt as int,
                            nodes0[tt as int].with_color(Color::Black),
                        ) ==> (forall|i: int| 0 <= i < stack@.len() ==> stack@[i]
                            == zelf || stack@[i] == tt) && n_children as int
                            == nodes0[tt as int].children@.len(),
                    decreases n_children - j,
                {
                    proof {
                        assert(node_ok(self.nodes@, x as int));
                    }
                    let c = self.nodes[x].children[j];
                    proof {
                        if cw_loop && x == zelf && mid_nodes == nodes0.update(
                            zelf as int,
                            nodes0[zelf as int].with_color(Color::Black),
                        ) {
                            assert(self.nodes@[x as int]
                                == nodes0[zelf as int].with_color(Color::Black));
                            assert(self.nodes@[x as int].children@
                                == nodes0[zelf as int].children@);
                            assert(self.nodes@[x as int].children@[j as int]
                                == nodes0[zelf as int].children@[j as int]);
                            assert(c == zelf);
                        }
                        if cw2 && x == zelf && mid_nodes == nodes0.update(
                            zelf as int,
                            nodes0[zelf as int].with_color(Color::Black),
                        ) {
                            assert(self.nodes@[x as int]
                                == nodes0[zelf as int].with_color(Color::Black));
                            assert(self.nodes@[x as int].children@
                                == nodes0[zelf as int].children@);
                            assert(self.nodes@[x as int].children@[j as int]
                                == nodes0[zelf as int].children@[j as int]);
                            assert(c == tt);
                        }
                        if cw2 && x == tt && collect_white_self_post(
                            nodes0,
                            prev_nodes,
                            zelf,
                        ) && mid_nodes == prev_nodes.update(
                            tt as int,
                            nodes0[tt as int].with_color(Color::Black),
                        ) {
                            assert(self.nodes@[x as int]
                                == nodes0[tt as int].with_color(Color::Black));
                            assert(self.nodes@[x as int].children@
                                == nodes0[tt as int].children@);
                            assert(self.nodes@[x as int].children@[j as int]
                                == nodes0[tt as int].children@[j as int]);
                            assert(c == zelf);
                        }
                    }
                    stack.push(c);
                    j = j + 1;
                }
                let st = self.nodes[x].metadata.strong();
                let wk = self.nodes[x].metadata.weak();
                proof {
                    if cw_loop && x == zelf && prev_nodes == nodes0 {
                        assert(st == 0 && wk as int
                            == nodes0[zelf as int].metadata.weak as int);
                    }
                    if cw2 && x == zelf && prev_nodes == nodes0 {
                        assert(st == 0 && wk as int
                            == nodes0[zelf as int].metadata.weak as int);
                    }
                    if cw2 && x == tt && collect_white_self_post(
                        nodes0,
                        prev_nodes,
                        zelf,
                    ) {
                        assert(st == 0 && wk as int
                            == nodes0[tt as int].metadata.weak as int);
                    }
                }
                if st == 0 && wk >= 1 {
                    let ghost before_free = self.nodes@;
                    dealloc::free(self, x);
                    proof {
                        if cw_loop && x == zelf && before_free == nodes0.update(
                            zelf as int,
                            nodes0[zelf as int].with_color(Color::Black),
                        ) {
                            assert(collect_white_self_post(nodes0, self.nodes@, zelf));
                        }
                        if cw2 && x == zelf && before_free == nodes0.update(
                            zelf as int,
                            nodes0[zelf as int].with_color(Color::Black),
                        ) {
                            assert(collect_white_self_post(nodes0, self.nodes@, zelf));
                        }
                        if cw_root && x == zelf && before_free == nodes0.update(
                            zelf as int,
                            nodes0[zelf as int].with_color(Color::Black),
                        ) {
                            assert(self.nodes@[zelf as int].metadata
                                == nodes0[zelf as int].metadata.with_color(
                                Color::Black,
                            ).with_weak(
                                (nodes0[zelf as int].metadata.weak - 1) as usize,
                            ));
                        }
                        if cw2 && x == tt && collect_white_self_post(
                            nodes0,
                            prev_nodes,
                            zelf,
                        ) && before_free == prev_nodes.update(
                            tt as int,
                            nodes0[tt as int].with_color(Color::Black),
                        ) {
                            assert(self.nodes@[zelf as int] == before_free[zelf as int]);
                            assert(before_free[zelf as int] == prev_nodes[zelf as int]);
                            assert forall|j2: int| 0 <= j2 < nodes0.len() && j2 != zelf
                                && j2 != tt implies self.nodes@[j2] == nodes0[j2] by {
                                assert(self.nodes@[j2] == before_free[j2]);
                                assert(before_free[j2] == prev_nodes[j2]);
                                assert(prev_nodes[j2] == nodes0[j2]);
                            }
                            assert(collect_white_pair_post(
                                nodes0,
                                self.nodes@,
                                zelf,
                                tt,
                            ));
                        }
                        assert forall|j2: int| 0 <= j2 < self.nodes@.len()
                            && white_pred()(self.nodes@[j2]) implies white_pred()(
                            before_free[j2],
                        ) by {
                            if j2 != x {
                                assert(self.nodes@[j2] == before_free[j2]);
                            }
                        }
                        assert forall|j2: int| 0 <= j2 < self.nodes@.len()
                            && white_pred()(before_free[j2]) implies white_pred()(
                            self.nodes@[j2],
                        ) by {
                            if j2 != x {
                                assert(self.nodes@[j2] == before_free[j2]);
                            }
                        }
                        lemma_count_pointwise_le(before_free, self.nodes@, white_pred());
                        lemma_count_pointwise_le(self.nodes@, before_free, white_pred());
                        assert(count_matching(self.nodes@, white_pred())
                            == count_matching(before_free, white_pred()));
                    }
                }
                proof {
                    assert(count_matching(self.nodes@, white_pred()) + 1
                        == count_matching(prev_nodes, white_pred()));
                }
            } else {
                proof {
                    assert(self.nodes@ == prev_nodes);
                    assert(stack@ =~= prev_stack.subrange(0, prev_stack.len() - 1));
                    if cw_loop && collect_white_self_post(nodes0, self.nodes@, zelf) {
                        assert forall|t: int| 0 <= t < stack@.len() implies stack@[t]
                            == zelf by {
                            assert(prev_stack[t] == zelf);
                        }
                    }
                    if cw2 {
                        if prev_nodes == nodes0 {
                            assert(x == zelf);
                            assert(false);
                        } else if collect_white_self_post(nodes0, prev_nodes, zelf)
                            && !collect_white_pair_post(
                            nodes0,
                            prev_nodes,
                            zelf,
                            tt,
                        ) {
                            assert(x == tt);
                            assert(self.nodes@[tt as int] == nodes0[tt as int]);
                            assert(false);
                        } else {
                            assert forall|i: int| 0 <= i < stack@.len() implies stack@[
                            i] == zelf || stack@[i] == tt by {
                                assert(prev_stack[i] == zelf || prev_stack[i] == tt);
                            }
                        }
                    }
                }
            }
        }
    }

    /// `MarkRoots`: drain the roots buffer.  A Purple entry is a live cycle
    /// candidate: it is marked Gray with `mark_gray` and retained, in its
    /// original position relative to the other retained roots.  Any other
    /// entry leaves the buffer; if it is a Black cell whose strong count is
    /// zero, its payload is long gone and it is freed here.
    fn mark_roots(&mut self)
        requires
            old(self).wf(),
        ensures
            final(self).wf(),
            final(self).nodes@.len() == old(self).nodes@.len(),
            forall|j: int| 0 <= j < old(self).nodes@.len()
                ==> final(self).nodes@[j].value == old(self).nodes@[j].value,
            forall|j: int| 0 <= j < old(self).nodes@.len() && old(self).nodes@[j].dropped
                ==> final(self).nodes@[j].dropped,
            forall|idx: int| 0 <= idx < final(self).roots@.len()
                ==> final(self).nodes@[final(self).roots@[idx] as int].metadata.color
                    == Color::Gray && old(self).nodes@[final(self).roots@[idx] as int]
                    .metadata.color == Color::Purple,
            old(self).roots@.len() == 0 ==> final(self).nodes@ == old(self).nodes@
                && final(self).roots@.len() == 0,
            old(self).roots@.len() == 1 && all_edges_to_self(
                old(self).nodes@[old(self).roots@[0] as int],
                old(self).roots@[0],
            ) && old(self).nodes@[old(self).roots@[0] as int].metadata.color
                == Color::Purple && old(self).nodes@[old(self).roots@[0] as int].metadata
                .strong >= old(self).nodes@[old(self).roots@[0] as int].children@.len()
                ==> final(self).roots@ == old(self).roots@ && final(self).nodes@
                    == old(self).nodes@.update(
                    old(self).roots@[0] as int,
                    old(self).nodes@[old(self).roots@[0] as int].with_color(
                        Color::Gray,
                    ).with_strong(
                        (old(self).nodes@[old(self).roots@[0] as int].metadata.strong
                            - old(self).nodes@[old(self).roots@[0] as int].children@
                            .len()) as usize,
                    ),
                ),
            old(self).roots@.len() == 2 && old(self).roots@[1]
                == old(self).nodes@[old(self).roots@[0] as int].children@[0]
                && mutual_pair_pre(
                old(self).nodes@,
                old(self).roots@[0],
                old(self).roots@[1],
            ) && old(self).nodes@[old(self).roots@[0] as int].metadata.color
                == Color::Purple ==> final(self).roots@ =~= seq![old(self).roots@[0]]
                && final(self).nodes@ == mark_roots_pair_target(
                old(self).nodes@,
                old(self).roots@[0],
                old(self).roots@[1],
            ),
            old(self).roots@.len() == 1
                && old(self).nodes@[old(self).roots@[0] as int].metadata.color
                != Color::Purple && !(old(self).nodes@[old(self).roots@[0] as int]
                .metadata.color == Color::Black && old(self).nodes@[old(self).roots@[0]
                as int].metadata.strong == 0) ==> final(self).roots@.len() == 0
                && final(self).nodes@ == old(self).nodes@.update(
                old(self).roots@[0] as int,
                old(self).nodes@[old(self).roots@[0] as int].with_buffered(false),
            ),
            old(self).roots@.len() == 1
                && old(self).nodes@[old(self).roots@[0] as int].metadata.color
                == Color::Black && old(self).nodes@[old(self).roots@[0] as int].metadata
                .strong == 0 ==> final(self).roots@.len() == 0 && reclaimed_post(
                old(self).nodes@,
                final(self).nodes@,
                old(self).roots@[0],
            ),
    {
        let ghost nodes_entry = old(self).nodes@;
        let mut drained: Vec<CcPtr> = Vec::new();
        core::mem::swap(&mut drained, &mut self.roots);
        let ghost drained0 = drained@;
        let ghost lone = drained0.len() == 1 && all_edges_to_self(
            nodes_entry[drained0[0] as int],
            drained0[0],
        ) && nodes_entry[drained0[0] as int].metadata.color == Color::Purple
            && nodes_entry[drained0[0] as int].metadata.strong
            >= nodes_entry[drained0[0] as int].children@.len();
        let ghost lone_target = if drained0.len() == 1 {
            nodes_entry.update(
                drained0[0] as int,
                nodes_entry[drained0[0] as int].with_color(Color::Gray).with_strong(
                    (nodes_entry[drained0[0] as int].metadata.strong
                        - nodes_entry[drained0[0] as int].children@.len()) as usize,
                ),
            )
        } else {
            nodes_entry
        };
        let ghost pair2 = drained0.len() == 2 && drained0[1]
            == nodes_entry[drained0[0] as int].children@[0] && mutual_pair_pre(
            nodes_entry,
            drained0[0],
            drained0[1],
        ) && nodes_entry[drained0[0] as int].metadata.color == Color::Purple;
        let ghost lone_keep = drained0.len() == 1 && nodes_entry[drained0[0] as int]
            .metadata.color != Color::Purple && !(nodes_entry[drained0[0] as int]
            .metadata.color == Color::Black && nodes_entry[drained0[0] as int].metadata
            .strong == 0);
        let ghost lone_free = drained0.len() == 1 && nodes_entry[drained0[0] as int]
            .metadata.color == Color::Black && nodes_entry[drained0[0] as int].metadata
            .strong == 0;
        proof {
            assert forall|i: int| 0 <= i < self.nodes@.len()
                && self.nodes@[i].metadata.buffered implies exists|t: int|
                0 <= t < drained0.len() && drained0[t] as int == i by {
                assert(in_roots(drained0, i));
                let t = choose|t: int| 0 <= t < drained0.len() && drained0[t] as int == i;
                assert(0 <= t < drained0.len() && drained0[t] as int == i);
            }
        }
        let mut k: usize = 0;
        while k < drained.len()
            invariant
                k <= drained.len(),
                drained@ == drained0,
                inv_nodes(self.nodes@),
                self.nodes@.len() == nodes_entry.len(),
                lone == (drained0.len() == 1 && all_edges_to_self(
                    nodes_entry[drained0[0] as int],
                    drained0[0],
                ) && nodes_entry[drained0[0] as int].metadata.color == Color::Purple
                    && nodes_entry[drained0[0] as int].metadata.strong
                    >= nodes_entry[drained0[0] as int].children@.len()),
                lone ==> lone_target == nodes_entry.update(
                    drained0[0] as int,
                    nodes_entry[drained0[0] as int].with_color(Color::Gray).with_strong(
                        (nodes_entry[drained0[0] as int].metadata.strong
                            - nodes_entry[drained0[0] as int].children@.len()) as usize,
                    ),
                ),
                lone ==> (k == 0 && self.nodes@ == nodes_entry && self.roots@.len()
                    == 0) || (k == 1 && self.nodes@ == lone_target && self.roots@
                    == drained0),
                pair2 == (drained0.len() == 2 && drained0[1]
                    == nodes_entry[drained0[0] as int].children@[0] && mutual_pair_pre(
                    nodes_entry,
                    drained0[0],
                    drained0[1],
                ) && nodes_entry[drained0[0] as int].metadata.color == Color::Purple),
                pair2 ==> (k == 0 && self.nodes@ == nodes_entry && self.roots@.len()
                    == 0) || (k == 1 && mark_gray_mutual_post(
                    nodes_entry,
                    self.nodes@,
                    drained0[0],
                    drained0[1],
                ) && self.roots@ =~= seq![drained0[0]]) || (k == 2 && self.nodes@
                    == mark_roots_pair_target(nodes_entry, drained0[0], drained0[1])
                    && self.roots@ =~= seq![drained0[0]]),
                lone_keep == (drained0.len() == 1 && nodes_entry[drained0[0] as int]
                    .metadata.color != Color::Purple && !(nodes_entry[drained0[0]
                    as int].metadata.color == Color::Black && nodes_entry[drained0[0]
                    as int].metadata.strong == 0)),
                lone_free == (drained0.len() == 1 && nodes_entry[drained0[0] as int]
                    .metadata.color == Color::Black && nodes_entry[drained0[0] as int]
                    .metadata.strong == 0),
                lone_keep ==> (k == 0 && self.nodes@ == nodes_entry && self.roots@.len()
                    == 0) || (k == 1 && self.roots@.len() == 0 && self.nodes@
                    == nodes_entry.update(
                    drained0[0] as int,
                    nodes_entry[drained0[0] as int].with_buffered(false),
                )),
                lone_free ==> (k == 0 && self.nodes@ == nodes_entry && self.roots@.len()
                    == 0) || (k == 1 && self.roots@.len() == 0 && reclaimed_post(
                    nodes_entry,
                    self.nodes@,
                    drained0[0],
                )),
                forall|j: int| 0 <= j < nodes_entry.len()
                    ==> self.nodes@[j].value == nodes_entry[j].value,
                forall|j: int| 0 <= j < nodes_entry.len() && nodes_entry[j].dropped
                    ==> self.nodes@[j].dropped,
                forall|j: int| 0 <= j < nodes_entry.len()
                    ==> self.nodes@[j].metadata.color == nodes_entry[j].metadata.color
                        || self.nodes@[j].metadata.color == Color::Gray,
                forall|idx: int| 0 <= idx < self.roots@.len()
                    ==> self.nodes@[self.roots@[idx] as int].metadata.color
                        == Color::Gray && nodes_entry[self.roots@[idx] as int].metadata
                        .color == Color::Purple,
                forall|t: int| k <= t < drained0.len()
                    ==> (drained0[t] as int) < self.nodes@.len(),
                forall|t: int| k <= t < drained0.len()
                    ==> self.nodes@[drained0[t] as int].metadata.buffered,
                forall|t1: int, t2: int| k <= t1 < drained0.len() && k <= t2
                    < drained0.len() && t1 != t2 ==> drained0[t1] != drained0[t2],
                forall|t: int| k <= t < drained0.len()
                    ==> !in_roots(self.roots@, drained0[t] as int),
                inv_roots(self.roots@, self.nodes@),
                forall|i: int| 0 <= i < self.nodes@.len()
                    && self.nodes@[i].metadata.buffered ==> in_roots(self.roots@, i)
                        || (exists|t: int| k <= t < drained0.len() && drained0[t] as int
                            == i),
                drained0.len() == 0 ==> self.nodes@ == nodes_entry
                    && self.roots@.len() == 0,
            decreases drained.len() - k,
        {
            let ghost prev_nodes = self.nodes@;
            let ghost prev_roots = self.roots@;
            let s = drained[k];
            let c = self.nodes[s].metadata.color();
            if c == Color::Purple {
                self.mark_gray(s);
                proof {
                    assert forall|t: int| k <= t < drained0.len() implies self.nodes@[
                        drained0[t] as int].metadata.buffered by {
                        assert(prev_nodes[drained0[t] as int].metadata.buffered);
                    }
                    assert forall|idx: int| 0 <= idx < self.roots@.len()
                        implies self.nodes@[self.roots@[idx] as int].metadata.color
                        == Color::Gray by {
                        assert(prev_nodes[self.roots@[idx] as int].metadata.color
                            == Color::Gray);
                    }
                    // The entry just marked was Purple when visited, and in
                    // this pass a color only ever turns Gray: it was Purple
                    // at entry too.
                    assert(prev_nodes[s as int].metadata.color == Color::Purple);
                    assert(nodes_entry[s as int].metadata.color == Color::Purple);
                    assert(self.nodes@[s as int].metadata.color == Color::Gray);
                    assert forall|t: int| 0 <= t < prev_roots.len() implies (prev_roots[t]
                        as int) < self.nodes@.len() && self.nodes@[prev_roots[t] as int]
                        .metadata.buffered by {
                        assert(prev_nodes[prev_roots[t] as int].metadata.buffered);
                    }
                }
                self.roots.push(s);
                proof {
                    let r1 = self.roots@;
                    assert(r1 == prev_roots.push(s));
                    if lone {
                        assert(k == 0 && prev_roots.len() == 0);
                        assert(self.nodes@ == lone_target);
                        assert(r1 =~= drained0);
                    }
                    if pair2 {
                        // Only the Purple seed of the pair reaches this
                        // branch, at its own drain step.
                        assert(k == 0) by {
                            if k == 1 {
                                assert(mark_gray_mutual_post(
                                    nodes_entry,
                                    prev_nodes,
                                    drained0[0],
                                    drained0[1],
                                ));
                                assert(prev_nodes[drained0[1] as int].metadata.color
                                    == Color::Gray);
                            }
                        }
                        assert(s == drained0[0]);
                        assert(mark_gray_mutual_post(
                            nodes_entry,
                            self.nodes@,
                            drained0[0],
                            drained0[1],
                        ));
                        assert(r1 =~= seq![drained0[0]]);
                    }
                    assert forall|t: int| k + 1 <= t < drained0.len() implies !in_roots(
                        r1,
                        drained0[t] as int,
                    ) by {
                        if in_roots(r1, drained0[t] as int) {
                            let w = choose|w: int|
                                0 <= w < r1.len() && r1[w] as int == drained0[t] as int;
                            if w < prev_roots.len() {
                                assert(prev_roots[w] as int == drained0[t] as int);
                                assert(in_roots(prev_roots, drained0[t] as int));
                            } else {
                                assert(r1[w] == s);
                                assert(drained0[k as int] == drained0[t]);
                            }
                        }
                    }
                    assert forall|t1: int, t2: int| 0 <= t1 < r1.len() && 0 <= t2
                        < r1.len() && t1 != t2 implies r1[t1] != r1[t2] by {
                        if t1 < prev_roots.len() && t2 < prev_roots.len() {
                            assert(r1[t1] == prev_roots[t1] && r1[t2] == prev_roots[t2]);
                        } else if t1 == prev_roots.len() as int {
                            assert(r1[t1] == s);
                            assert(r1[t2] == prev_roots[t2]);
                            if prev_roots[t2] == s {
                                assert(in_roots(prev_roots, s as int));
                            }
                        } else {
                            assert(t2 == prev_roots.len() as int);
                            assert(r1[t2] == s);
                            assert(r1[t1] == prev_roots[t1]);
                            if prev_roots[t1] == s {
                                assert(in_roots(prev_roots, s as int));
                            }
                        }
                    }
                    assert forall|i: int| 0 <= i < self.nodes@.len()
                        && self.nodes@[i].metadata.buffered implies in_roots(r1, i) || (
                    exists|t: int| k + 1 <= t < drained0.len() && drained0[t] as int
                        == i) by {
                        assert(prev_nodes[i].metadata.buffered);
                        if in_roots(prev_roots, i) {
                            let w = choose|w: int|
                                0 <= w < prev_roots.len() && prev_roots[w] as int == i;
                            assert(0 <= w < r1.len() && r1[w] as int == i);
                        } else {
                            let t = choose|t: int|
                                k <= t < drained0.len() && drained0[t] as int == i;
                            if t == k {
                                assert(r1[prev_roots.len() as int] as int == i);
                            }
                        }
                    }
                }
            } else {
                let m = vec_index_mut(&mut self.nodes, s);
                m.metadata.set_buffered(false);
                proof {
                    let v = prev_nodes[s as int].with_buffered(false);
                    assert(self.nodes@ =~= prev_nodes.update(s as int, v));
                    assert(node_ok(prev_nodes, s as int));
                    assert(node_ok(self.nodes@, s as int));
                    lemma_inv_update(prev_nodes, s as int, v);
                    assert forall|t: int| 0 <= t < self.roots@.len() implies (self.roots@[
                        t] as int) < self.nodes@.len() && self.nodes@[self.roots@[t]
                        as int].metadata.buffered by {
                        assert(prev_nodes[self.roots@[t] as int].metadata.buffered);
                        assert(self.roots@[t] as int != s as int);
                    }
                    if lone_keep || lone_free {
                        assert(k == 0 && s == drained0[0] && prev_nodes == nodes_entry);
                        assert(self.nodes@ =~= nodes_entry.update(
                            s as int,
                            nodes_entry[s as int].with_buffered(false),
                        ));
                    }
                    if pair2 {
                        // The seed is Purple at its own step, so only the
                        // partner's drain step reaches this branch.
                        assert(k == 1) by {
                            if k == 0 {
                                assert(prev_nodes[drained0[0] as int].metadata.color
                                    == Color::Purple);
                            }
                        }
                        assert(s == drained0[1]);
                        assert(mark_gray_mutual_post(
                            nodes_entry,
                            prev_nodes,
                            drained0[0],
                            drained0[1],
                        ));
                        assert(self.nodes@ =~= mark_roots_pair_target(
                            nodes_entry,
                            drained0[0],
                            drained0[1],
                        ));
                    }
                }
                let freeable = self.nodes[s].metadata.color() == Color::Black
                    && self.nodes[s].metadata.strong() == 0;
                if freeable {
                    let ghost before_free = self.nodes@;
                    dealloc::free(self, s);
                    proof {
                        if lone_free && before_free == nodes_entry.update(
                            s as int,
                            nodes_entry[s as int].with_buffered(false),
                        ) {
                            assert(self.nodes@[s as int].metadata == nodes_entry[s
                                as int].metadata.with_buffered(false).with_color(
                                Color::Black,
                            ).with_weak(
                                (nodes_entry[s as int].metadata.weak - 1) as usize,
                            ));
                            assert(reclaimed_post(nodes_entry, self.nodes@, drained0[0]));
                        }
                        assert forall|t: int| 0 <= t < self.roots@.len() implies (self
                            .roots@[t] as int) < self.nodes@.len() && self.nodes@[self
                            .roots@[t] as int].metadata.buffered by {
                            assert(before_free[self.roots@[t] as int].metadata.buffered);
                            assert(self.roots@[t] as int != s as int);
                            assert(self.nodes@[self.roots@[t] as int] == before_free[
                                self.roots@[t] as int]);
                        }
                        assert forall|t: int| k + 1 <= t < drained0.len() implies self
                            .nodes@[drained0[t] as int].metadata.buffered by {
                            assert(before_free[drained0[t] as int].metadata.buffered);
                            assert(drained0[t] != drained0[k as int]);
                            assert(self.nodes@[drained0[t] as int] == before_free[
                                drained0[t] as int]);
                        }
                        assert forall|i: int| 0 <= i < self.nodes@.len() && self.nodes@[
                        i].metadata.buffered implies in_roots(self.roots@, i) || (
                        exists|t: int| k + 1 <= t < drained0.len() && drained0[t] as int
                            == i) by {
                            assert(before_free[i].metadata.buffered);
                            assert(i != s as int);
                        }
                    }
                }
                proof {
                    assert forall|i: int| 0 <= i < self.nodes@.len() && self.nodes@[i]
                        .metadata.buffered implies in_roots(self.roots@, i) || (exists|
                    t: int| k + 1 <= t < drained0.len() && drained0[t] as int == i) by {
                        assert(prev_nodes[i].metadata.buffered || i == s as int);
                        if i != s as int {
                            if !in_roots(self.roots@, i) {
                                let t = choose|t: int|
                                    k <= t < drained0.len() && drained0[t] as int == i;
                                assert(drained0[t] != drained0[k as int]);
                                assert(t != k);
                            }
                        }
                    }
                }
            }
            k = k + 1;
        }
    }

    /// `ScanRoots`: run `scan` on every retained root, without touching the
    /// buffer.
    fn scan_roots(&mut self)
        requires
            old(self).wf(),
        ensures
            final(self).wf(),
            final(self).nodes@.len() == old(self).nodes@.len(),
            final(self).roots@ == old(self).roots@,
            forall|j: int| 0 <= j < old(self).nodes@.len()
                ==> final(self).nodes@[j].value == old(self).nodes@[j].value,
            forall|j: int| 0 <= j < old(self).nodes@.len() && old(self).nodes@[j].dropped
                ==> final(self).nodes@[j].dropped,
            old(self).roots@.len() == 0 ==> final(self).nodes@ == old(self).nodes@,
            old(self).roots@.len() == 1 && all_edges_to_self(
                old(self).nodes@[old(self).roots@[0] as int],
                old(self).roots@[0],
            ) && old(self).nodes@[old(self).roots@[0] as int].metadata.color
                == Color::Gray && old(self).nodes@[old(self).roots@[0] as int].metadata
                .strong == 0 ==> final(self).nodes@ == old(self).nodes@.update(
                old(self).roots@[0] as int,
                old(self).nodes@[old(self).roots@[0] as int].with_color(Color::White),
            ),
            old(self).roots@.len() == 1 && mutual_gray_garbage_pre(
                old(self).nodes@,
                old(self).roots@[0],
                old(self).nodes@[old(self).roots@[0] as int].children@[0],
            ) ==> final(self).nodes@ == old(self).nodes@.update(
                old(self).roots@[0] as int,
                old(self).nodes@[old(self).roots@[0] as int].with_color(Color::White),
            ).update(
                old(self).nodes@[old(self).roots@[0] as int].children@[0] as int,
                old(self).nodes@[old(self).nodes@[old(self).roots@[0] as int].children@[
                    0] as int].with_color(Color::White),
            ),
            old(self).roots@.len() == 1 && mutual_partner_rooted_pre(
                old(self).nodes@,
                old(self).roots@[0],
                old(self).nodes@[old(self).roots@[0] as int].children@[0],
            ) ==> scan_black_mutual_post(
                old(self).nodes@.update(
                    old(self).roots@[0] as int,
                    old(self).nodes@[old(self).roots@[0] as int].with_color(
                        Color::White,
                    ),
                ),
                final(self).nodes@,
                old(self).nodes@[old(self).roots@[0] as int].children@[0],
                old(self).roots@[0],
            ),
    {
        let ghost lone = old(self).roots@.len() == 1 && all_edges_to_self(
            old(self).nodes@[old(self).roots@[0] as int],
            old(self).roots@[0],
        ) && old(self).nodes@[old(self).roots@[0] as int].metadata.color == Color::Gray
            && old(self).nodes@[old(self).roots@[0] as int].metadata.strong == 0;
        let ghost lone_g = old(self).roots@.len() == 1 && mutual_gray_garbage_pre(
            old(self).nodes@,
            old(self).roots@[0],
            old(self).nodes@[old(self).roots@[0] as int].children@[0],
        );
        let ghost lone_p = old(self).roots@.len() == 1 && mutual_partner_rooted_pre(
            old(self).nodes@,
            old(self).roots@[0],
            old(self).nodes@[old(self).roots@[0] as int].children@[0],
        );
        let mut k: usize = 0;
        while k < self.roots.len()
            invariant
                k <= self.roots@.len(),
                self.wf(),
                self.nodes@.len() == old(self).nodes@.len(),
                self.roots@ == old(self).roots@,
                forall|j: int| 0 <= j < old(self).nodes@.len()
                    ==> self.nodes@[j].value == old(self).nodes@[j].value,
                forall|j: int| 0 <= j < old(self).nodes@.len()
                    && old(self).nodes@[j].dropped ==> self.nodes@[j].dropped,
                old(self).roots@.len() == 0 ==> self.nodes@ == old(self).nodes@,
                lone == (old(self).roots@.len() == 1 && all_edges_to_self(
                    old(self).nodes@[old(self).roots@[0] as int],
                    old(self).roots@[0],
                ) && old(self).nodes@[old(self).roots@[0] as int].metadata.color
                    == Color::Gray && old(self).nodes@[old(self).roots@[0] as int]
                    .metadata.strong == 0),
                lone ==> (k == 0 && self.nodes@ == old(self).nodes@) || (k == 1
                    && self.nodes@ == old(self).nodes@.update(
                    old(self).roots@[0] as int,
                    old(self).nodes@[old(self).roots@[0] as int].with_color(
                        Color::White,
                    ),
                )),
                lone_g == (old(self).roots@.len() == 1 && mutual_gray_garbage_pre(
                    old(self).nodes@,
                    old(self).roots@[0],
                    old(self).nodes@[old(self).roots@[0] as int].children@[0],
                )),
                lone_p == (old(self).roots@.len() == 1 && mutual_partner_rooted_pre(
                    old(self).nodes@,
                    old(self).roots@[0],
                    old(self).nodes@[old(self).roots@[0] as int].children@[0],
                )),
                lone_g ==> (k == 0 && self.nodes@ == old(self).nodes@) || (k == 1
                    && self.nodes@ == old(self).nodes@.update(
                    old(self).roots@[0] as int,
                    old(self).nodes@[old(self).roots@[0] as int].with_color(
                        Color::White,
                    ),
                ).update(
                    old(self).nodes@[old(self).roots@[0] as int].children@[0] as int,
                    old(self).nodes@[old(self).nodes@[old(self).roots@[0] as int]
                        .children@[0] as int].with_color(Color::White),
                )),
                lone_p ==> (k == 0 && self.nodes@ == old(self).nodes@) || (k == 1
                    && scan_black_mutual_post(
                    old(self).nodes@.update(
                        old(self).roots@[0] as int,
                        old(self).nodes@[old(self).roots@[0] as int].with_color(
                            Color::White,
                        ),
                    ),
                    self.nodes@,
                    old(self).nodes@[old(self).roots@[0] as int].children@[0],
                    old(self).roots@[0],
                )),
            decreases self.roots@.len() - k,
        {
            let ghost prev_nodes = self.nodes@;
            let s = self.roots[k];
            self.scan(s);
            proof {
                assert forall|t: int| 0 <= t < self.roots@.len() implies (self.roots@[t]
                    as int) < self.nodes@.len() && self.nodes@[self.roots@[t] as int]
                    .metadata.buffered by {
                    assert(prev_nodes[self.roots@[t] as int].metadata.buffered);
                }
                assert forall|i: int| 0 <= i < self.nodes@.len() && self.nodes@[i]
                    .metadata.buffered implies in_roots(self.roots@, i) by {
                    assert(prev_nodes[i].metadata.buffered);
                }
            }
            k = k + 1;
        }
    }

    /// `CollectRoots`: drain the buffer entirely; every entry is unbuffered
    /// and handed to `collect_white`.
    fn collect_roots(&mut self)
        requires
            old(self).wf(),
        ensures
            final(self).wf(),
            final(self).nodes@.len() == old(self).nodes@.len(),
            final(self).roots@.len() == 0,
            forall|i: int| 0 <= i < final(self).nodes@.len()
                ==> !final(self).nodes@[i].metadata.buffered,
            forall|j: int| 0 <= j < old(self).nodes@.len()
                ==> final(self).nodes@[j].value == old(self).nodes@[j].value,
            forall|j: int| 0 <= j < old(self).nodes@.len() && old(self).nodes@[j].dropped
                ==> final(self).nodes@[j].dropped,
            old(self).roots@.len() == 0 ==> final(self).nodes@ == old(self).nodes@,
            old(self).roots@.len() == 1 && all_edges_to_self(
                old(self).nodes@[old(self).roots@[0] as int],
                old(self).roots@[0],
            ) && old(self).nodes@[old(self).roots@[0] as int].metadata.color
                == Color::White && old(self).nodes@[old(self).roots@[0] as int].metadata
                .strong == 0 && old(self).nodes@[old(self).roots@[0] as int].metadata
                .weak >= 1 ==> reclaimed_post(
                old(self).nodes@,
                final(self).nodes@,
                old(self).roots@[0],
            ),
            old(self).roots@.len() == 1
                && old(self).nodes@[old(self).roots@[0] as int].metadata.color
                != Color::White ==> final(self).nodes@ == old(self).nodes@.update(
                old(self).roots@[0] as int,
                old(self).nodes@[old(self).roots@[0] as int].with_buffered(false),
            ),
            old(self).roots@.len() == 1 && mutual_white_garbage_pre(
                old(self).nodes@.update(
                    old(self).roots@[0] as int,
                    old(self).nodes@[old(self).roots@[0] as int].with_buffered(false),
                ),
                old(self).roots@[0],
                old(self).nodes@[old(self).roots@[0] as int].children@[0],
            ) ==> collect_white_pair_post(
                old(self).nodes@.update(
                    old(self).roots@[0] as int,
                    old(self).nodes@[old(self).roots@[0] as int].with_buffered(false),
                ),
                final(self).nodes@,
                old(self).roots@[0],
                old(self).nodes@[old(self).roots@[0] as int].children@[0],
            ),
    {
        let ghost nodes_entry = old(self).nodes@;
        let mut drained: Vec<CcPtr> = Vec::new();
        core::mem::swap(&mut drained, &mut self.roots);
        let ghost drained0 = drained@;
        let ghost lone = drained0.len() == 1 && all_edges_to_self(
            nodes_entry[drained0[0] as int],
            drained0[0],
        ) && nodes_entry[drained0[0] as int].metadata.color == Color::White
            && nodes_entry[drained0[0] as int].metadata.strong == 0
            && nodes_entry[drained0[0] as int].metadata.weak >= 1;
        let ghost lone_nw = drained0.len() == 1 && nodes_entry[drained0[0] as int]
            .metadata.color != Color::White;
        let ghost lone_mid = if drained0.len() == 1 {
            nodes_entry.update(
                drained0[0] as int,
                nodes_entry[drained0[0] as int].with_buffered(false),
            )
        } else {
            nodes_entry
        };
        let ghost lone_w2 = drained0.len() == 1 && mutual_white_garbage_pre(
            lone_mid,
            drained0[0],
            nodes_entry[drained0[0] as int].children@[0],
        );
        proof {
            assert forall|i: int| 0 <= i < self.nodes@.len()
                && self.nodes@[i].metadata.buffered implies exists|t: int|
                0 <= t < drained0.len() && drained0[t] as int == i by {
                assert(in_roots(drained0, i));
                let t = choose|t: int| 0 <= t < drained0.len() && drained0[t] as int == i;
                assert(0 <= t < drained0.len() && drained0[t] as int == i);
            }
        }
        let mut k: usize = 0;
        while k < drained.len()
            invariant
                k <= drained.len(),
                drained@ == drained0,
                inv_nodes(self.nodes@),
                self.nodes@.len() == nodes_entry.len(),
                forall|j: int| 0 <= j < nodes_entry.len()
                    ==> self.nodes@[j].value == nodes_entry[j].value,
                forall|j: int| 0 <= j < nodes_entry.len() && nodes_entry[j].dropped
                    ==> self.nodes@[j].dropped,
                lone == (drained0.len() == 1 && all_edges_to_self(
                    nodes_entry[drained0[0] as int],
                    drained0[0],
                ) && nodes_entry[drained0[0] as int].metadata.color == Color::White
                    && nodes_entry[drained0[0] as int].metadata.strong == 0
                    && nodes_entry[drained0[0] as int].metadata.weak >= 1),
                lone ==> (k == 0 && self.nodes@ == nodes_entry) || (k == 1
                    && reclaimed_post(nodes_entry, self.nodes@, drained0[0])),
                lone_nw == (drained0.len() == 1 && nodes_entry[drained0[0] as int]
                    .metadata.color != Color::White),
                lone_mid == (if drained0.len() == 1 {
                    nodes_entry.update(
                        drained0[0] as int,
                        nodes_entry[drained0[0] as int].with_buffered(false),
                    )
                } else {
                    nodes_entry
                }),
                lone_w2 == (drained0.len() == 1 && mutual_white_garbage_pre(
                    lone_mid,
                    drained0[0],
                    nodes_entry[drained0[0] as int].children@[0],
                )),
                lone_nw ==> (k == 0 && self.nodes@ == nodes_entry) || (k == 1
                    && self.nodes@ == lone_mid),
                lone_w2 ==> (k == 0 && self.nodes@ == nodes_entry) || (k == 1
                    && collect_white_pair_post(
                    lone_mid,
                    self.nodes@,
                    drained0[0],
                    nodes_entry[drained0[0] as int].children@[0],
                )),
                self.roots@.len() == 0,
                forall|t: int| k <= t < drained0.len()
                    ==> (drained0[t] as int) < self.nodes@.len(),
                forall|t: int| k <= t < drained0.len()
                    ==> self.nodes@[drained0[t] as int].metadata.buffered,
                forall|t1: int, t2: int| k <= t1 < drained0.len() && k <= t2
                    < drained0.len() && t1 != t2 ==> drained0[t1] != drained0[t2],
                forall|i: int| 0 <= i < self.nodes@.len()
                    && self.nodes@[i].metadata.buffered ==> exists|t: int|
                    k <= t < drained0.len() && drained0[t] as int == i,
                drained0.len() == 0 ==> self.nodes@ == nodes_entry,
            decreases drained.len() - k,
        {
            let ghost prev_nodes = self.nodes@;
            let s = drained[k];
            let m = vec_index_mut(&mut self.nodes, s);
            m.metadata.set_buffered(false);
            proof {
                let v = prev_nodes[s as int].with_buffered(false);
                assert(self.nodes@ =~= prev_nodes.update(s as int, v));
                assert(node_ok(prev_nodes, s as int));
                assert(node_ok(self.nodes@, s as int));
                lemma_inv_update(prev_nodes, s as int, v);
            }
            let ghost mid_nodes = self.nodes@;
            self.collect_white(s);
            proof {
                if lone {
                    assert(k == 0 && s == drained0[0] && prev_nodes == nodes_entry);
                    assert(mid_nodes == nodes_entry.update(
                        s as int,
                        nodes_entry[s as int].with_buffered(false),
                    ));
                    assert(mid_nodes[s as int]
                        == nodes_entry[s as int].with_buffered(false));
                    assert(all_edges_to_self(mid_nodes[s as int], s));
                    assert(collect_white_self_post(mid_nodes, self.nodes@, s));
                    assert(reclaimed_post(nodes_entry, self.nodes@, s));
                }
                if lone_nw {
                    assert(k == 0 && s == drained0[0] && prev_nodes == nodes_entry);
                    assert(mid_nodes =~= lone_mid);
                    assert(mid_nodes[s as int].metadata.color != Color::White);
                    assert(self.nodes@ == lone_mid);
                }
                if lone_w2 {
                    assert(k == 0 && s == drained0[0] && prev_nodes == nodes_entry);
                    assert(mid_nodes =~= lone_mid);
                    assert(mid_nodes[s as int].children@[0]
                        == nodes_entry[s as int].children@[0]);
                    assert(collect_white_pair_post(
                        lone_mid,
                        self.nodes@,
                        drained0[0],
                        nodes_entry[s as int].children@[0],
                    ));
                }
                assert forall|t: int| k + 1 <= t < drained0.len() implies self.nodes@[
                    drained0[t] as int].metadata.buffered by {
                    assert(mid_nodes[drained0[t] as int].metadata.buffered) by {
                        assert(prev_nodes[drained0[t] as int].metadata.buffered);
                        assert(drained0[t] != drained0[k as int]);
                    }
                }
                assert forall|i: int| 0 <= i < self.nodes@.len() && self.nodes@[i]
                    .metadata.buffered implies exists|t: int|
                    k + 1 <= t < drained0.len() && drained0[t] as int == i by {
                    assert(mid_nodes[i].metadata.buffered);
                    assert(prev_nodes[i].metadata.buffered && i != s as int);
                    let t = choose|t: int|
                        k <= t < drained0.len() && drained0[t] as int == i;
                    assert(t != k);
                }
            }
            k = k + 1;
        }
        proof {
            assert forall|i: int| 0 <= i < self.nodes@.len() implies !self.nodes@[i]
                .metadata.buffered by {
                if self.nodes@[i].metadata.buffered {
                    let t = choose|t: int|
                        drained0.len() <= t < drained0.len() && drained0[t] as int == i;
                }
            }
        }
    }

    /// Run one full cycle collection: mark the candidate roots, scan them,
    /// then collect the confirmed garbage.  Afterwards the roots buffer is
    /// empty and no cell is buffered.  On a quiescent collector — an empty
    /// roots buffer — the whole pass mutates nothing, so running it twice
    /// in a row frees nothing the second time and changes no header.
    ///
    /// The last postcondition is the collector's purpose proved on the
    /// smallest cycle: when the buffer holds exactly one candidate root
    /// whose strong count is owed entirely to its own self-edges — an
    /// unreachable cycle — and only the implicit weak survives, the pass
    /// reclaims it: the payload is dropped, both counts reach zero, and no
    /// other cell moves.
    pub fn collect_cycles(&mut self)
        requires
            old(self).wf(),
        ensures
            final(self).wf(),
            final(self).nodes@.len() == old(self).nodes@.len(),
            final(self).roots@.len() == 0,
            forall|i: int| 0 <= i < final(self).nodes@.len()
                ==> !final(self).nodes@[i].metadata.buffered,
            forall|j: int| 0 <= j < old(self).nodes@.len()
                ==> final(self).nodes@[j].value == old(self).nodes@[j].value,
            forall|j: int| 0 <= j < old(self).nodes@.len() && old(self).nodes@[j].dropped
                ==> final(self).nodes@[j].dropped,
            old(self).roots@.len() == 0 ==> final(self).nodes@ == old(self).nodes@,
            old(self).roots@.len() == 1 && all_edges_to_self(
                old(self).nodes@[old(self).roots@[0] as int],
                old(self).roots@[0],
            ) && old(self).nodes@[old(self).roots@[0] as int].metadata.color
                == Color::Purple && old(self).nodes@[old(self).roots@[0] as int].metadata
                .strong == old(self).nodes@[old(self).roots@[0] as int].children@.len()
                && old(self).nodes@[old(self).roots@[0] as int].metadata.weak == 1 ==> {
                &&& final(self).nodes@[old(self).roots@[0] as int].dropped
                &&& final(self).nodes@[old(self).roots@[0] as int].metadata.strong == 0
                &&& final(self).nodes@[old(self).roots@[0] as int].metadata.weak == 0
                &&& final(self).nodes@[old(self).roots@[0] as int].children@.len() == 0
                &&& (forall|j: int| 0 <= j < old(self).nodes@.len() && j != old(
                    self,
                ).roots@[0] ==> final(self).nodes@[j] == old(self).nodes@[j])
            },
            old(self).roots@.len() == 1
                && old(self).nodes@[old(self).roots@[0] as int].metadata.color
                == Color::Black && old(self).nodes@[old(self).roots@[0] as int].metadata
                .strong == 0 ==> reclaimed_post(
                old(self).nodes@,
                final(self).nodes@,
                old(self).roots@[0],
            ),
            two_cycle_garbage_pre(*old(self)) ==> {
                &&& final(self).nodes@[old(self).roots@[0] as int].dropped
                &&& final(self).nodes@[old(self).roots@[0] as int].metadata.strong == 0
                &&& final(self).nodes@[old(self).roots@[0] as int].metadata.weak == 0
                &&& final(self).nodes@[old(self).roots@[0] as int].children@.len() == 0
                &&& final(self).nodes@[old(self).roots@[1] as int].dropped
                &&& final(self).nodes@[old(self).roots@[1] as int].metadata.strong == 0
                &&& final(self).nodes@[old(self).roots@[1] as int].metadata.weak == 0
                &&& final(self).nodes@[old(self).roots@[1] as int].children@.len() == 0
                &&& (forall|j: int| 0 <= j < old(self).nodes@.len() && j != old(
                    self,
                ).roots@[0] && j != old(self).roots@[1] ==> final(self).nodes@[j]
                    == old(self).nodes@[j])
            },
            two_cycle_rooted_pre(*old(self)) ==> {
                &&& final(self).nodes@[old(self).roots@[0] as int].metadata.strong
                    == old(self).nodes@[old(self).roots@[0] as int].metadata.strong
                &&& final(self).nodes@[old(self).roots@[1] as int].metadata.strong
                    == old(self).nodes@[old(self).roots@[1] as int].metadata.strong
                &&& final(self).nodes@[old(self).roots@[0] as int].metadata.color
                    == Color::Black
                &&& final(self).nodes@[old(self).roots@[1] as int].metadata.color
                    == Color::Black
                &&& final(self).nodes@[old(self).roots@[0] as int].metadata.weak
                    == old(self).nodes@[old(self).roots@[0] as int].metadata.weak
                &&& final(self).nodes@[old(self).roots@[1] as int].metadata.weak
                    == old(self).nodes@[old(self).roots@[1] as int].metadata.weak
                &&& final(self).nodes@[old(self).roots@[0] as int].dropped
                    == old(self).nodes@[old(self).roots@[0] as int].dropped
                &&& final(self).nodes@[old(self).roots@[1] as int].dropped
                    == old(self).nodes@[old(self).roots@[1] as int].dropped
                &&& final(self).nodes@[old(self).roots@[0] as int].children@
                    == old(self).nodes@[old(self).roots@[0] as int].children@
                &&& final(self).nodes@[old(self).roots@[1] as int].children@
                    == old(self).nodes@[old(self).roots@[1] as int].children@
                &&& (forall|j: int| 0 <= j < old(self).nodes@.len() && j != old(
                    self,
                ).roots@[0] && j != old(self).roots@[1] ==> final(self).nodes@[j]
                    == old(self).nodes@[j])
            },
    {
        let ghost pre = *self;
        self.mark_roots();
        let ghost s1 = *self;
        self.scan_roots();
        let ghost s2 = *self;
        self.collect_roots();
        proof {
            if pre.roots@.len() == 1 && all_edges_to_self(
                pre.nodes@[pre.roots@[0] as int],
                pre.roots@[0],
            ) && pre.nodes@[pre.roots@[0] as int].metadata.color == Color::Purple
                && pre.nodes@[pre.roots@[0] as int].metadata.strong
                == pre.nodes@[pre.roots@[0] as int].children@.len()
                && pre.nodes@[pre.roots@[0] as int].metadata.weak == 1 {
                let r = pre.roots@[0];
                assert((r as int) < pre.nodes@.len());
                let gray_cell = pre.nodes@[r as int].with_color(Color::Gray).with_strong(
                    (pre.nodes@[r as int].metadata.strong
                        - pre.nodes@[r as int].children@.len()) as usize,
                );
                assert(s1.nodes@ == pre.nodes@.update(r as int, gray_cell));
                assert(s1.roots@ == pre.roots@);
                assert(s1.nodes@[r as int] == gray_cell);
                assert(gray_cell.metadata.strong == 0);
                assert(gray_cell.children@ == pre.nodes@[r as int].children@);
                assert(all_edges_to_self(s1.nodes@[r as int], r));
                let white_cell = gray_cell.with_color(Color::White);
                assert(s2.nodes@ == s1.nodes@.update(r as int, white_cell));
                assert(s2.nodes@[r as int] == white_cell);
                assert(white_cell.metadata.weak == 1);
                assert(all_edges_to_self(s2.nodes@[r as int], r));
                assert(reclaimed_post(s2.nodes@, self.nodes@, r));
                assert forall|j: int| 0 <= j < pre.nodes@.len() && j != r
                    implies self.nodes@[j] == pre.nodes@[j] by {
                    assert(s1.nodes@[j] == pre.nodes@[j]);
                    assert(s2.nodes@[j] == s1.nodes@[j]);
                }
            }
            if pre.roots@.len() == 1 && pre.nodes@[pre.roots@[0] as int].metadata.color
                == Color::Black && pre.nodes@[pre.roots@[0] as int].metadata.strong
                == 0 {
                // The buffer held one dead Black header: the marking pass
                // drained and freed it, and the later passes saw an empty
                // buffer.
                assert(reclaimed_post(pre.nodes@, s1.nodes@, pre.roots@[0]));
                assert(s1.roots@.len() == 0);
                assert(s2.nodes@ == s1.nodes@);
                assert(self.nodes@ == s2.nodes@);
            }
            if two_cycle_garbage_pre(pre) || two_cycle_rooted_pre(pre) {
                let r0 = pre.roots@[0];
                let r1 = pre.roots@[1];
                let k1 = pre.nodes@[r0 as int].children@.len();
                let k2 = pre.nodes@[r1 as int].children@.len();
                // The marking pass: both cells Gray, internal edges
                // subtracted, the partner's buffer entry drained.
                assert(s1.nodes@ == mark_roots_pair_target(pre.nodes@, r0, r1));
                assert(s1.roots@ =~= seq![r0]);
                assert(s1.nodes@[r0 as int] == pre.nodes@[r0 as int].with_color(
                    Color::Gray,
                ).with_strong((pre.nodes@[r0 as int].metadata.strong - k2) as usize));
                assert(s1.nodes@[r1 as int] == pre.nodes@[r1 as int].with_color(
                    Color::Gray,
                ).with_strong(
                    (pre.nodes@[r1 as int].metadata.strong - k1) as usize,
                ).with_buffered(false));
                assert(s1.nodes@[r0 as int].metadata.strong == 0);
                assert(s1.nodes@[r0 as int].children@ == pre.nodes@[r0 as int].children@);
                assert(s1.nodes@[r1 as int].children@ == pre.nodes@[r1 as int].children@);
                assert(s1.nodes@[r0 as int].children@[0] == r1);
                assert(all_edges_to(s1.nodes@[r0 as int], r1)) by {
                    assert forall|w: int| 0 <= w < s1.nodes@[r0 as int].children@.len()
                        implies s1.nodes@[r0 as int].children@[w] == r1 by {
                        assert(pre.nodes@[r0 as int].children@[w] == r1);
                    }
                }
                assert(all_edges_to(s1.nodes@[r1 as int], r0)) by {
                    assert forall|w: int| 0 <= w < s1.nodes@[r1 as int].children@.len()
                        implies s1.nodes@[r1 as int].children@[w] == r0 by {
                        assert(pre.nodes@[r1 as int].children@[w] == r0);
                    }
                }
                assert(s2.roots@ == s1.roots@);
                assert(s2.roots@[0] == r0 && s2.roots@.len() == 1);
                if two_cycle_garbage_pre(pre) {
                    // The scan confirms garbage: both cells White.
                    assert(s1.nodes@[r1 as int].metadata.strong == 0);
                    assert(mutual_gray_garbage_pre(s1.nodes@, r0, r1));
                    assert(s2.nodes@ == s1.nodes@.update(
                        r0 as int,
                        s1.nodes@[r0 as int].with_color(Color::White),
                    ).update(
                        r1 as int,
                        s1.nodes@[r1 as int].with_color(Color::White),
                    ));
                    // The collection frees both.
                    let s2u = s2.nodes@.update(
                        r0 as int,
                        s2.nodes@[r0 as int].with_buffered(false),
                    );
                    assert(s2.nodes@[r0 as int].children@[0] == r1);
                    assert(s2u[r0 as int].children@[0] == r1);
                    assert(all_edges_to(s2u[r0 as int], r1)) by {
                        assert forall|w: int| 0 <= w < s2u[r0 as int].children@.len()
                            implies s2u[r0 as int].children@[w] == r1 by {
                            assert(pre.nodes@[r0 as int].children@[w] == r1);
                        }
                    }
                    assert(all_edges_to(s2u[r1 as int], r0)) by {
                        assert forall|w: int| 0 <= w < s2u[r1 as int].children@.len()
                            implies s2u[r1 as int].children@[w] == r0 by {
                            assert(pre.nodes@[r1 as int].children@[w] == r0);
                        }
                    }
                    assert(mutual_white_garbage_pre(s2u, r0, r1));
                    assert(collect_white_pair_post(s2u, self.nodes@, r0, r1));
                    assert(s2u[r0 as int].metadata.weak == 1);
                    assert(s2u[r1 as int].metadata.weak == 1);
                    assert forall|j: int| 0 <= j < pre.nodes@.len() && j != r0 && j
                        != r1 implies self.nodes@[j] == pre.nodes@[j] by {
                        assert(s1.nodes@[j] == pre.nodes@[j]);
                        assert(s2.nodes@[j] == s1.nodes@[j]);
                        assert(s2u[j] == s2.nodes@[j]);
                        assert(self.nodes@[j] == s2u[j]);
                    }
                }
                if two_cycle_rooted_pre(pre) {
                    // The scan rescues through the externally rooted
                    // partner: both cells Black, counts restored.
                    assert(s1.nodes@[r1 as int].metadata.strong
                        == pre.nodes@[r1 as int].metadata.strong - k1);
                    assert(s1.nodes@[r1 as int].metadata.strong >= 1);
                    assert(s1.nodes@[r1 as int].children@.len() == k2 && k2 >= 1);
                    assert(mutual_partner_rooted_pre(s1.nodes@, r0, r1));
                    let s1u = s1.nodes@.update(
                        r0 as int,
                        s1.nodes@[r0 as int].with_color(Color::White),
                    );
                    assert(scan_black_mutual_post(s1u, s2.nodes@, r1, r0));
                    assert(s1u[r1 as int] == s1.nodes@[r1 as int]);
                    assert(s2.nodes@[r1 as int] == s1u[r1 as int].with_color(
                        Color::Black,
                    ).with_strong(
                        (s1u[r1 as int].metadata.strong
                            + s1u[r0 as int].children@.len()) as usize,
                    ));
                    assert(s2.nodes@[r0 as int] == s1u[r0 as int].with_color(
                        Color::Black,
                    ).with_strong(
                        (s1u[r0 as int].metadata.strong
                            + s1u[r1 as int].children@.len()) as usize,
                    ));
                    assert(s2.nodes@[r0 as int].metadata.strong
                        == pre.nodes@[r0 as int].metadata.strong);
                    assert(s2.nodes@[r1 as int].metadata.strong
                        == pre.nodes@[r1 as int].metadata.strong);
                    assert(s2.nodes@[r0 as int].metadata.color != Color::White);
                    assert(self.nodes@ == s2.nodes@.update(
                        r0 as int,
                        s2.nodes@[r0 as int].with_buffered(false),
                    ));
                    assert forall|j: int| 0 <= j < pre.nodes@.len() && j != r0 && j
                        != r1 implies self.nodes@[j] == pre.nodes@[j] by {
                        assert(s1.nodes@[j] == pre.nodes@[j]);
                        assert(s1u[j] == s1.nodes@[j]);
                        assert(s2.nodes@[j] == s1u[j]);
                        assert(self.nodes@[j] == s2.nodes@[j]);
                    }
                }
            }
        }
    }
}

/// Round trip: a candidate root that passes through `mark_gray` and then
/// `scan_black` has its strong count restored to its pre-pass value.  The
/// contract states the law for a root whose strong edges all point back to
/// itself — a self-cycle of any multiplicity, the childless root included —
/// where both passes are pinned down exactly by their own contracts: the
/// trial deletion subtracts one unit per edge and the rescue restores one
/// unit per edge.
pub fn mark_scan_round_trip(cc: &mut SyncCycleCollector, s: CcPtr)
    requires
        old(cc).wf(),
        (s as int) < old(cc).nodes@.len(),
        all_edges_to_self(old(cc).nodes@[s as int], s),
        old(cc).nodes@[s as int].metadata.color == Color::Purple,
        old(cc).nodes@[s as int].metadata.strong
            >= old(cc).nodes@[s as int].children@.len(),
    ensures
        final(cc).nodes@[s as int].metadata.strong
            == old(cc).nodes@[s as int].metadata.strong,
        final(cc).nodes@[s as int].metadata.color == Color::Black,
{
    cc.mark_gray(s);
    cc.scan_black(s);
}

/// Round trip on a pure two-cell cycle: a candidate root `s` whose edges
/// all point at a partner `t`, whose edges all point back, passes through
/// `mark_gray` and then `scan_black` with both strong counts restored to
/// their pre-pass values.  The trial deletion subtracts one unit per edge
/// into each cell and the rescue restores one unit per edge, on both cells.
pub fn mark_scan_round_trip_pair(cc: &mut SyncCycleCollector, s: CcPtr)
    requires
        old(cc).wf(),
        (s as int) < old(cc).nodes@.len(),
        mutual_pair_pre(old(cc).nodes@, s, old(cc).nodes@[s as int].children@[0]),
        old(cc).nodes@[s as int].metadata.strong + old(cc).nodes@[s as int].children@.len()
            <= usize::MAX,
        old(cc).nodes@[old(cc).nodes@[s as int].children@[0] as int].metadata.strong
            + old(cc).nodes@[old(cc).nodes@[s as int].children@[0] as int].children@.len()
            <= usize::MAX,
    ensures
        final(cc).nodes@[s as int].metadata.strong
            == old(cc).nodes@[s as int].metadata.strong,
        final(cc).nodes@[old(cc).nodes@[s as int].children@[0] as int].metadata.strong
            == old(cc).nodes@[old(cc).nodes@[s as int].children@[0] as int].metadata
            .strong,
        final(cc).nodes@[s as int].metadata.color == Color::Black,
        final(cc).nodes@[old(cc).nodes@[s as int].children@[0] as int].metadata.color
            == Color::Black,
{
    let ghost nodes0 = cc.nodes@;
    let ghost t = nodes0[s as int].children@[0];
    cc.mark_gray(s);
    proof {
        assert(mark_gray_mutual_post(nodes0, cc.nodes@, s, t));
        assert(node_ok(nodes0, t as int));
        assert(!nodes0[t as int].dropped);
        assert(cc.nodes@[s as int].children@ == nodes0[s as int].children@);
        assert(cc.nodes@[t as int].children@ == nodes0[t as int].children@);
        assert(scan_black_mutual_pre(cc.nodes@, s, cc.nodes@[s as int].children@[0]));
    }
    let ghost nodes1 = cc.nodes@;
    cc.scan_black(s);
    proof {
        assert(scan_black_mutual_post(nodes1, cc.nodes@, s, t));
    }
}

} // verus!
