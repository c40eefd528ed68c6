//! The deallocation protocol: release of a header once its payload has been
//! destroyed, and release of the backing storage once strong and weak have
//! both reached zero.  Freed cells remain in the slab as tombstones so that
//! no pointer ever dangles.

use vstd::prelude::*;
use vstd::std_specs::vec::vec_index_mut;
use crate::collect::{
    SyncCycleCollector, inv_nodes, inv_nodes_except, inv_roots, lemma_inv_except_update,
    lemma_inv_update, node_ok,
};
use crate::box_ptr::CcPtr;

verus! {

/// Release the backing storage of a cell whose strong and weak counts have
/// both reached zero: the cell becomes a tombstone, its payload dropped and
/// its edge set empty.
pub fn deallocate(cc: &mut SyncCycleCollector, ptr: CcPtr)
    requires
        inv_nodes_except(old(cc).nodes@, ptr as int),
        (ptr as int) < old(cc).nodes@.len(),
        old(cc).nodes@[ptr as int].metadata.strong == 0,
        old(cc).nodes@[ptr as int].metadata.weak == 0,
        !old(cc).nodes@[ptr as int].metadata.buffered,
    ensures
        inv_nodes(final(cc).nodes@),
        final(cc).roots@ == old(cc).roots@,
        final(cc).nodes@.len() == old(cc).nodes@.len(),
        forall|j: int| 0 <= j < old(cc).nodes@.len() && j != ptr
            ==> final(cc).nodes@[j] == old(cc).nodes@[j],
        final(cc).nodes@[ptr as int].metadata == old(cc).nodes@[ptr as int].metadata,
        final(cc).nodes@[ptr as int].value == old(cc).nodes@[ptr as int].value,
        final(cc).nodes@[ptr as int].dropped,
        final(cc).nodes@[ptr as int].children@.len() == 0,
{
    let m = vec_index_mut(&mut cc.nodes, ptr);
    m.children.clear();
    m.dropped = true;
    proof {
        let nodes0 = old(cc).nodes@;
        let v = cc.nodes@[ptr as int];
        assert(cc.nodes@ =~= nodes0.update(ptr as int, v));
        assert(node_ok(nodes0.update(ptr as int, v), ptr as int));
        lemma_inv_update(nodes0, ptr as int, v);
    }
}

/// Deallocate the cell if possible.  The cell's payload should already have
/// been destroyed: its strong count is zero and it is not buffered.  Removes
/// the implicit weak owned collectively by the strong handles; if that was
/// the last weak, releases the backing storage.
pub fn free(cc: &mut SyncCycleCollector, s: CcPtr)
    requires
        inv_nodes(old(cc).nodes@),
        (s as int) < old(cc).nodes@.len(),
        old(cc).nodes@[s as int].metadata.strong == 0,
        !old(cc).nodes@[s as int].metadata.buffered,
        old(cc).nodes@[s as int].metadata.weak >= 1,
    ensures
        inv_nodes(final(cc).nodes@),
        final(cc).roots@ == old(cc).roots@,
        final(cc).nodes@.len() == old(cc).nodes@.len(),
        forall|j: int| 0 <= j < old(cc).nodes@.len() && j != s
            ==> final(cc).nodes@[j] == old(cc).nodes@[j],
        final(cc).nodes@[s as int].metadata == old(cc).nodes@[s as int].metadata.with_weak(
            (old(cc).nodes@[s as int].metadata.weak - 1) as usize,
        ),
        final(cc).nodes@[s as int].value == old(cc).nodes@[s as int].value,
        old(cc).nodes@[s as int].metadata.weak == 1 ==> final(cc).nodes@[s as int].dropped
            && final(cc).nodes@[s as int].children@.len() == 0,
        old(cc).nodes@[s as int].metadata.weak > 1 ==> {
            &&& final(cc).nodes@[s as int].dropped == old(cc).nodes@[s as int].dropped
            &&& final(cc).nodes@[s as int].children@ == old(cc).nodes@[s as int].children@
        },
        inv_roots(old(cc).roots@, old(cc).nodes@) ==> inv_roots(final(cc).roots@, final(cc).nodes@),
{
    let ghost nodes0 = old(cc).nodes@;
    let m = vec_index_mut(&mut cc.nodes, s);
    m.metadata.dec_weak();
    proof {
        let v = nodes0[s as int].with_weak((nodes0[s as int].metadata.weak - 1) as usize);
        assert(cc.nodes@ =~= nodes0.update(s as int, v));
        assert(node_ok(nodes0, s as int));
        lemma_inv_except_update(nodes0, s as int, v);
    }
    let weak_now = cc.nodes[s].metadata.weak();
    if weak_now == 0 {
        deallocate(cc, s);
    } else {
        proof {
            let v = nodes0[s as int].with_weak((nodes0[s as int].metadata.weak - 1) as usize);
            assert(node_ok(nodes0.update(s as int, v), s as int));
            lemma_inv_update(nodes0, s as int, v);
        }
    }
    proof {
        if inv_roots(old(cc).roots@, nodes0) {
            assert forall|k: int| 0 <= k < cc.roots@.len() implies (cc.roots@[k] as int)
                < cc.nodes@.len() && cc.nodes@[cc.roots@[k] as int].metadata.buffered by {
                assert(nodes0[cc.roots@[k] as int].metadata.buffered);
                assert(cc.roots@[k] as int != s as int);
                assert(cc.nodes@[cc.roots@[k] as int] == nodes0[cc.roots@[k] as int]);
            }
        }
    }
}

} // verus!
