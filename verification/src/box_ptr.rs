//! The typed non-owning pointer by which collectors and handles refer to a
//! managed object, and the common read-only view every kind of handle offers
//! on the object's header.

use vstd::prelude::*;
use crate::{Cc, CcBoxMetaData, Color, Weak};
use crate::collect::SyncCycleCollector;

verus! {

/// A non-owning pointer to a managed object: the index of its cell in the
/// owning collector's slab.  The roots buffer holds these so that buffer
/// membership never contributes to a reference count.
pub type CcPtr = usize;

/// The read-only view common to every handle on a managed object: the
/// pointer it wraps, and the fields of the header it designates.
pub trait CcBoxPtr {
    /// The pointer this handle wraps, in spec form.
    spec fn id(&self) -> CcPtr;

    /// Get this handle's pointer.
    fn get_ptr(&self) -> (r: CcPtr)
        ensures
            r == self.id(),
    ;

    /// Borrow the header of the object this handle designates.
    fn metadata<'a>(&self, cc: &'a SyncCycleCollector) -> (r: &'a CcBoxMetaData)
        requires
            self.id() < cc.nodes@.len(),
        ensures
            *r == cc.nodes@[self.id() as int].metadata,
    ;

    /// The designated object's strong count.
    fn strong(&self, cc: &SyncCycleCollector) -> (r: usize)
        requires
            self.id() < cc.nodes@.len(),
        ensures
            r == cc.nodes@[self.id() as int].metadata.strong,
    ;

    /// The designated object's weak count.
    fn weak(&self, cc: &SyncCycleCollector) -> (r: usize)
        requires
            self.id() < cc.nodes@.len(),
        ensures
            r == cc.nodes@[self.id() as int].metadata.weak,
    ;

    /// Whether the designated object sits in the roots buffer.
    fn buffered(&self, cc: &SyncCycleCollector) -> (r: bool)
        requires
            self.id() < cc.nodes@.len(),
        ensures
            r == cc.nodes@[self.id() as int].metadata.buffered,
    ;

    /// The designated object's cycle-collection color.
    fn color(&self, cc: &SyncCycleCollector) -> (r: Color)
        requires
            self.id() < cc.nodes@.len(),
        ensures
            r == cc.nodes@[self.id() as int].metadata.color,
    ;
}

impl CcBoxPtr for Cc {
    open spec fn id(&self) -> CcPtr {
        self.ptr
    }

    fn get_ptr(&self) -> CcPtr {
        self.ptr
    }

    fn metadata<'a>(&self, cc: &'a SyncCycleCollector) -> &'a CcBoxMetaData {
        &cc.nodes[self.ptr].metadata
    }

    fn strong(&self, cc: &SyncCycleCollector) -> usize {
        cc.nodes[self.ptr].metadata.strong()
    }

    fn weak(&self, cc: &SyncCycleCollector) -> usize {
        cc.nodes[self.ptr].metadata.weak()
    }

    fn buffered(&self, cc: &SyncCycleCollector) -> bool {
        cc.nodes[self.ptr].metadata.buffered()
    }

    fn color(&self, cc: &SyncCycleCollector) -> Color {
        cc.nodes[self.ptr].metadata.color()
    }
}

impl CcBoxPtr for Weak {
    open spec fn id(&self) -> CcPtr {
        self.ptr
    }

    fn get_ptr(&self) -> CcPtr {
        self.ptr
    }

    fn metadata<'a>(&self, cc: &'a SyncCycleCollector) -> &'a CcBoxMetaData {
        &cc.nodes[self.ptr].metadata
    }

    fn strong(&self, cc: &SyncCycleCollector) -> usize {
        cc.nodes[self.ptr].metadata.strong()
    }

    fn weak(&self, cc: &SyncCycleCollector) -> usize {
        cc.nodes[self.ptr].metadata.weak()
    }

    fn buffered(&self, cc: &SyncCycleCollector) -> bool {
        cc.nodes[self.ptr].metadata.buffered()
    }

    fn color(&self, cc: &SyncCycleCollector) -> Color {
        cc.nodes[self.ptr].metadata.color()
    }
}

/// Run one full cycle-collection pass of the given collector.  The
/// contract matches the method's own: see
/// `SyncCycleCollector::collect_cycles`.
pub fn collect_cycles(roots: &mut SyncCycleCollector)
    requires
        old(roots).wf(),
    ensures
        final(roots).wf(),
        final(roots).nodes@.len() == old(roots).nodes@.len(),
        final(roots).roots@.len() == 0,
        forall|i: int| 0 <= i < final(roots).nodes@.len()
            ==> !final(roots).nodes@[i].metadata.buffered,
        forall|j: int| 0 <= j < old(roots).nodes@.len()
            ==> final(roots).nodes@[j].value == old(roots).nodes@[j].value,
        forall|j: int| 0 <= j < old(roots).nodes@.len() && old(roots).nodes@[j].dropped
            ==> final(roots).nodes@[j].dropped,
        old(roots).roots@.len() == 0 ==> final(roots).nodes@ == old(roots).nodes@,
        old(roots).roots@.len() == 1 && crate::collect::all_edges_to_self(
            old(roots).nodes@[old(roots).roots@[0] as int],
            old(roots).roots@[0],
        ) && old(roots).nodes@[old(roots).roots@[0] as int].metadata.color
            == Color::Purple && old(roots).nodes@[old(roots).roots@[0] as int].metadata
            .strong == old(roots).nodes@[old(roots).roots@[0] as int].children@.len()
            && old(roots).nodes@[old(roots).roots@[0] as int].metadata.weak == 1 ==> {
            &&& final(roots).nodes@[old(roots).roots@[0] as int].dropped
            &&& final(roots).nodes@[old(roots).roots@[0] as int].metadata.strong == 0
            &&& final(roots).nodes@[old(roots).roots@[0] as int].metadata.weak == 0
            &&& final(roots).nodes@[old(roots).roots@[0] as int].children@.len() == 0
            &&& (forall|j: int| 0 <= j < old(roots).nodes@.len() && j != old(
                roots,
            ).roots@[0] ==> final(roots).nodes@[j] == old(roots).nodes@[j])
        },
        old(roots).roots@.len() == 1
            && old(roots).nodes@[old(roots).roots@[0] as int].metadata.color
            == Color::Black && old(roots).nodes@[old(roots).roots@[0] as int].metadata
            .strong == 0 ==> crate::collect::reclaimed_post(
            old(roots).nodes@,
            final(roots).nodes@,
            old(roots).roots@[0],
        ),
        crate::collect::two_cycle_garbage_pre(*old(roots)) ==> {
            &&& final(roots).nodes@[old(roots).roots@[0] as int].dropped
            &&& final(roots).nodes@[old(roots).roots@[0] as int].metadata.strong == 0
            &&& final(roots).nodes@[old(roots).roots@[0] as int].metadata.weak == 0
            &&& final(roots).nodes@[old(roots).roots@[0] as int].children@.len() == 0
            &&& final(roots).nodes@[old(roots).roots@[1] as int].dropped
            &&& final(roots).nodes@[old(roots).roots@[1] as int].metadata.strong == 0
            &&& final(roots).nodes@[old(roots).roots@[1] as int].metadata.weak == 0
            &&& final(roots).nodes@[old(roots).roots@[1] as int].children@.len() == 0
            &&& (forall|j: int| 0 <= j < old(roots).nodes@.len() && j != old(
                roots,
            ).roots@[0] && j != old(roots).roots@[1] ==> final(roots).nodes@[j]
                == old(roots).nodes@[j])
        },
        crate::collect::two_cycle_rooted_pre(*old(roots)) ==> {
            &&& final(roots).nodes@[old(roots).roots@[0] as int].metadata.strong
                == old(roots).nodes@[old(roots).roots@[0] as int].metadata.strong
            &&& final(roots).nodes@[old(roots).roots@[1] as int].metadata.strong
                == old(roots).nodes@[old(roots).roots@[1] as int].metadata.strong
            &&& final(roots).nodes@[old(roots).roots@[0] as int].metadata.color
                == Color::Black
            &&& final(roots).nodes@[old(roots).roots@[1] as int].metadata.color
                == Color::Black
            &&& (forall|j: int| 0 <= j < old(roots).nodes@.len() && j != old(
                roots,
            ).roots@[0] && j != old(roots).roots@[1] ==> final(roots).nodes@[j]
                == old(roots).nodes@[j])
        },
{
    roots.collect_cycles();
}

} // verus!
