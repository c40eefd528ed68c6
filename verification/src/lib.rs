//! A strong/weak reference-counting library extended with a cycle collector
//! able to reclaim unreachable reference cycles, after the synchronous
//! trial-deletion algorithm of Bacon and Rajan (2001).
//!
//! Managed objects live in a slab owned by their collector; a `CcPtr` is the
//! index of an object's header in that slab, a typed non-owning pointer.  Each
//! header carries a strong count, a weak count, a `buffered` flag recording
//! membership in the collector's roots buffer, and a cycle-collection color.
//! Strong handles (`Cc`) and weak handles (`Weak`) mediate every count change;
//! the collector drains its roots buffer in three passes (mark, scan, collect)
//! and frees whichever headers trial deletion proves unreachable.

mod acc;
mod box_ptr;
mod collect;
mod concurrent_collect;
mod dealloc;
mod metadata;

pub use acc::{AccBox, AccBoxMetaData, AccBoxPtr, AccPtr, Atrace};
pub use box_ptr::{CcBoxPtr, CcPtr, collect_cycles};
pub use collect::{
    SyncCycleCollector, SyncOrConcurrent, mark_scan_round_trip, mark_scan_round_trip_pair,
};
pub use concurrent_collect::ParCycleCollector;
pub use metadata::{BoxMetaData, MetaData};

use vstd::prelude::*;

verus! {

/// Cycle-collection state of a managed object's header.
#[derive(Debug, Clone, Copy, PartialEq, Eq, Structural)]
pub enum Color {
    /// In use or free
    Black,
    /// Possible member of cycle
    Gray,
    /// Member of garbage cycle
    White,
    /// Possible root of cycle
    Purple,
    /// Acyclic
    Green,
    /// Candidate cycle undergoing sigma-computation
    Red,
    /// Candidate cycle awaiting epoch boundary
    Orange,
}

/// Per-object bookkeeping header: the two reference counts, the roots-buffer
/// membership flag and the cycle-collection color.
#[derive(Debug, Clone, Copy, PartialEq, Eq, Structural)]
pub struct CcBoxMetaData {
    /// Count of live strong handles.
    pub strong: usize,
    /// Count of live weak handles, plus one implicit weak held collectively
    /// by all strong handles.
    pub weak: usize,
    /// True iff this header currently appears (once) in the collector's
    /// roots buffer.
    pub buffered: bool,
    /// Trial-deletion color.
    pub color: Color,
}

impl CcBoxMetaData {
    /// A fresh header: counts (1, 1), not buffered, Black.
    ///
    /// There is an implicit weak pointer owned by all the strong pointers,
    /// which ensures that the weak destructor never frees the allocation
    /// while the strong destructor is running.
    pub fn with() -> (m: CcBoxMetaData)
        ensures
            m.strong == 1,
            m.weak == 1,
            !m.buffered,
            m.color == Color::Black,
    {
        CcBoxMetaData { strong: 1, weak: 1, buffered: false, color: Color::Black }
    }

    pub fn strong(&self) -> (r: usize)
        ensures
            r == self.strong,
    {
        self.strong
    }

    pub fn weak(&self) -> (r: usize)
        ensures
            r == self.weak,
    {
        self.weak
    }

    pub fn buffered(&self) -> (r: bool)
        ensures
            r == self.buffered,
    {
        self.buffered
    }

    pub fn color(&self) -> (r: Color)
        ensures
            r == self.color,
    {
        self.color
    }

    /// Increment the strong count; overflow is a fatal programmer bug and is
    /// excluded by precondition.
    pub fn inc_strong(&mut self) -> (r: usize)
        requires
            old(self).strong < usize::MAX,
        ensures
            *final(self) == old(self).with_strong((old(self).strong + 1) as usize),
            r == final(self).strong,
    {
        self.strong = self.strong + 1;
        self.strong
    }

    /// Decrement the strong count and return the new value; underflow is a
    /// fatal programmer bug and is excluded by precondition.
    pub fn dec_strong(&mut self) -> (r: usize)
        requires
            old(self).strong >= 1,
        ensures
            *final(self) == old(self).with_strong((old(self).strong - 1) as usize),
            r == final(self).strong,
    {
        self.strong = self.strong - 1;
        self.strong
    }

    /// Increment the weak count; overflow is fatal and excluded.
    pub fn inc_weak(&mut self) -> (r: usize)
        requires
            old(self).weak < usize::MAX,
        ensures
            *final(self) == old(self).with_weak((old(self).weak + 1) as usize),
            r == final(self).weak,
    {
        self.weak = self.weak + 1;
        self.weak
    }

    /// Decrement the weak count; underflow is fatal and excluded.
    pub fn dec_weak(&mut self) -> (r: usize)
        requires
            old(self).weak >= 1,
        ensures
            *final(self) == old(self).with_weak((old(self).weak - 1) as usize),
            r == final(self).weak,
    {
        self.weak = self.weak - 1;
        self.weak
    }

    pub fn set_buffered(&mut self, new: bool)
        ensures
            *final(self) == old(self).with_buffered(new),
    {
        self.buffered = new;
    }

    pub fn set_color(&mut self, new: Color)
        ensures
            *final(self) == old(self).with_color(new),
    {
        self.color = new;
    }

    /// The header with only its strong count replaced.
    pub open spec fn with_strong(self, s: usize) -> CcBoxMetaData {
        CcBoxMetaData { strong: s, ..self }
    }

    /// The header with only its weak count replaced.
    pub open spec fn with_weak(self, w: usize) -> CcBoxMetaData {
        CcBoxMetaData { weak: w, ..self }
    }

    /// The header with only its buffered flag replaced.
    pub open spec fn with_buffered(self, b: bool) -> CcBoxMetaData {
        CcBoxMetaData { buffered: b, ..self }
    }

    /// The header with only its color replaced.
    pub open spec fn with_color(self, c: Color) -> CcBoxMetaData {
        CcBoxMetaData { color: c, ..self }
    }
}

/// One managed object: its header, inline with its payload.  The payload is
/// a sample value together with the object's strong outgoing edges, the edge
/// set that a trace of the object enumerates.  Once the payload has been
/// dropped, `dropped` is true and the edge set is empty.
#[derive(Debug, Clone, PartialEq, Eq)]
pub struct CcBox {
    pub metadata: CcBoxMetaData,
    /// The strong outgoing edges: slab indices of the objects this object
    /// holds a strong handle to.  Weak edges are never recorded here.
    pub children: Vec<CcPtr>,
    /// The payload value proper.
    pub value: u64,
    /// True once the payload has been dropped; no dereference is legal then.
    pub dropped: bool,
}

impl CcBox {
    /// The cell with only its header replaced.
    pub open spec fn with_metadata(self, m: CcBoxMetaData) -> CcBox {
        CcBox { metadata: m, ..self }
    }

    /// The cell with only its header's color replaced.
    pub open spec fn with_color(self, c: Color) -> CcBox {
        self.with_metadata(self.metadata.with_color(c))
    }

    /// The cell with only its header's strong count replaced.
    pub open spec fn with_strong(self, s: usize) -> CcBox {
        self.with_metadata(self.metadata.with_strong(s))
    }

    /// The cell with only its header's weak count replaced.
    pub open spec fn with_weak(self, w: usize) -> CcBox {
        self.with_metadata(self.metadata.with_weak(w))
    }

    /// The cell with only its header's buffered flag replaced.
    pub open spec fn with_buffered(self, b: bool) -> CcBox {
        self.with_metadata(self.metadata.with_buffered(b))
    }
}

/// A strong handle on a managed object.  Owns one unit of the object's
/// strong count.  Created by allocation, cloning (`SyncCycleCollector::
/// increment`) or `Weak::upgrade`; destroyed by `SyncCycleCollector::
/// decrement`, which consumes it.
#[derive(Debug)]
pub struct Cc {
    pub ptr: CcPtr,
}

/// A weak handle on a managed object.  Owns one unit of the object's weak
/// count, additional to the implicit weak held by the strong handles.
/// Dereference is illegal; `upgrade` yields a strong handle iff the object
/// is still live.
#[derive(Debug)]
pub struct Weak {
    pub ptr: CcPtr,
}

impl Cc {
    /// Allocate a managed object holding `value`, with counts (1, 1), color
    /// Black and no outgoing edges, registered with the given collector.
    /// Returns the first strong handle on it.
    pub fn new(value: u64, roots: &mut SyncCycleCollector) -> (c: Cc)
        requires
            old(roots).wf(),
            old(roots).nodes@.len() < usize::MAX,
        ensures
            final(roots).wf(),
            c.ptr == old(roots).nodes@.len(),
            final(roots).nodes@.len() == old(roots).nodes@.len() + 1,
            forall|j: int| 0 <= j < old(roots).nodes@.len()
                ==> final(roots).nodes@[j] == old(roots).nodes@[j],
            final(roots).nodes@[c.ptr as int].metadata == (CcBoxMetaData {
                strong: 1,
                weak: 1,
                buffered: false,
                color: Color::Black,
            }),
            final(roots).nodes@[c.ptr as int].children@.len() == 0,
            final(roots).nodes@[c.ptr as int].value == value,
            !final(roots).nodes@[c.ptr as int].dropped,
            final(roots).roots@ == old(roots).roots@,
    {
        let ptr = roots.nodes.len();
        roots.nodes.push(
            CcBox { metadata: CcBoxMetaData::with(), children: Vec::new(), value, dropped: false },
        );
        proof {
            let nodes0 = old(roots).nodes@;
            let nodes1 = roots.nodes@;
            assert forall|i: int| 0 <= i < nodes1.len() implies crate::collect::node_ok(
                nodes1,
                i,
            ) by {
                if i < nodes0.len() {
                    assert(nodes1[i] == nodes0[i]);
                    assert(crate::collect::node_ok(nodes0, i));
                }
            }
            assert forall|i: int| 0 <= i < nodes1.len()
                && nodes1[i].metadata.buffered implies crate::collect::in_roots(
                roots.roots@,
                i,
            ) by {
                assert(nodes1[i] == nodes0[i]);
            }
        }
        Cc { ptr }
    }

    /// Create a weak handle on the same object: raise the weak count by the
    /// unit the new handle owns.
    pub fn downgrade(&self, cc: &mut SyncCycleCollector) -> (w: Weak)
        requires
            old(cc).wf(),
            (self.ptr as int) < old(cc).nodes@.len(),
            old(cc).nodes@[self.ptr as int].metadata.strong >= 1,
            old(cc).nodes@[self.ptr as int].metadata.weak < usize::MAX,
        ensures
            final(cc).wf(),
            w.ptr == self.ptr,
            final(cc).nodes@ == old(cc).nodes@.update(
                self.ptr as int,
                old(cc).nodes@[self.ptr as int].with_weak(
                    (old(cc).nodes@[self.ptr as int].metadata.weak + 1) as usize,
                ),
            ),
            final(cc).roots@ == old(cc).roots@,
    {
        let m = vstd::std_specs::vec::vec_index_mut(&mut cc.nodes, self.ptr);
        m.metadata.inc_weak();
        proof {
            let nodes0 = old(cc).nodes@;
            let v = nodes0[self.ptr as int].with_weak(
                (nodes0[self.ptr as int].metadata.weak + 1) as usize,
            );
            assert(cc.nodes@ =~= nodes0.update(self.ptr as int, v));
            assert(crate::collect::node_ok(nodes0, self.ptr as int));
            crate::collect::lemma_inv_update(nodes0, self.ptr as int, v);
            crate::collect::lemma_roots_update_same_buffered(
                old(cc).roots@,
                nodes0,
                self.ptr as int,
                v,
            );
        }
        Weak { ptr: self.ptr }
    }

    /// Enumerate the strong outgoing edges of the object this handle
    /// designates, each exactly once — the trace protocol.  Weak edges are
    /// never reported.  The walk is pure: it mutates nothing and may be
    /// repeated within a collection.
    pub fn trace(&self, cc: &SyncCycleCollector) -> (r: Vec<CcPtr>)
        requires
            (self.ptr as int) < cc.nodes@.len(),
        ensures
            r@ == cc.nodes@[self.ptr as int].children@,
    {
        let mut r: Vec<CcPtr> = Vec::new();
        let n = cc.nodes[self.ptr].children.len();
        let mut j: usize = 0;
        while j < n
            invariant
                (self.ptr as int) < cc.nodes@.len(),
                j <= n,
                n == cc.nodes@[self.ptr as int].children@.len(),
                r@ == cc.nodes@[self.ptr as int].children@.subrange(0, j as int),
            decreases n - j,
        {
            r.push(cc.nodes[self.ptr].children[j]);
            proof {
                assert(r@ =~= cc.nodes@[self.ptr as int].children@.subrange(
                    0,
                    j + 1,
                ));
            }
            j = j + 1;
        }
        proof {
            assert(r@ =~= cc.nodes@[self.ptr as int].children@);
        }
        r
    }

    /// Read the payload.  Permitted iff the object is still live
    /// (`strong > 0`); a dereference during collection is a fatal programmer
    /// bug and is excluded by precondition.
    pub fn deref(&self, cc: &SyncCycleCollector) -> (v: u64)
        requires
            (self.ptr as int) < cc.nodes@.len(),
            cc.nodes@[self.ptr as int].metadata.strong >= 1,
        ensures
            v == cc.nodes@[self.ptr as int].value,
    {
        cc.nodes[self.ptr].value
    }
}

impl Weak {
    /// Try to obtain a strong handle on the object.  Yields nothing once the
    /// object's strong count has reached zero; otherwise raises the strong
    /// count and yields a handle.  The color is not touched.
    pub fn upgrade(&self, cc: &mut SyncCycleCollector) -> (r: Option<Cc>)
        requires
            old(cc).wf(),
            (self.ptr as int) < old(cc).nodes@.len(),
            old(cc).nodes@[self.ptr as int].metadata.weak >= 1,
            old(cc).nodes@[self.ptr as int].metadata.strong < usize::MAX,
        ensures
            final(cc).wf(),
            old(cc).nodes@[self.ptr as int].metadata.strong == 0 ==> {
                &&& r is None
                &&& final(cc).nodes@ == old(cc).nodes@
                &&& final(cc).roots@ == old(cc).roots@
            },
            old(cc).nodes@[self.ptr as int].metadata.strong > 0 ==> {
                &&& (r matches Some(c) && c.ptr == self.ptr)
                &&& final(cc).nodes@ == old(cc).nodes@.update(
                    self.ptr as int,
                    old(cc).nodes@[self.ptr as int].with_strong(
                        (old(cc).nodes@[self.ptr as int].metadata.strong + 1) as usize,
                    ),
                )
                &&& final(cc).roots@ == old(cc).roots@
            },
    {
        if cc.nodes[self.ptr].metadata.strong() == 0 {
            None
        } else {
            let m = vstd::std_specs::vec::vec_index_mut(&mut cc.nodes, self.ptr);
            m.metadata.inc_strong();
            proof {
                let nodes0 = old(cc).nodes@;
                let v = nodes0[self.ptr as int].with_strong(
                    (nodes0[self.ptr as int].metadata.strong + 1) as usize,
                );
                assert(cc.nodes@ =~= nodes0.update(self.ptr as int, v));
                assert(crate::collect::node_ok(nodes0, self.ptr as int));
                crate::collect::lemma_inv_update(nodes0, self.ptr as int, v);
                crate::collect::lemma_roots_update_same_buffered(
                    old(cc).roots@,
                    nodes0,
                    self.ptr as int,
                    v,
                );
            }
            Some(Cc { ptr: self.ptr })
        }
    }
}

} // verus!
