//! The header and handle interface of the concurrent collector variant.  The
//! variant shares the synchronous collector's header contract: strong and
//! weak counts, buffered flag and color, plus the cyclic reference count
//! (`crc`) that its sigma-computation maintains.

use vstd::prelude::*;
use crate::Color;
use crate::concurrent_collect::ParCycleCollector;

verus! {

/// A non-owning pointer to a cell managed by the concurrent variant: the
/// index of the cell in its collector's slab.
pub type AccPtr = usize;

/// A trait that informs the cycle collector how to find memory that is owned
/// by a managed instance: the enumeration of the instance's strong outgoing
/// edges.  Failing to report every owned edge can lead to leaking cycles;
/// weak edges must not be reported.
pub trait Atrace {
    /// Enumerate the strong outgoing edges of this instance, each exactly
    /// once.
    fn trace(&self, cc: &ParCycleCollector) -> Vec<AccPtr>;
}

/// The per-object header of the concurrent variant.  In that variant every
/// field is read and written under a per-header lock; within one serialized
/// access the fields behave exactly as below.
#[derive(Debug, Clone, Copy, PartialEq, Eq, Structural)]
pub struct AccBoxMetaData {
    /// Count of live strong handles.
    pub strong: usize,
    /// Count of live weak handles plus the implicit weak.
    pub weak: usize,
    /// True iff the cell sits in the collector's cycle buffer.
    pub buffered: bool,
    /// Trial-deletion color.
    pub color: Color,
    /// Cyclic reference count, maintained only by the collector itself.
    pub crc: usize,
}

impl AccBoxMetaData {
    /// A fresh header: counts (1, 1), not buffered, Black, crc zero.
    pub fn with() -> (m: AccBoxMetaData)
        ensures
            m.strong == 1,
            m.weak == 1,
            !m.buffered,
            m.color == Color::Black,
            m.crc == 0,
    {
        AccBoxMetaData { strong: 1, weak: 1, buffered: false, color: Color::Black, crc: 0 }
    }

    /// Restart the cyclic reference count from the strong count, at the
    /// opening of a sigma-computation.
    pub fn update_crc(&mut self) -> (r: usize)
        ensures
            *final(self) == old(self).with_crc(old(self).strong),
            r == old(self).strong,
    {
        self.crc = self.strong;
        self.crc
    }

    /// The current cyclic reference count.
    pub fn crc(&self) -> (r: usize)
        ensures
            r == self.crc,
    {
        self.crc
    }

    /// Decrement the cyclic reference count; underflow is a fatal programmer
    /// bug and is excluded by precondition.
    pub fn dec_crc(&mut self)
        requires
            old(self).crc >= 1,
        ensures
            *final(self) == old(self).with_crc((old(self).crc - 1) as usize),
    {
        self.crc = self.crc - 1;
    }

    /// Increment the cyclic reference count; overflow is fatal and excluded.
    pub fn inc_crc(&mut self)
        requires
            old(self).crc < usize::MAX,
        ensures
            *final(self) == old(self).with_crc((old(self).crc + 1) as usize),
    {
        self.crc = self.crc + 1;
    }

    /// The header with only its cyclic reference count replaced.
    pub open spec fn with_crc(self, c: usize) -> AccBoxMetaData {
        AccBoxMetaData { crc: c, ..self }
    }

    /// The header with only its strong count replaced.
    pub open spec fn with_strong(self, s: usize) -> AccBoxMetaData {
        AccBoxMetaData { strong: s, ..self }
    }

    /// The header with only its color replaced.
    pub open spec fn with_color(self, c: Color) -> AccBoxMetaData {
        AccBoxMetaData { color: c, ..self }
    }
}

/// One cell managed by the concurrent variant: its header and its strong
/// outgoing edges.
#[derive(Debug, Clone, PartialEq, Eq)]
pub struct AccBox {
    pub metadata: AccBoxMetaData,
    pub children: Vec<AccPtr>,
}

impl AccBox {
    /// The cell with only its header replaced.
    pub open spec fn with_metadata(self, m: AccBoxMetaData) -> AccBox {
        AccBox { metadata: m, ..self }
    }
}

/// The read-only view a handle of the concurrent variant offers on the cell
/// it designates.
pub trait AccBoxPtr: Atrace {
    /// The pointer this handle wraps, in spec form.
    spec fn id(&self) -> AccPtr;

    /// Get this handle's pointer.
    fn get_ptr(&self) -> (r: AccPtr)
        ensures
            r == self.id(),
    ;

    /// Borrow the header of the cell this handle designates.
    fn metadata<'a>(&self, cc: &'a ParCycleCollector) -> (r: &'a AccBoxMetaData)
        requires
            self.id() < cc.nodes@.len(),
        ensures
            *r == cc.nodes@[self.id() as int].metadata,
    ;
}

} // verus!
