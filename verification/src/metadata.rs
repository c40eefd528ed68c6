//! The header interface shared by the synchronous and the concurrent
//! collector variants, and the dispatching header that holds either kind.

use vstd::prelude::*;
use crate::{AccBoxMetaData, CcBoxMetaData, Color};
use crate::collect::SyncOrConcurrent;

verus! {

/// Everything a collector asks of a per-object header: the four shared
/// fields, their mutations, and whether accesses are serialized by a lock
/// (the concurrent variant) or not (the synchronous one).
pub trait MetaData {
    /// The strong count, in spec form.
    spec fn strong_spec(&self) -> usize;

    /// The weak count, in spec form.
    spec fn weak_spec(&self) -> usize;

    /// The buffered flag, in spec form.
    spec fn buffered_spec(&self) -> bool;

    /// The color, in spec form.
    spec fn color_spec(&self) -> Color;

    /// Is this the lock-protected header of the concurrent variant?
    spec fn is_atomic_spec(&self) -> bool;

    fn strong(&self) -> (r: usize)
        ensures
            r == self.strong_spec(),
    ;

    fn weak(&self) -> (r: usize)
        ensures
            r == self.weak_spec(),
    ;

    fn buffered(&self) -> (r: bool)
        ensures
            r == self.buffered_spec(),
    ;

    fn color(&self) -> (r: Color)
        ensures
            r == self.color_spec(),
    ;

    /// Increment the strong count and return the new value; overflow is a
    /// fatal programmer bug and is excluded by precondition.
    fn inc_strong(&mut self) -> (r: usize)
        requires
            old(self).strong_spec() < usize::MAX,
        ensures
            final(self).strong_spec() == old(self).strong_spec() + 1,
            r == final(self).strong_spec(),
            final(self).weak_spec() == old(self).weak_spec(),
            final(self).buffered_spec() == old(self).buffered_spec(),
            final(self).color_spec() == old(self).color_spec(),
            final(self).is_atomic_spec() == old(self).is_atomic_spec(),
    ;

    /// Decrement the strong count and return the new value; underflow is
    /// fatal and excluded.
    fn dec_strong(&mut self) -> (r: usize)
        requires
            old(self).strong_spec() >= 1,
        ensures
            final(self).strong_spec() == old(self).strong_spec() - 1,
            r == final(self).strong_spec(),
            final(self).weak_spec() == old(self).weak_spec(),
            final(self).buffered_spec() == old(self).buffered_spec(),
            final(self).color_spec() == old(self).color_spec(),
            final(self).is_atomic_spec() == old(self).is_atomic_spec(),
    ;

    /// Increment the weak count and return the new value; overflow is fatal
    /// and excluded.
    fn inc_weak(&mut self) -> (r: usize)
        requires
            old(self).weak_spec() < usize::MAX,
        ensures
            final(self).weak_spec() == old(self).weak_spec() + 1,
            r == final(self).weak_spec(),
            final(self).strong_spec() == old(self).strong_spec(),
            final(self).buffered_spec() == old(self).buffered_spec(),
            final(self).color_spec() == old(self).color_spec(),
            final(self).is_atomic_spec() == old(self).is_atomic_spec(),
    ;

    /// Decrement the weak count and return the new value; underflow is
    /// fatal and excluded.
    fn dec_weak(&mut self) -> (r: usize)
        requires
            old(self).weak_spec() >= 1,
        ensures
            final(self).weak_spec() == old(self).weak_spec() - 1,
            r == final(self).weak_spec(),
            final(self).strong_spec() == old(self).strong_spec(),
            final(self).buffered_spec() == old(self).buffered_spec(),
            final(self).color_spec() == old(self).color_spec(),
            final(self).is_atomic_spec() == old(self).is_atomic_spec(),
    ;

    fn set_buffered(&mut self, new: bool)
        ensures
            final(self).buffered_spec() == new,
            final(self).strong_spec() == old(self).strong_spec(),
            final(self).weak_spec() == old(self).weak_spec(),
            final(self).color_spec() == old(self).color_spec(),
            final(self).is_atomic_spec() == old(self).is_atomic_spec(),
    ;

    fn set_color(&mut self, new: Color)
        ensures
            final(self).color_spec() == new,
            final(self).strong_spec() == old(self).strong_spec(),
            final(self).weak_spec() == old(self).weak_spec(),
            final(self).buffered_spec() == old(self).buffered_spec(),
            final(self).is_atomic_spec() == old(self).is_atomic_spec(),
    ;

    fn is_atomic(&self) -> (r: bool)
        ensures
            r == self.is_atomic_spec(),
    ;
}

/// A header of either collector variant.
#[derive(Debug, Clone, Copy, PartialEq, Eq, Structural)]
pub enum BoxMetaData {
    CcBoxMetaData(CcBoxMetaData),
    AccBoxMetaData(AccBoxMetaData),
}

impl BoxMetaData {
    /// A fresh header of the kind matching the given collector: counts
    /// (1, 1), not buffered, Black.
    pub fn with(root: &SyncOrConcurrent) -> (m: BoxMetaData)
        ensures
            m.strong_spec() == 1,
            m.weak_spec() == 1,
            !m.buffered_spec(),
            m.color_spec() == Color::Black,
            m.is_atomic_spec() == (root is concurrent_cc),
    {
        match root {
            SyncOrConcurrent::sync_cc(_) => BoxMetaData::CcBoxMetaData(CcBoxMetaData::with()),
            SyncOrConcurrent::concurrent_cc(_) => BoxMetaData::AccBoxMetaData(
                AccBoxMetaData::with(),
            ),
        }
    }
}

impl MetaData for CcBoxMetaData {
    open spec fn strong_spec(&self) -> usize {
        self.strong
    }

    open spec fn weak_spec(&self) -> usize {
        self.weak
    }

    open spec fn buffered_spec(&self) -> bool {
        self.buffered
    }

    open spec fn color_spec(&self) -> Color {
        self.color
    }

    open spec fn is_atomic_spec(&self) -> bool {
        false
    }

    fn strong(&self) -> usize {
        self.strong
    }

    fn weak(&self) -> usize {
        self.weak
    }

    fn buffered(&self) -> bool {
        self.buffered
    }

    fn color(&self) -> Color {
        self.color
    }

    fn inc_strong(&mut self) -> usize {
        self.strong = self.strong + 1;
        self.strong
    }

    fn dec_strong(&mut self) -> usize {
        self.strong = self.strong - 1;
        self.strong
    }

    fn inc_weak(&mut self) -> usize {
        self.weak = self.weak + 1;
        self.weak
    }

    fn dec_weak(&mut self) -> usize {
        self.weak = self.weak - 1;
        self.weak
    }

    fn set_buffered(&mut self, new: bool) {
        self.buffered = new;
    }

    fn set_color(&mut self, new: Color) {
        self.color = new;
    }

    fn is_atomic(&self) -> bool {
        false
    }
}

impl MetaData for AccBoxMetaData {
    open spec fn strong_spec(&self) -> usize {
        self.strong
    }

    open spec fn weak_spec(&self) -> usize {
        self.weak
    }

    open spec fn buffered_spec(&self) -> bool {
        self.buffered
    }

    open spec fn color_spec(&self) -> Color {
        self.color
    }

    open spec fn is_atomic_spec(&self) -> bool {
        true
    }

    fn strong(&self) -> usize {
        self.strong
    }

    fn weak(&self) -> usize {
        self.weak
    }

    fn buffered(&self) -> bool {
        self.buffered
    }

    fn color(&self) -> Color {
        self.color
    }

    fn inc_strong(&mut self) -> usize {
        self.strong = self.strong + 1;
        self.strong
    }

    fn dec_strong(&mut self) -> usize {
        self.strong = self.strong - 1;
        self.strong
    }

    fn inc_weak(&mut self) -> usize {
        self.weak = self.weak + 1;
        self.weak
    }

    fn dec_weak(&mut self) -> usize {
        self.weak = self.weak - 1;
        self.weak
    }

    fn set_buffered(&mut self, new: bool) {
        self.buffered = new;
    }

    fn set_color(&mut self, new: Color) {
        self.color = new;
    }

    fn is_atomic(&self) -> bool {
        true
    }
}

impl MetaData for BoxMetaData {
    open spec fn strong_spec(&self) -> usize {
        match self {
            BoxMetaData::CcBoxMetaData(m) => m.strong,
            BoxMetaData::AccBoxMetaData(m) => m.strong,
        }
    }

    open spec fn weak_spec(&self) -> usize {
        match self {
            BoxMetaData::CcBoxMetaData(m) => m.weak,
            BoxMetaData::AccBoxMetaData(m) => m.weak,
        }
    }

    open spec fn buffered_spec(&self) -> bool {
        match self {
            BoxMetaData::CcBoxMetaData(m) => m.buffered,
            BoxMetaData::AccBoxMetaData(m) => m.buffered,
        }
    }

    open spec fn color_spec(&self) -> Color {
        match self {
            BoxMetaData::CcBoxMetaData(m) => m.color,
            BoxMetaData::AccBoxMetaData(m) => m.color,
        }
    }

    open spec fn is_atomic_spec(&self) -> bool {
        self is AccBoxMetaData
    }

    fn strong(&self) -> usize {
        match self {
            BoxMetaData::CcBoxMetaData(m) => m.strong(),
            BoxMetaData::AccBoxMetaData(m) => MetaData::strong(m),
        }
    }

    fn weak(&self) -> usize {
        match self {
            BoxMetaData::CcBoxMetaData(m) => m.weak(),
            BoxMetaData::AccBoxMetaData(m) => MetaData::weak(m),
        }
    }

    fn buffered(&self) -> bool {
        match self {
            BoxMetaData::CcBoxMetaData(m) => m.buffered(),
            BoxMetaData::AccBoxMetaData(m) => MetaData::buffered(m),
        }
    }

    fn color(&self) -> Color {
        match self {
            BoxMetaData::CcBoxMetaData(m) => m.color(),
            BoxMetaData::AccBoxMetaData(m) => MetaData::color(m),
        }
    }

    fn inc_strong(&mut self) -> usize {
        match self {
            BoxMetaData::CcBoxMetaData(m) => m.inc_strong(),
            BoxMetaData::AccBoxMetaData(m) => MetaData::inc_strong(m),
        }
    }

    fn dec_strong(&mut self) -> usize {
        match self {
            BoxMetaData::CcBoxMetaData(m) => m.dec_strong(),
            BoxMetaData::AccBoxMetaData(m) => MetaData::dec_strong(m),
        }
    }

    fn inc_weak(&mut self) -> usize {
        match self {
            BoxMetaData::CcBoxMetaData(m) => m.inc_weak(),
            BoxMetaData::AccBoxMetaData(m) => MetaData::inc_weak(m),
        }
    }

    fn dec_weak(&mut self) -> usize {
        match self {
            BoxMetaData::CcBoxMetaData(m) => m.dec_weak(),
            BoxMetaData::AccBoxMetaData(m) => MetaData::dec_weak(m),
        }
    }

    fn set_buffered(&mut self, new: bool) {
        match self {
            BoxMetaData::CcBoxMetaData(m) => m.set_buffered(new),
            BoxMetaData::AccBoxMetaData(m) => MetaData::set_buffered(m, new),
        }
    }

    fn set_color(&mut self, new: Color) {
        match self {
            BoxMetaData::CcBoxMetaData(m) => m.set_color(new),
            BoxMetaData::AccBoxMetaData(m) => MetaData::set_color(m, new),
        }
    }

    fn is_atomic(&self) -> bool {
        match self {
            BoxMetaData::CcBoxMetaData(m) => m.is_atomic(),
            BoxMetaData::AccBoxMetaData(m) => MetaData::is_atomic(m),
        }
    }
}

} // verus!
