//! One bit for each position of a covered range of addresses.

use vstd::prelude::*;
use super::Address;
use super::bitmap::Bitmap;
use super::coverage::{Coverage, CoverageView};
use crate::error::HeapError;

verus! {

pub struct AddressBitmap {
    coverage: Coverage,
    bitmap: Bitmap,
}

/// What the bitmap is, as plain values: `bits[i]` is the bit of position `i`.
pub struct AddressBitmapView {
    pub coverage: CoverageView,
    pub bits: Seq<bool>,
}

impl AddressBitmapView {
    pub open spec fn wf(self) -> bool {
        self.coverage.wf() && self.bits.len() == self.coverage.positions()
    }

    /// Whether the bit of the position that holds `addr` is set. No bit is
    /// set for an address outside the range.
    pub open spec fn is_set(self, addr: int) -> bool {
        self.coverage.covers(addr) && self.bits[self.coverage.index_of(addr)]
    }

    /// The bitmap with the bit for `addr` set to `value`.
    pub open spec fn with_bit(self, addr: int, value: bool) -> AddressBitmapView {
        AddressBitmapView {
            coverage: self.coverage,
            bits: self.bits.update(self.coverage.index_of(addr), value),
        }
    }

    /// The bitmap with every bit clear.
    pub open spec fn cleared(self) -> AddressBitmapView {
        AddressBitmapView {
            coverage: self.coverage,
            bits: Seq::new(self.bits.len(), |i: int| false),
        }
    }
}

impl View for AddressBitmap {
    type V = AddressBitmapView;

    closed spec fn view(&self) -> AddressBitmapView {
        AddressBitmapView { coverage: self.coverage@, bits: self.bitmap@ }
    }
}

impl AddressBitmap {
    /// The invariant of the bitmap.
    pub closed spec fn wf(&self) -> bool {
        self@.wf() && self.bitmap.wf()
    }

    /// A well-formed bitmap has a well-formed view.
    pub proof fn lemma_wf(&self)
        requires
            self.wf(),
        ensures
            self@.wf(),
    {
    }

    /// A bitmap over `len` bytes from `start`, one bit for every
    /// `granularity` bytes, all clear.
    pub fn new(start: Address, len: usize, granularity: usize) -> (r: AddressBitmap)
        requires
            granularity > 0,
            start@ + len <= usize::MAX,
        ensures
            r.wf(),
            r@.coverage == (CoverageView {
                start: start@,
                len: len as nat,
                granularity: granularity as nat,
            }),
            r@.bits == Seq::new(r@.coverage.positions(), |i: int| false),
    {
        let coverage = Coverage::new(start, len, granularity);
        let bitmap = Bitmap::new(coverage.positions());
        AddressBitmap { coverage, bitmap }
    }

    pub fn coverage(&self) -> (r: Coverage)
        ensures
            r@ == self@.coverage,
    {
        self.coverage
    }

    /// Sets the bit for `addr`.
    pub fn set_bit(&mut self, addr: Address) -> (r: Result<(), HeapError>)
        requires
            old(self).wf(),
        ensures
            final(self).wf(),
            old(self)@.coverage.covers(addr@) ==> r is Ok && final(self)@ == old(self)@.with_bit(
                addr@,
                true,
            ),
            !old(self)@.coverage.covers(addr@) ==> r == Err::<(), HeapError>(
                HeapError::OutOfCoverage,
            ) && final(self)@ == old(self)@,
    {
        match self.coverage.index(addr) {
            Ok(index) => {
                self.bitmap.set_bit(index);
                Ok(())
            },
            Err(e) => Err(e),
        }
    }

    /// Clears the bit for `addr`.
    pub fn clear_bit(&mut self, addr: Address) -> (r: Result<(), HeapError>)
        requires
            old(self).wf(),
        ensures
            final(self).wf(),
            old(self)@.coverage.covers(addr@) ==> r is Ok && final(self)@ == old(self)@.with_bit(
                addr@,
                false,
            ),
            !old(self)@.coverage.covers(addr@) ==> r == Err::<(), HeapError>(
                HeapError::OutOfCoverage,
            ) && final(self)@ == old(self)@,
    {
        match self.coverage.index(addr) {
            Ok(index) => {
                self.bitmap.clear_bit(index);
                Ok(())
            },
            Err(e) => Err(e),
        }
    }

    /// Reads the bit for `addr`.
    pub fn test_bit(&self, addr: Address) -> (r: Result<bool, HeapError>)
        requires
            self.wf(),
        ensures
            self@.coverage.covers(addr@) ==> r == Ok::<bool, HeapError>(self@.is_set(addr@)),
            !self@.coverage.covers(addr@) ==> r == Err::<bool, HeapError>(HeapError::OutOfCoverage),
    {
        match self.coverage.index(addr) {
            Ok(index) => Ok(self.bitmap.test_bit(index)),
            Err(e) => Err(e),
        }
    }

    /// Sets the bit for `addr` and tells whether this call set it: `true`
    /// where the bit was clear before.
    pub fn test_and_set(&mut self, addr: Address) -> (r: Result<bool, HeapError>)
        requires
            old(self).wf(),
        ensures
            final(self).wf(),
            old(self)@.coverage.covers(addr@) ==> r == Ok::<bool, HeapError>(
                !old(self)@.is_set(addr@),
            ) && final(self)@ == old(self)@.with_bit(addr@, true),
            !old(self)@.coverage.covers(addr@) ==> r == Err::<bool, HeapError>(
                HeapError::OutOfCoverage,
            ) && final(self)@ == old(self)@,
    {
        match self.coverage.index(addr) {
            Ok(index) => {
                let was_set = self.bitmap.test_bit(index);
                if !was_set {
                    self.bitmap.set_bit(index);
                } else {
                    assert(self@.bits =~= old(self)@.bits.update(index as int, true));
                }
                Ok(!was_set)
            },
            Err(e) => Err(e),
        }
    }

    /// Clears every bit.
    pub fn clear_all(&mut self)
        requires
            old(self).wf(),
        ensures
            final(self).wf(),
            final(self)@ == old(self)@.cleared(),
    {
        self.bitmap.clear_all();
    }

    /// The first address of the first position at or after the one that
    /// holds `from` whose bit is set, if there is one.
    pub fn next_set(&self, from: Address) -> (r: Result<Option<Address>, HeapError>)
        requires
            self.wf(),
        ensures
            !self@.coverage.covers(from@) ==> r == Err::<Option<Address>, HeapError>(
                HeapError::OutOfCoverage,
            ),
            self@.coverage.covers(from@) ==> match r {
                Ok(Some(a)) => exists|i: int|
                    {
                        &&& self@.coverage.index_of(from@) <= i < self@.bits.len()
                        &&& a@ == #[trigger] self@.coverage.address_of(i)
                        &&& self@.bits[i]
                        &&& forall|j: int| self@.coverage.index_of(from@) <= j < i ==> !self@.bits[j]
                    },
                Ok(None) => forall|j: int|
                    self@.coverage.index_of(from@) <= j < self@.bits.len() ==> !self@.bits[j],
                Err(_) => false,
            },
    {
        match self.coverage.index(from) {
            Ok(index) => {
                match self.bitmap.next_set_bit(index) {
                    Some(i) => {
                        let a = self.coverage.address_of(i);
                        Ok(Some(a))
                    },
                    None => Ok(None),
                }
            },
            Err(e) => Err(e),
        }
    }
}

} // verus!
