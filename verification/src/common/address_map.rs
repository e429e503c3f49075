//! One value for each position of a covered range of addresses.

use vstd::prelude::*;
use super::Address;
use super::coverage::{Coverage, CoverageView};
use crate::error::HeapError;

verus! {

pub struct AddressMap<T: Copy> {
    coverage: Coverage,
    cells: Vec<T>,
}

/// What the map is, as plain values: `cells[i]` is the value of position `i`.
pub struct AddressMapView<T> {
    pub coverage: CoverageView,
    pub cells: Seq<T>,
}

impl<T> AddressMapView<T> {
    pub open spec fn wf(self) -> bool {
        self.coverage.wf() && self.cells.len() == self.coverage.positions()
    }

    /// The value of the position that holds `addr`.
    pub open spec fn at(self, addr: int) -> T {
        self.cells[self.coverage.index_of(addr)]
    }

    /// The map with `value` at the position that holds `addr`.
    pub open spec fn with_value(self, addr: int, value: T) -> AddressMapView<T> {
        AddressMapView {
            coverage: self.coverage,
            cells: self.cells.update(self.coverage.index_of(addr), value),
        }
    }

    /// The map with `value` at every position.
    pub open spec fn filled(self, value: T) -> AddressMapView<T> {
        AddressMapView { coverage: self.coverage, cells: Seq::new(self.cells.len(), |i: int| value) }
    }
}

impl<T: Copy> View for AddressMap<T> {
    type V = AddressMapView<T>;

    closed spec fn view(&self) -> AddressMapView<T> {
        AddressMapView { coverage: self.coverage@, cells: self.cells@ }
    }
}

impl<T: Copy> AddressMap<T> {
    /// A map over `len` bytes from `start`, one value for every
    /// `granularity` bytes, each `init`.
    pub fn new(start: Address, len: usize, granularity: usize, init: T) -> (r: AddressMap<T>)
        requires
            granularity > 0,
            start@ + len <= usize::MAX,
        ensures
            r@.wf(),
            r@.coverage == (CoverageView {
                start: start@,
                len: len as nat,
                granularity: granularity as nat,
            }),
            r@.cells == Seq::new(r@.coverage.positions(), |i: int| init),
    {
        let coverage = Coverage::new(start, len, granularity);
        let n: usize = coverage.positions();
        let mut cells: Vec<T> = Vec::new();
        let mut i: usize = 0;
        while i < n
            invariant
                i <= n,
                cells@.len() == i,
                forall|k: int| 0 <= k < i ==> cells@[k] == init,
            decreases n - i,
        {
            cells.push(init);
            i += 1;
        }
        let r = AddressMap { coverage, cells };
        assert(r@.cells =~= Seq::new(r@.coverage.positions(), |i: int| init));
        r
    }

    pub fn coverage(&self) -> (r: Coverage)
        ensures
            r@ == self@.coverage,
    {
        self.coverage
    }

    /// The number of positions.
    pub fn len(&self) -> (r: usize)
        ensures
            r == self@.cells.len(),
    {
        self.cells.len()
    }

    /// The value of the position that holds `addr`.
    pub fn get(&self, addr: Address) -> (r: Result<T, HeapError>)
        requires
            self@.wf(),
        ensures
            self@.coverage.covers(addr@) ==> r == Ok::<T, HeapError>(self@.at(addr@)),
            !self@.coverage.covers(addr@) ==> r == Err::<T, HeapError>(HeapError::OutOfCoverage),
    {
        match self.coverage.index(addr) {
            Ok(index) => Ok(self.cells[index]),
            Err(e) => Err(e),
        }
    }

    /// Stores `value` at the position that holds `addr`.
    pub fn set(&mut self, addr: Address, value: T) -> (r: Result<(), HeapError>)
        requires
            old(self)@.wf(),
        ensures
            final(self)@.wf(),
            old(self)@.coverage.covers(addr@) ==> r is Ok && final(self)@ == old(self)@.with_value(
                addr@,
                value,
            ),
            !old(self)@.coverage.covers(addr@) ==> r == Err::<(), HeapError>(
                HeapError::OutOfCoverage,
            ) && final(self)@ == old(self)@,
    {
        match self.coverage.index(addr) {
            Ok(index) => {
                self.cells.set(index, value);
                Ok(())
            },
            Err(e) => Err(e),
        }
    }

    /// The value of position `index`.
    pub fn get_at(&self, index: usize) -> (r: T)
        requires
            index < self@.cells.len(),
        ensures
            r == self@.cells[index as int],
    {
        self.cells[index]
    }

    /// Stores `value` at position `index`.
    pub fn set_at(&mut self, index: usize, value: T)
        requires
            index < old(self)@.cells.len(),
        ensures
            final(self)@ == (AddressMapView {
                coverage: old(self)@.coverage,
                cells: old(self)@.cells.update(index as int, value),
            }),
    {
        self.cells.set(index, value);
    }

    /// Stores `value` at every position.
    pub fn init_all(&mut self, value: T)
        ensures
            final(self)@ == old(self)@.filled(value),
    {
        let n: usize = self.cells.len();
        let mut i: usize = 0;
        while i < n
            invariant
                i <= n,
                n == self.cells@.len(),
                self.cells@.len() == old(self).cells@.len(),
                self.coverage == old(self).coverage,
                forall|k: int| 0 <= k < i ==> self.cells@[k] == value,
            decreases n - i,
        {
            self.cells.set(i, value);
            i += 1;
        }
        assert(self@.cells =~= old(self)@.filled(value).cells);
    }
}

} // verus!
