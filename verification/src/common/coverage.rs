//! The part of the address space that a table covers, cut into positions of
//! equal width.

use vstd::prelude::*;
use super::Address;
use crate::error::HeapError;

verus! {

/// A range of `len` bytes from `start`, cut into positions of `granularity`
/// bytes each; the last position may be cut short.
#[derive(Copy, Clone, Debug)]
pub struct Coverage {
    start: Address,
    len: usize,
    granularity: usize,
}

/// What a coverage is, as plain values.
pub struct CoverageView {
    pub start: int,
    pub len: nat,
    pub granularity: nat,
}

impl CoverageView {
    pub open spec fn wf(self) -> bool {
        &&& self.granularity > 0
        &&& 0 <= self.start
        &&& self.start + self.len <= usize::MAX
    }

    /// Whether `addr` lies in the range.
    pub open spec fn covers(self, addr: int) -> bool {
        self.start <= addr < self.start + self.len
    }

    /// The position that holds `addr`.
    pub open spec fn index_of(self, addr: int) -> int {
        (addr - self.start) / (self.granularity as int)
    }

    /// The number of positions.
    pub open spec fn positions(self) -> nat {
        ((self.len + self.granularity - 1) / (self.granularity as int)) as nat
    }

    /// The first address of position `index`.
    pub open spec fn address_of(self, index: int) -> int {
        self.start + index * self.granularity
    }
}

/// A covered address has a position, and each position starts at a covered
/// address that it holds.
pub proof fn lemma_positions(c: CoverageView)
    requires
        c.wf(),
    ensures
        forall|addr: int| #[trigger] c.covers(addr) ==> 0 <= c.index_of(addr) < c.positions(),
        forall|i: int|
            0 <= i < c.positions() ==> c.covers(#[trigger] c.address_of(i)) && c.index_of(
                c.address_of(i),
            ) == i,
        c.positions() <= c.len,
{
    let g = c.granularity as int;
    let len = c.len as int;
    assert forall|addr: int| #[trigger] c.covers(addr) implies 0 <= c.index_of(addr)
        < c.positions() by {
        lemma_index_in_range(addr - c.start, len, g);
    }
    assert forall|i: int| 0 <= i < c.positions() implies c.covers(#[trigger] c.address_of(i))
        && c.index_of(c.address_of(i)) == i by {
        lemma_position_start(i, len, g);
    }
    lemma_count_bound(len, g);
}

proof fn lemma_index_in_range(off: int, len: int, g: int)
    by (nonlinear_arith)
    requires
        0 <= off < len,
        g > 0,
    ensures
        0 <= off / g < (len + g - 1) / g,
{
}

proof fn lemma_position_start(i: int, len: int, g: int)
    by (nonlinear_arith)
    requires
        0 <= i < (len + g - 1) / g,
        g > 0,
        len >= 0,
    ensures
        0 <= i * g < len,
        (i * g) / g == i,
{
}

proof fn lemma_count_bound(len: int, g: int)
    by (nonlinear_arith)
    requires
        g > 0,
        len >= 0,
    ensures
        0 <= (len + g - 1) / g <= len,
{
}

impl View for Coverage {
    type V = CoverageView;

    closed spec fn view(&self) -> CoverageView {
        CoverageView {
            start: self.start@,
            len: self.len as nat,
            granularity: self.granularity as nat,
        }
    }
}

impl Coverage {
    pub fn new(start: Address, len: usize, granularity: usize) -> (r: Coverage)
        requires
            granularity > 0,
            start@ + len <= usize::MAX,
        ensures
            r@.wf(),
            r@ == (CoverageView { start: start@, len: len as nat, granularity: granularity as nat }),
    {
        proof {
            start.lemma_view_range();
        }
        Coverage { start, len, granularity }
    }

    pub fn start(&self) -> (r: Address)
        ensures
            r@ == self@.start,
    {
        self.start
    }

    pub fn len(&self) -> (r: usize)
        ensures
            r == self@.len,
    {
        self.len
    }

    pub fn granularity(&self) -> (r: usize)
        ensures
            r == self@.granularity,
    {
        self.granularity
    }

    /// The number of positions.
    pub fn positions(&self) -> (r: usize)
        requires
            self@.wf(),
        ensures
            r == self@.positions(),
    {
        let whole: usize = self.len / self.granularity;
        let part: usize = if self.len % self.granularity != 0 { 1 } else { 0 };
        proof {
            lemma_count_split(self.len as int, self.granularity as int);
            lemma_count_bound(self.len as int, self.granularity as int);
        }
        whole + part
    }

    pub fn covers(&self, addr: Address) -> (r: bool)
        requires
            self@.wf(),
        ensures
            r == self@.covers(addr@),
    {
        let a: usize = addr.as_usize();
        let s: usize = self.start.as_usize();
        a >= s && a - s < self.len
    }

    /// The position that holds `addr`, or `OutOfCoverage` where the range
    /// does not hold it.
    pub fn index(&self, addr: Address) -> (r: Result<usize, HeapError>)
        requires
            self@.wf(),
        ensures
            self@.covers(addr@) ==> r == Ok::<usize, HeapError>(self@.index_of(addr@) as usize)
                && self@.index_of(addr@) < self@.positions(),
            !self@.covers(addr@) ==> r == Err::<usize, HeapError>(HeapError::OutOfCoverage),
    {
        if !self.covers(addr) {
            return Err(HeapError::OutOfCoverage);
        }
        proof {
            lemma_positions(self@);
        }
        Ok((addr.as_usize() - self.start.as_usize()) / self.granularity)
    }

    /// The first address of position `index`.
    pub fn address_of(&self, index: usize) -> (r: Address)
        requires
            self@.wf(),
            index < self@.positions(),
        ensures
            r@ == self@.address_of(index as int),
            self@.covers(r@),
    {
        proof {
            lemma_positions(self@);
            assert(self@.covers(self@.address_of(index as int)));
        }
        self.start.plus(index * self.granularity)
    }
}

proof fn lemma_count_split(len: int, g: int)
    by (nonlinear_arith)
    requires
        g > 0,
        len >= 0,
    ensures
        (len + g - 1) / g == len / g + (if len % g != 0 { 1int } else { 0int }),
{
}

} // verus!
