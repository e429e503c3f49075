//! The shared side of the Immix space: the block table, the line table and
//! the mark bits.
//!
//! The space does not own memory. The embedder reserves the range and names
//! its first address; the space decides which block a mutator may use and,
//! after a trace, which lines are free again.

use vstd::prelude::*;
use crate::common::{Address, AddressBitmap, AddressMap, POINTER_SIZE};
use crate::common::coverage::{CoverageView, lemma_positions};
use crate::error::HeapError;
use super::{BlockMark, LineMark, BYTES_IN_BLOCK, BYTES_IN_LINE, LINES_IN_BLOCK, MARKS_IN_LINE};

verus! {

/// A block that a mutator holds: its number and its first address.
#[derive(Copy, Clone, Debug)]
pub struct ImmixBlock {
    index: usize,
    start: Address,
}

impl ImmixBlock {
    pub closed spec fn spec_index(&self) -> nat {
        self.index as nat
    }

    pub closed spec fn spec_start(&self) -> int {
        self.start@
    }

    pub fn index(&self) -> (r: usize)
        ensures
            r == self.spec_index(),
    {
        self.index
    }

    pub fn start(&self) -> (r: Address)
        ensures
            r@ == self.spec_start(),
    {
        self.start
    }
}

/// Whether a mark bit is set for some word of line `line`.
pub open spec fn line_has_mark(marks: Seq<bool>, line: int) -> bool {
    exists|p: int| line * MARKS_IN_LINE <= p < (line + 1) * MARKS_IN_LINE && #[trigger] marks[p]
}

/// The state that a sweep gives line `line`: marked where a marked object
/// starts in it; else conservatively marked where one starts in the line
/// before it in the same block; else free.
pub open spec fn swept_line(marks: Seq<bool>, line: int) -> LineMark {
    if line_has_mark(marks, line) {
        LineMark::Marked
    } else if line % (LINES_IN_BLOCK as int) != 0 && line_has_mark(marks, line - 1) {
        LineMark::ConservativelyMarked
    } else {
        LineMark::Free
    }
}

/// The line table that a sweep derives from the mark bits.
pub open spec fn swept_lines(marks: Seq<bool>, n_lines: nat) -> Seq<LineMark> {
    Seq::new(n_lines, |l: int| swept_line(marks, l))
}

/// Whether some line of block `block` is free.
pub open spec fn block_has_free_line(lines: Seq<LineMark>, block: int) -> bool {
    exists|l: int|
        block * LINES_IN_BLOCK <= l < (block + 1) * LINES_IN_BLOCK && #[trigger] lines[l]
            == LineMark::Free
}

/// Whether every line of block `block` is free.
pub open spec fn block_all_free(lines: Seq<LineMark>, block: int) -> bool {
    forall|l: int|
        block * LINES_IN_BLOCK <= l < (block + 1) * LINES_IN_BLOCK ==> #[trigger] lines[l]
            == LineMark::Free
}

/// The state that a sweep gives block `block`.
pub open spec fn swept_block(lines: Seq<LineMark>, block: int) -> BlockMark {
    if block_all_free(lines, block) {
        BlockMark::Unallocated
    } else if block_has_free_line(lines, block) {
        BlockMark::Usable
    } else {
        BlockMark::Full
    }
}

/// The block table that a sweep derives from the line table.
pub open spec fn swept_blocks(lines: Seq<LineMark>, n_blocks: nat) -> Seq<BlockMark> {
    Seq::new(n_blocks, |b: int| swept_block(lines, b))
}

/// The first line from `from` up to `end` that is not free, or `end` where
/// all of them are free.
pub open spec fn first_used_line(lines: Seq<LineMark>, from: int, end: int) -> int
    decreases end - from,
{
    if from >= end {
        end
    } else if lines[from] != LineMark::Free {
        from
    } else {
        first_used_line(lines, from + 1, end)
    }
}

/// The first used line from `from` is the line before which all lines are
/// free and which is not free itself.
pub(crate) proof fn lemma_first_used_line(lines: Seq<LineMark>, from: int, end: int, line: int)
    requires
        from <= line <= end,
        forall|k: int| from <= k < line ==> #[trigger] lines[k] == LineMark::Free,
        line < end ==> lines[line] != LineMark::Free,
    ensures
        first_used_line(lines, from, end) == line,
    decreases line - from,
{
    if from < line {
        assert(lines[from] == LineMark::Free);
        lemma_first_used_line(lines, from + 1, end, line);
    }
}

/// Whether a mutator may lease a block in this state.
pub open spec fn leasable(mark: BlockMark) -> bool {
    mark == BlockMark::Usable || mark == BlockMark::Unallocated
}

/// Whether a mutator may lease a block in this state.
pub fn is_leasable(mark: BlockMark) -> (r: bool)
    ensures
        r == leasable(mark),
{
    mark == BlockMark::Usable || mark == BlockMark::Unallocated
}

/// What the space is, as plain values.
pub struct ImmixSpaceView {
    /// The first address of the space.
    pub start: int,
    /// The state of each block.
    pub blocks: Seq<BlockMark>,
    /// The state of each line, block after block.
    pub lines: Seq<LineMark>,
    /// The mark bit of each pointer-sized word.
    pub marks: Seq<bool>,
    /// The blocks before this one are not leased again before the next
    /// sweep.
    pub next_block: nat,
    /// The mutator that leased each block since the last sweep.
    pub lessee: Map<int, nat>,
}

impl ImmixSpaceView {
    pub open spec fn n_blocks(self) -> nat {
        self.blocks.len()
    }

    /// The address after the last byte of the space.
    pub open spec fn end(self) -> int {
        self.start + self.n_blocks() * BYTES_IN_BLOCK
    }

    pub open spec fn contains(self, addr: int) -> bool {
        self.start <= addr < self.end()
    }

    /// The block that holds `addr`.
    pub open spec fn block_of(self, addr: int) -> int {
        (addr - self.start) / (BYTES_IN_BLOCK as int)
    }

    /// The line that holds `addr`, counted from the start of the space.
    pub open spec fn line_of(self, addr: int) -> int {
        (addr - self.start) / (BYTES_IN_LINE as int)
    }

    /// The first address of block `block`.
    pub open spec fn block_start(self, block: int) -> int {
        self.start + block * BYTES_IN_BLOCK
    }

    /// The first address of line `line`.
    pub open spec fn line_start(self, line: int) -> int {
        self.start + line * BYTES_IN_LINE
    }

    /// Whether the mark bit of the object at `addr` is set.
    pub open spec fn is_marked(self, addr: int) -> bool {
        self.contains(addr) && self.marks[(addr - self.start) / (POINTER_SIZE as int)]
    }

    /// Whether the `size` bytes from `addr` lie in free lines of one block.
    pub open spec fn range_free(self, addr: int, size: int) -> bool {
        &&& self.contains(addr)
        &&& addr + size <= self.block_start(self.block_of(addr) + 1)
        &&& forall|l: int|
            self.line_of(addr) <= l <= self.line_of(addr + size - 1) ==> #[trigger] self.lines[l]
                == LineMark::Free
    }

    pub open spec fn wf(self) -> bool {
        &&& 0 < self.start
        &&& self.start % (BYTES_IN_BLOCK as int) == 0
        &&& self.end() <= usize::MAX
        &&& self.lines.len() == self.n_blocks() * LINES_IN_BLOCK
        &&& self.marks.len() == self.lines.len() * MARKS_IN_LINE
        &&& self.next_block <= self.n_blocks()
        &&& forall|b: int| (#[trigger] self.lessee.contains_key(b)) ==> 0 <= b < self.next_block
        &&& forall|b: int|
            0 <= b < self.n_blocks() && #[trigger] self.blocks[b]
                == BlockMark::CurrentlyInUseByMutator ==> self.lessee.contains_key(b)
    }

    /// Whether `self` is what the mutator `actor` can have made of `before`
    /// by leasing and returning blocks: the tables of lines and marks are
    /// the same, the lease cursor has not gone back, every lease of
    /// `before` stands, and the blocks that other mutators lease are as
    /// they were.
    pub open spec fn follows(self, before: ImmixSpaceView, actor: nat) -> bool {
        &&& self.start == before.start
        &&& self.n_blocks() == before.n_blocks()
        &&& self.lines == before.lines
        &&& self.marks == before.marks
        &&& before.next_block <= self.next_block
        &&& forall|b: int| #[trigger]
            before.lessee.contains_key(b) ==> self.lessee.contains_key(b) && self.lessee[b]
                == before.lessee[b]
        &&& forall|b: int|
            0 <= b < before.n_blocks() && before.lessee.contains_key(b) && before.lessee[b]
                != actor ==> #[trigger] self.blocks[b] == before.blocks[b]
        &&& forall|b: int|
            self.next_block <= b < self.n_blocks() ==> #[trigger] self.blocks[b]
                == before.blocks[b]
    }

    /// Whether a block at or after `from` can be leased.
    pub open spec fn has_leasable_from(self, from: int) -> bool {
        exists|b: int| from <= b < self.n_blocks() && leasable(#[trigger] self.blocks[b])
    }

    /// The space after block `block` went to mutator `mutator`.
    pub open spec fn leased(self, block: int, mutator: nat) -> ImmixSpaceView {
        ImmixSpaceView {
            blocks: self.blocks.update(block, BlockMark::CurrentlyInUseByMutator),
            next_block: (block + 1) as nat,
            lessee: self.lessee.insert(block, mutator),
            ..self
        }
    }

    /// The state of block `block` once a mutator has given it back: full
    /// where none of its lines is free, usable otherwise.
    pub open spec fn returned_state(self, block: int) -> BlockMark {
        if block_has_free_line(self.lines, block) {
            BlockMark::Usable
        } else {
            BlockMark::Full
        }
    }

    /// The space after a mutator gave block `block` back.
    pub open spec fn returned(self, block: int) -> ImmixSpaceView {
        ImmixSpaceView { blocks: self.blocks.update(block, self.returned_state(block)), ..self }
    }

    /// The space after a mutator gave back the block that it held, if any.
    pub open spec fn given_back(self, held: Option<int>) -> ImmixSpaceView {
        match held {
            None => self,
            Some(b) => self.returned(b),
        }
    }

    /// The end of the run of free lines that holds `addr`: the first
    /// address of the first line after it, within its block, that is not
    /// free, or the end of the block.
    pub open spec fn run_end(self, addr: int) -> int {
        self.line_start(
            first_used_line(
                self.lines,
                self.line_of(addr) + 1,
                (self.block_of(addr) + 1) * LINES_IN_BLOCK,
            ),
        )
    }

    /// The space after the mutator `actor` gave back the block `held` and
    /// then leased and gave back, in turn, each block before `upto` that
    /// could be leased.
    pub open spec fn passed(self, actor: nat, held: Option<int>, upto: int) -> ImmixSpaceView {
        ImmixSpaceView {
            blocks: Seq::new(
                self.blocks.len(),
                |k: int|
                    if held == Some(k) || (self.next_block <= k < upto && leasable(self.blocks[k])) {
                        self.returned_state(k)
                    } else {
                        self.blocks[k]
                    },
            ),
            next_block: if upto < self.next_block {
                self.next_block
            } else {
                upto as nat
            },
            lessee: Map::new(
                |k: int|
                    self.lessee.contains_key(k) || (self.next_block <= k < upto && leasable(
                        self.blocks[k],
                    )),
                |k: int|
                    if self.lessee.contains_key(k) {
                        self.lessee[k]
                    } else {
                        actor
                    },
            ),
            ..self
        }
    }

    /// The space after the mutator `actor`, which held `held`, moved on to
    /// the block `target`: it gave back `held`, passed over the blocks
    /// before `target`, and leased `target`.
    pub open spec fn moved_on(self, actor: nat, held: Option<int>, target: int) -> ImmixSpaceView {
        self.passed(actor, held, target).leased(target, actor)
    }

    /// The space at the start of a collection: every line free, every mark
    /// bit clear.
    pub open spec fn prepared(self) -> ImmixSpaceView {
        ImmixSpaceView {
            lines: Seq::new(self.lines.len(), |l: int| LineMark::Free),
            marks: Seq::new(self.marks.len(), |p: int| false),
            ..self
        }
    }

    /// The space after a sweep: lines and blocks follow the mark bits, and
    /// every block can be leased anew.
    pub open spec fn swept(self) -> ImmixSpaceView {
        ImmixSpaceView {
            start: self.start,
            blocks: swept_blocks(swept_lines(self.marks, self.lines.len()), self.n_blocks()),
            lines: swept_lines(self.marks, self.lines.len()),
            marks: self.marks,
            next_block: 0,
            lessee: Map::empty(),
        }
    }
}

pub struct ImmixSpace {
    start: Address,
    block_states: Vec<BlockMark>,
    line_states: AddressMap<LineMark>,
    trace_map: AddressBitmap,
    next_block: usize,
    lessee: Ghost<Map<int, nat>>,
}

impl View for ImmixSpace {
    type V = ImmixSpaceView;

    closed spec fn view(&self) -> ImmixSpaceView {
        ImmixSpaceView {
            start: self.start@,
            blocks: self.block_states@,
            lines: self.line_states@.cells,
            marks: self.trace_map@.bits,
            next_block: self.next_block as nat,
            lessee: self.lessee@,
        }
    }
}

proof fn lemma_table_sizes(n_blocks: int)
    by (nonlinear_arith)
    requires
        n_blocks >= 0,
    ensures
        (n_blocks * 32768 + 256 - 1) / 256 == n_blocks * 128,
        (n_blocks * 32768 + 8 - 1) / 8 == n_blocks * 128 * 32,
{
}

impl ImmixSpace {
    /// The invariant of the space.
    pub closed spec fn wf(&self) -> bool {
        &&& self@.wf()
        &&& self.trace_map.wf()
        &&& self.line_states@.wf()
        &&& self.line_states@.coverage == (CoverageView {
            start: self.start@,
            len: (self.block_states@.len() * BYTES_IN_BLOCK) as nat,
            granularity: BYTES_IN_LINE as nat,
        })
        &&& self.trace_map@.coverage == (CoverageView {
            start: self.start@,
            len: (self.block_states@.len() * BYTES_IN_BLOCK) as nat,
            granularity: POINTER_SIZE as nat,
        })
    }

    /// A well-formed space has a well-formed view.
    pub proof fn lemma_wf(&self)
        requires
            self.wf(),
        ensures
            self@.wf(),
    {
    }

    /// A space over the whole blocks among the `size` bytes from `start`:
    /// every block unallocated, every line free, no mark bit set.
    pub fn new(start: Address, size: usize) -> (r: ImmixSpace)
        requires
            start@ > 0,
            start@ % (BYTES_IN_BLOCK as int) == 0,
            start@ + size <= usize::MAX,
        ensures
            r.wf(),
            r@.start == start@,
            r@.blocks == Seq::new((size / BYTES_IN_BLOCK) as nat, |b: int| BlockMark::Unallocated),
            r@.lines == Seq::new((r@.n_blocks() * LINES_IN_BLOCK) as nat, |l: int| LineMark::Free),
            r@.marks == Seq::new((r@.lines.len() * MARKS_IN_LINE) as nat, |p: int| false),
            r@.next_block == 0,
            r@.lessee == Map::<int, nat>::empty(),
    {
        let n_blocks: usize = size / BYTES_IN_BLOCK;
        let len: usize = n_blocks * BYTES_IN_BLOCK;
        let mut block_states: Vec<BlockMark> = Vec::new();
        let mut i: usize = 0;
        while i < n_blocks
            invariant
                i <= n_blocks,
                block_states@.len() == i,
                forall|k: int| 0 <= k < i ==> block_states@[k] == BlockMark::Unallocated,
            decreases n_blocks - i,
        {
            block_states.push(BlockMark::Unallocated);
            i += 1;
        }
        let line_states = AddressMap::new(start, len, BYTES_IN_LINE, LineMark::Free);
        let trace_map = AddressBitmap::new(start, len, POINTER_SIZE);
        let r = ImmixSpace {
            start,
            block_states,
            line_states,
            trace_map,
            next_block: 0,
            lessee: Ghost(Map::empty()),
        };
        proof {
            lemma_table_sizes(n_blocks as int);
            r.trace_map.lemma_wf();
            assert(r@.blocks =~= Seq::new(
                (size / BYTES_IN_BLOCK) as nat,
                |b: int| BlockMark::Unallocated,
            ));
            assert(r@.lines =~= Seq::new((r@.n_blocks() * LINES_IN_BLOCK) as nat, |l: int| LineMark::Free));
            assert(r@.marks =~= Seq::new((r@.lines.len() * MARKS_IN_LINE) as nat, |p: int| false));
        }
        r
    }

    pub fn start(&self) -> (r: Address)
        ensures
            r@ == self@.start,
    {
        self.start
    }

    /// The number of blocks.
    pub fn n_blocks(&self) -> (r: usize)
        ensures
            r == self@.n_blocks(),
    {
        self.block_states.len()
    }

    /// The address after the last byte of the space.
    pub fn end(&self) -> (r: Address)
        requires
            self.wf(),
        ensures
            r@ == self@.end(),
    {
        self.start.plus(self.block_states.len() * BYTES_IN_BLOCK)
    }

    /// The state of block `block`.
    pub fn block_state(&self, block: usize) -> (r: BlockMark)
        requires
            block < self@.n_blocks(),
        ensures
            r == self@.blocks[block as int],
    {
        self.block_states[block]
    }

    /// The state of line `line`, counted from the start of the space.
    pub fn line_state(&self, line: usize) -> (r: LineMark)
        requires
            line < self@.lines.len(),
        ensures
            r == self@.lines[line as int],
    {
        self.line_states.get_at(line)
    }

    /// The number of blocks that a mutator may lease, by their state.
    pub fn leasable_blocks(&self) -> (r: usize)
        ensures
            r == self@.blocks.filter(|mark: BlockMark| leasable(mark)).len(),
    {
        let ghost all = self@.blocks;
        let mut count: usize = 0;
        let mut b: usize = 0;
        proof {
            reveal(Seq::filter);
            assert(all.take(0) =~= Seq::<BlockMark>::empty());
        }
        while b < self.block_states.len()
            invariant
                all == self@.blocks,
                b <= all.len(),
                count <= b,
                count == all.take(b as int).filter(|mark: BlockMark| leasable(mark)).len(),
            decreases all.len() - b,
        {
            proof {
                reveal(Seq::filter);
                assert(all.take(b + 1).drop_last() =~= all.take(b as int));
                assert(all.take(b + 1).last() == all[b as int]);
            }
            if is_leasable(self.block_states[b]) {
                count += 1;
            }
            b += 1;
        }
        proof {
            assert(all.take(b as int) =~= all);
        }
        count
    }

    /// Whether `addr` lies in the space.
    pub fn contains(&self, addr: Address) -> (r: bool)
        requires
            self.wf(),
        ensures
            r == self@.contains(addr@),
    {
        let a: usize = addr.as_usize();
        let s: usize = self.start.as_usize();
        a >= s && a - s < self.block_states.len() * BYTES_IN_BLOCK
    }

    /// Whether `block` names a block of this space that a mutator holds.
    pub open spec fn holds(&self, block: &ImmixBlock) -> bool {
        &&& block.spec_index() < self@.n_blocks()
        &&& block.spec_start() == self@.block_start(block.spec_index() as int)
        &&& self@.blocks[block.spec_index() as int] == BlockMark::CurrentlyInUseByMutator
    }

    /// Leases the first block at or after the lease cursor that is usable
    /// or unallocated to the mutator `mutator`, and moves the cursor past
    /// it. Fails with `OutOfBlocks` where there is none; the cursor then
    /// stands at the end of the space.
    pub fn get_next_usable_block(&mut self, mutator: usize) -> (r: Result<ImmixBlock, HeapError>)
        requires
            old(self).wf(),
        ensures
            final(self).wf(),
            match r {
                Ok(block) => {
                    &&& old(self)@.next_block <= block.spec_index() < old(self)@.n_blocks()
                    &&& leasable(old(self)@.blocks[block.spec_index() as int])
                    &&& forall|b: int|
                        old(self)@.next_block <= b < block.spec_index() ==> !leasable(
                            #[trigger] old(self)@.blocks[b],
                        )
                    &&& final(self)@ == old(self)@.leased(block.spec_index() as int, mutator as nat)
                    &&& final(self)@.follows(old(self)@, mutator as nat)
                    &&& final(self).holds(&block)
                },
                Err(e) => {
                    &&& e == HeapError::OutOfBlocks
                    &&& !old(self)@.has_leasable_from(old(self)@.next_block as int)
                    &&& final(self)@ == (ImmixSpaceView {
                        next_block: old(self)@.n_blocks(),
                        ..old(self)@
                    })
                    &&& final(self)@.follows(old(self)@, mutator as nat)
                },
            },
    {
        let n: usize = self.block_states.len();
        let mut b: usize = self.next_block;
        while b < n && !is_leasable(self.block_states[b])
            invariant
                self.next_block <= b <= n,
                n == self.block_states@.len(),
                forall|k: int| self.next_block <= k < b ==> !leasable(#[trigger] self.block_states@[k]),
            decreases n - b,
        {
            b += 1;
        }
        if b >= n {
            self.next_block = n;
            assert(self@.lessee == old(self)@.lessee);
            return Err(HeapError::OutOfBlocks);
        }
        self.block_states.set(b, BlockMark::CurrentlyInUseByMutator);
        self.next_block = b + 1;
        self.lessee = Ghost(self.lessee@.insert(b as int, mutator as nat));
        let start = self.start.plus(b * BYTES_IN_BLOCK);
        proof {
            assert(self@.lessee =~= old(self)@.leased(b as int, mutator as nat).lessee);
        }
        Ok(ImmixBlock { index: b, start })
    }

    /// Whether block `block` has a free line.
    fn has_free_line(&self, block: usize) -> (r: bool)
        requires
            self.wf(),
            block < self@.n_blocks(),
        ensures
            r == block_has_free_line(self@.lines, block as int),
    {
        let first: usize = block * LINES_IN_BLOCK;
        let mut l: usize = 0;
        while l < LINES_IN_BLOCK
            invariant
                self.wf(),
                block < self@.n_blocks(),
                first == block * LINES_IN_BLOCK,
                l <= LINES_IN_BLOCK,
                forall|k: int| first <= k < first + l ==> #[trigger] self@.lines[k] != LineMark::Free,
            decreases LINES_IN_BLOCK - l,
        {
            if self.line_states.get_at(first + l) == LineMark::Free {
                return true;
            }
            l += 1;
        }
        false
    }

    /// Takes back a block from the mutator that held it: the block is full
    /// where none of its lines is free, and usable otherwise.
    pub fn return_used_block(&mut self, block: ImmixBlock)
        requires
            old(self).wf(),
            old(self).holds(&block),
        ensures
            final(self).wf(),
            final(self)@ == old(self)@.returned(block.spec_index() as int),
    {
        let state = if self.has_free_line(block.index) {
            BlockMark::Usable
        } else {
            BlockMark::Full
        };
        self.block_states.set(block.index, state);
    }

    /// The first free line of `block` at or after line `hint`, counted
    /// within the block.
    pub fn get_next_available_line(&self, block: &ImmixBlock, hint: usize) -> (r: Option<usize>)
        requires
            self.wf(),
            block.spec_index() < self@.n_blocks(),
        ensures
            match r {
                Some(l) => {
                    &&& hint <= l < LINES_IN_BLOCK
                    &&& self@.lines[block.spec_index() * LINES_IN_BLOCK + l] == LineMark::Free
                    &&& forall|k: int|
                        hint <= k < l ==> #[trigger] self@.lines[block.spec_index() * LINES_IN_BLOCK
                            + k] != LineMark::Free
                },
                None => forall|k: int|
                    hint <= k < LINES_IN_BLOCK ==> #[trigger] self@.lines[block.spec_index()
                        * LINES_IN_BLOCK + k] != LineMark::Free,
            },
    {
        let first: usize = block.index * LINES_IN_BLOCK;
        let mut l: usize = hint;
        while l < LINES_IN_BLOCK
            invariant
                self.wf(),
                block.spec_index() < self@.n_blocks(),
                first == block.spec_index() * LINES_IN_BLOCK,
                hint <= l,
                forall|k: int|
                    hint <= k < l && k < LINES_IN_BLOCK ==> #[trigger] self@.lines[first + k]
                        != LineMark::Free,
            decreases LINES_IN_BLOCK - l,
        {
            if self.line_states.get_at(first + l) == LineMark::Free {
                return Some(l);
            }
            l += 1;
        }
        None
    }

    /// The first line of `block` at or after line `hint` that is not free,
    /// or the number of lines in a block where all of them are free.
    pub fn get_next_unavailable_line(&self, block: &ImmixBlock, hint: usize) -> (r: usize)
        requires
            self.wf(),
            block.spec_index() < self@.n_blocks(),
            hint <= LINES_IN_BLOCK,
        ensures
            hint <= r <= LINES_IN_BLOCK,
            forall|k: int|
                hint <= k < r ==> #[trigger] self@.lines[block.spec_index() * LINES_IN_BLOCK + k]
                    == LineMark::Free,
            r < LINES_IN_BLOCK ==> self@.lines[block.spec_index() * LINES_IN_BLOCK + r]
                != LineMark::Free,
    {
        let first: usize = block.index * LINES_IN_BLOCK;
        let mut l: usize = hint;
        while l < LINES_IN_BLOCK
            invariant
                self.wf(),
                block.spec_index() < self@.n_blocks(),
                first == block.spec_index() * LINES_IN_BLOCK,
                hint <= l <= LINES_IN_BLOCK,
                forall|k: int| hint <= k < l ==> #[trigger] self@.lines[first + k] == LineMark::Free,
            decreases LINES_IN_BLOCK - l,
        {
            if self.line_states.get_at(first + l) != LineMark::Free {
                return l;
            }
            l += 1;
        }
        l
    }

    /// Starts a collection: every line becomes free and every mark bit is
    /// cleared. The block states stay as they are.
    pub fn prepare_for_gc(&mut self)
        requires
            old(self).wf(),
        ensures
            final(self).wf(),
            final(self)@ == old(self)@.prepared(),
    {
        self.line_states.init_all(LineMark::Free);
        self.trace_map.clear_all();
        proof {
            self.trace_map.lemma_wf();
            assert(self@.lessee == old(self)@.lessee);
        }
    }

    /// Sets the mark bit of the object at `obj` and tells whether this call
    /// set it. Fails with `OutOfCoverage`, and changes nothing, where `obj`
    /// lies outside the space.
    pub fn mark_object(&mut self, obj: Address) -> (r: Result<bool, HeapError>)
        requires
            old(self).wf(),
        ensures
            final(self).wf(),
            old(self)@.contains(obj@) ==> {
                &&& r == Ok::<bool, HeapError>(!old(self)@.is_marked(obj@))
                &&& final(self)@ == (ImmixSpaceView {
                    marks: old(self)@.marks.update(
                        (obj@ - old(self)@.start) / (POINTER_SIZE as int),
                        true,
                    ),
                    ..old(self)@
                })
                &&& final(self)@.is_marked(obj@)
            },
            !old(self)@.contains(obj@) ==> {
                &&& r == Err::<bool, HeapError>(HeapError::OutOfCoverage)
                &&& final(self)@ == old(self)@
            },
    {
        proof {
            self.trace_map.lemma_wf();
            lemma_positions(self.trace_map@.coverage);
        }
        let r = self.trace_map.test_and_set(obj);
        proof {
            self.trace_map.lemma_wf();
        }
        r
    }

    /// Whether the mark bit of the object at `obj` is set. No bit is set
    /// for an address outside the space.
    pub fn test_mark(&self, obj: Address) -> (r: bool)
        requires
            self.wf(),
        ensures
            r == self@.is_marked(obj@),
    {
        match self.trace_map.test_bit(obj) {
            Ok(bit) => bit,
            Err(_) => false,
        }
    }

    /// Whether a mark bit is set for some word of line `line`.
    fn line_marked(&self, line: usize) -> (r: bool)
        requires
            self.wf(),
            line < self@.lines.len(),
        ensures
            r == line_has_mark(self@.marks, line as int),
    {
        proof {
            self.trace_map.lemma_wf();
            lemma_positions(self.trace_map@.coverage);
        }
        let offset: usize = line * BYTES_IN_LINE;
        let from = self.start.plus(offset);
        assert(self.trace_map@.coverage.index_of(from@) == line * MARKS_IN_LINE);
        match self.trace_map.next_set(from) {
            Ok(Some(a)) => {
                let within = a.as_usize() - self.start.as_usize() < offset + BYTES_IN_LINE;
                proof {
                    let c = self.trace_map@.coverage;
                    let bits = self.trace_map@.bits;
                    let i = choose|i: int|
                        {
                            &&& c.index_of(from@) <= i < bits.len()
                            &&& a@ == #[trigger] c.address_of(i)
                            &&& bits[i]
                            &&& forall|j: int| c.index_of(from@) <= j < i ==> !bits[j]
                        };
                    if within {
                        assert(line * MARKS_IN_LINE <= i < (line + 1) * MARKS_IN_LINE);
                        assert(self@.marks[i]);
                    } else {
                        assert(i >= (line + 1) * MARKS_IN_LINE);
                        assert(!line_has_mark(self@.marks, line as int));
                    }
                }
                within
            },
            Ok(None) => false,
            Err(_) => false,
        }
    }

    /// Ends a collection: each line takes the state that the mark bits give
    /// it, each block the state that its lines give it, and every block can
    /// be leased anew. A lease that a mutator still holds ends here.
    pub fn sweep(&mut self)
        requires
            old(self).wf(),
        ensures
            final(self).wf(),
            final(self)@ == old(self)@.swept(),
    {
        let n: usize = self.block_states.len();
        let ghost marks = self@.marks;
        let ghost n_lines = self@.lines.len();
        let ghost target = swept_lines(marks, n_lines);
        let mut b: usize = 0;
        while b < n
            invariant
                self.wf(),
                b <= n,
                n == self.block_states@.len(),
                self@.start == old(self)@.start,
                self@.lessee == old(self)@.lessee,
                self@.next_block == old(self)@.next_block,
                self@.marks == marks,
                self@.lines.len() == n_lines,
                n_lines == n * LINES_IN_BLOCK,
                target == swept_lines(marks, n_lines),
                forall|l: int| 0 <= l < b * LINES_IN_BLOCK ==> #[trigger] self@.lines[l] == target[l],
                forall|k: int| 0 <= k < b ==> #[trigger] self@.blocks[k] == swept_block(target, k),
                forall|k: int| b <= k < n ==> #[trigger] self@.blocks[k] == old(self)@.blocks[k],
            decreases n - b,
        {
            let first: usize = b * LINES_IN_BLOCK;
            let mut all_free: bool = true;
            let mut any_free: bool = false;
            let mut before_marked: bool = false;
            let mut l: usize = 0;
            while l < LINES_IN_BLOCK
                invariant
                    self.wf(),
                    b < n,
                    n == self.block_states@.len(),
                    first == b * LINES_IN_BLOCK,
                    l <= LINES_IN_BLOCK,
                    self@.start == old(self)@.start,
                    self@.lessee == old(self)@.lessee,
                    self@.next_block == old(self)@.next_block,
                    self@.marks == marks,
                    self@.lines.len() == n_lines,
                    n_lines == n * LINES_IN_BLOCK,
                    target == swept_lines(marks, n_lines),
                    forall|k: int| 0 <= k < first + l ==> #[trigger] self@.lines[k] == target[k],
                    forall|k: int| 0 <= k < b ==> #[trigger] self@.blocks[k] == swept_block(target, k),
                    forall|k: int| b <= k < n ==> #[trigger] self@.blocks[k] == old(self)@.blocks[k],
                    l > 0 ==> before_marked == line_has_mark(marks, first + l - 1),
                    all_free == (forall|k: int|
                        first <= k < first + l ==> #[trigger] target[k] == LineMark::Free),
                    any_free == (exists|k: int|
                        first <= k < first + l && #[trigger] target[k] == LineMark::Free),
                decreases LINES_IN_BLOCK - l,
            {
                let line: usize = first + l;
                let marked = self.line_marked(line);
                let state = if marked {
                    LineMark::Marked
                } else if l != 0 && before_marked {
                    LineMark::ConservativelyMarked
                } else {
                    LineMark::Free
                };
                proof {
                    assert(l != 0 <==> (line as int) % (LINES_IN_BLOCK as int) != 0);
                    assert(state == target[line as int]);
                }
                self.line_states.set_at(line, state);
                if state == LineMark::Free {
                    any_free = true;
                } else {
                    all_free = false;
                }
                before_marked = marked;
                l += 1;
            }
            let state = if all_free {
                BlockMark::Unallocated
            } else if any_free {
                BlockMark::Usable
            } else {
                BlockMark::Full
            };
            proof {
                assert(all_free == block_all_free(target, b as int));
                assert(any_free == block_has_free_line(target, b as int));
            }
            self.block_states.set(b, state);
            b += 1;
        }
        self.next_block = 0;
        self.lessee = Ghost(Map::empty());
        proof {
            assert(self@.lines =~= target);
            assert(self@.blocks =~= swept_blocks(target, n as nat));
        }
    }
}

} // verus!
