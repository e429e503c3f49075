//! The thread-local side of the Immix space: a mutator holds one block at a
//! time and allocates in its free lines by bumping a cursor.

use vstd::prelude::*;
use vstd::arithmetic::power2::is_pow2;
use crate::common::{Address, align_up_spec};
use crate::error::HeapError;
use super::{BlockMark, LineMark, BYTES_IN_BLOCK, BYTES_IN_LINE, LINES_IN_BLOCK, MAX_IMMIX_OBJECT};
use super::immix_space::{
    block_all_free,
    lemma_first_used_line,
    leasable,
    ImmixBlock,
    ImmixSpace,
    ImmixSpaceView,
};

verus! {

/// Where a mutator stands towards a collection.
#[derive(PartialEq, Eq, Copy, Clone, Debug, Structural)]
pub enum MutatorState {
    /// The mutator runs its program.
    Running,
    /// The collector has asked the mutator to stop at its next yieldpoint.
    YieldRequested,
    /// The mutator has stopped and waits for the collection to end.
    Parked,
}

/// The addresses of the `size` bytes from `addr`.
pub open spec fn byte_range(addr: int, size: int) -> Set<int> {
    Set::new(|x: int| addr <= x < addr + size)
}

/// What a mutator is, as plain values.
pub struct MutatorView {
    pub id: nat,
    /// The number of the block that the mutator holds.
    pub block: Option<int>,
    /// The next byte to hand out.
    pub cursor: int,
    /// The end of the free lines that the cursor runs in.
    pub limit: int,
    /// The line of the held block at which `limit` stands.
    pub line: nat,
    pub state: MutatorState,
    /// The bytes handed out since the last collection.
    pub allocated: Set<int>,
}

impl MutatorView {
    /// The invariant that ties a mutator to the space it allocates in.
    pub open spec fn wf(self, space: ImmixSpaceView) -> bool {
        &&& match self.block {
            None => self.cursor == self.limit,
            Some(b) => {
                &&& 0 <= b < space.n_blocks()
                &&& space.blocks[b] == BlockMark::CurrentlyInUseByMutator
                &&& space.lessee.contains_key(b)
                &&& space.lessee[b] == self.id
                &&& space.block_start(b) <= self.cursor <= self.limit
                &&& self.line <= LINES_IN_BLOCK
                &&& self.limit == space.line_start(b * LINES_IN_BLOCK + self.line)
                &&& forall|l: int|
                    space.line_of(self.cursor) <= l < b * LINES_IN_BLOCK + self.line
                        ==> #[trigger] space.lines[l] == LineMark::Free
                &&& self.cursor < self.limit && self.line < LINES_IN_BLOCK ==> space.lines[b
                    * LINES_IN_BLOCK + self.line] != LineMark::Free
            },
        }
        &&& forall|x: int| #[trigger]
            self.allocated.contains(x) ==> {
                &&& space.contains(x)
                &&& space.lessee.contains_key(space.block_of(x))
                &&& space.lessee[space.block_of(x)] == self.id
                &&& self.block == Some(space.block_of(x)) ==> x < self.cursor
            }
    }

    /// The mutator after it has learnt that the collector asks for a stop:
    /// a running mutator will stop at its next yieldpoint.
    pub open spec fn yield_requested(self) -> MutatorView {
        MutatorView {
            state: if self.state == MutatorState::Running {
                MutatorState::YieldRequested
            } else {
                self.state
            },
            ..self
        }
    }

    /// The mutator after it gave its block back: it holds none, and its
    /// cursor and limit are null.
    pub open spec fn without_block(self) -> MutatorView {
        MutatorView { block: None, cursor: 0, limit: 0, line: 0, ..self }
    }

    /// The mutator after it got ready for a collection: it holds no block
    /// and has forgotten what it handed out.
    pub open spec fn prepared(self) -> MutatorView {
        MutatorView { allocated: Set::empty(), ..self.without_block() }
    }

    /// The mutator after it took the `size` bytes at `addr` from free
    /// lines of the space: it holds the block of `addr`, its cursor stands
    /// after the bytes, and its limit at the end of the run of free lines
    /// that holds them.
    pub open spec fn after_alloc(self, space: ImmixSpaceView, addr: int, size: int) -> MutatorView {
        MutatorView {
            block: Some(space.block_of(addr)),
            cursor: addr + size,
            limit: space.run_end(addr),
            line: ((space.run_end(addr) - space.block_start(space.block_of(addr))) / (
            BYTES_IN_LINE as int)) as nat,
            allocated: self.allocated.union(byte_range(addr, size)),
            ..self
        }
    }

    /// The space after this mutator took bytes at `addr`: as it was where
    /// `addr` lies in the block that the mutator held, and else after the
    /// mutator has moved on to the block of `addr`.
    pub open spec fn space_after_alloc(self, space: ImmixSpaceView, addr: int) -> ImmixSpaceView {
        if self.block == Some(space.block_of(addr)) {
            space
        } else {
            space.moved_on(self.id, self.block, space.block_of(addr))
        }
    }

    /// The mutator after the slow path of a yieldpoint: ready for the
    /// collection, and parked.
    pub open spec fn parked(self) -> MutatorView {
        MutatorView { state: MutatorState::Parked, ..self.prepared() }
    }

    /// The mutator after the collection has ended: a parked mutator runs
    /// again.
    pub open spec fn resumed(self) -> MutatorView {
        MutatorView {
            state: if self.state == MutatorState::Parked {
                MutatorState::Running
            } else {
                self.state
            },
            ..self
        }
    }

    /// Whether the `size` bytes from `addr` are a place for an object that
    /// the mutator can reach without a collection: aligned, in free lines of
    /// one block, and either in the held block at or after `from`, or in a
    /// block that the space can still lease.
    pub open spec fn fits(self, space: ImmixSpaceView, from: int, addr: int, size: int, align: int) -> bool {
        &&& addr % align == 0
        &&& space.range_free(addr, size)
        &&& {
            ||| self.block == Some(space.block_of(addr)) && from <= addr
            ||| space.next_block <= space.block_of(addr) && leasable(
                space.blocks[space.block_of(addr)],
            )
        }
    }

    /// Whether `addr` is the lowest place that fits.
    pub open spec fn first_fit(self, space: ImmixSpaceView, from: int, addr: int, size: int, align: int) -> bool {
        &&& self.fits(space, from, addr, size, align)
        &&& forall|other: int| #[trigger]
            self.fits(space, from, other, size, align) ==> addr <= other
    }

    /// Whether no place fits.
    pub open spec fn no_fit(self, space: ImmixSpaceView, from: int, size: int, align: int) -> bool {
        forall|other: int| !#[trigger] self.fits(space, from, other, size, align)
    }
}

/// Whether the `size` bytes from `addr` are an aligned place in free lines
/// of block `block`, at or after `from`.
pub open spec fn block_fit(
    space: ImmixSpaceView,
    block: int,
    from: int,
    addr: int,
    size: int,
    align: int,
) -> bool {
    &&& addr % align == 0
    &&& space.range_free(addr, size)
    &&& space.block_of(addr) == block
    &&& from <= addr
}

/// No object can start in lines that are not free.
proof fn lemma_no_fit_in_used_lines(
    space: ImmixSpaceView,
    block: int,
    lo: int,
    hi: int,
    addr: int,
    size: int,
)
    requires
        space.wf(),
        0 <= block < space.n_blocks(),
        0 <= lo <= hi <= LINES_IN_BLOCK,
        forall|k: int| lo <= k < hi ==> #[trigger] space.lines[block * LINES_IN_BLOCK + k] != LineMark::Free,
        space.line_start(block * LINES_IN_BLOCK + lo) <= addr < space.line_start(
            block * LINES_IN_BLOCK + hi,
        ),
        size > 0,
    ensures
        !space.range_free(addr, size),
{
    let j = space.line_of(addr);
    let k = j - block * LINES_IN_BLOCK;
    assert(lo <= k < hi);
    assert(space.lines[block * LINES_IN_BLOCK + k] != LineMark::Free);
    assert(space.line_of(addr) <= j <= space.line_of(addr + size - 1));
}

/// No object that passes the end of a run of free lines lies in free lines
/// of one block.
proof fn lemma_no_fit_past_run(
    space: ImmixSpaceView,
    block: int,
    end: int,
    addr: int,
    size: int,
)
    requires
        space.wf(),
        0 <= block < space.n_blocks(),
        0 <= end <= LINES_IN_BLOCK,
        end < LINES_IN_BLOCK ==> space.lines[block * LINES_IN_BLOCK + end] != LineMark::Free,
        space.block_start(block) <= addr < space.line_start(block * LINES_IN_BLOCK + end),
        addr + size > space.line_start(block * LINES_IN_BLOCK + end),
    ensures
        !space.range_free(addr, size),
{
    if end < LINES_IN_BLOCK {
        let j = block * LINES_IN_BLOCK + end;
        assert(space.line_of(addr) <= j <= space.line_of(addr + size - 1));
    } else {
        assert(space.block_of(addr) == block);
    }
}

/// An object within a run of free lines lies in free lines of one block.
proof fn lemma_fit_in_run(
    space: ImmixSpaceView,
    block: int,
    first: int,
    end: int,
    addr: int,
    size: int,
)
    requires
        space.wf(),
        0 <= block < space.n_blocks(),
        0 <= first < end <= LINES_IN_BLOCK,
        forall|k: int| first <= k < end ==> #[trigger] space.lines[block * LINES_IN_BLOCK + k] == LineMark::Free,
        space.line_start(block * LINES_IN_BLOCK + first) <= addr,
        addr + size <= space.line_start(block * LINES_IN_BLOCK + end),
        size > 0,
    ensures
        space.range_free(addr, size),
        space.block_of(addr) == block,
        forall|x: int| addr <= x < addr + size ==> space.block_of(x) == block && space.contains(x),
{
    assert forall|l: int| space.line_of(addr) <= l <= space.line_of(addr + size - 1) implies #[trigger] space.lines[l]
        == LineMark::Free by {
        let k = l - block * LINES_IN_BLOCK;
        assert(first <= k < end);
        assert(space.lines[block * LINES_IN_BLOCK + k] == LineMark::Free);
    }
    assert(space.n_blocks() * BYTES_IN_BLOCK >= (block + 1) * BYTES_IN_BLOCK) by (nonlinear_arith)
        requires
            0 <= block < space.n_blocks(),
    ;
}

/// Following is transitive: what one mutator makes of a space in two steps,
/// it makes of it in one.
pub proof fn lemma_follows_trans(
    first: ImmixSpaceView,
    second: ImmixSpaceView,
    third: ImmixSpaceView,
    actor: nat,
)
    requires
        second.follows(first, actor),
        third.follows(second, actor),
    ensures
        third.follows(first, actor),
{
    assert forall|b: int| #[trigger] first.lessee.contains_key(b) implies third.lessee.contains_key(
        b,
    ) && third.lessee[b] == first.lessee[b] by {
        assert(second.lessee.contains_key(b));
    }
    assert forall|b: int|
        0 <= b < first.n_blocks() && first.lessee.contains_key(b) && first.lessee[b]
            != actor implies #[trigger] third.blocks[b] == first.blocks[b] by {
        assert(second.lessee.contains_key(b));
        assert(second.blocks[b] == first.blocks[b]);
    }
    assert forall|b: int| third.next_block <= b < third.n_blocks() implies #[trigger] third.blocks[b]
        == first.blocks[b] by {
        assert(second.blocks[b] == first.blocks[b]);
    }
}

/// Giving back the held block is the start of passing over blocks.
proof fn lemma_passed_start(space: ImmixSpaceView, actor: nat, held: Option<int>)
    requires
        space.wf(),
        held matches Some(b) ==> 0 <= b < space.n_blocks(),
    ensures
        space.given_back(held) == space.passed(actor, held, space.next_block as int),
{
    let a = space.given_back(held);
    let b = space.passed(actor, held, space.next_block as int);
    assert(a.blocks =~= b.blocks);
    assert(a.lessee =~= b.lessee);
}

/// Leasing the next block that can be leased goes on from what was passed.
proof fn lemma_passed_lease(
    space: ImmixSpaceView,
    actor: nat,
    held: Option<int>,
    now: ImmixSpaceView,
    target: int,
)
    requires
        space.wf(),
        now == space.passed(actor, held, now.next_block as int),
        space.next_block <= now.next_block <= target < space.n_blocks(),
        forall|b: int| now.next_block <= b < target ==> !leasable(#[trigger] now.blocks[b]),
        held matches Some(b) ==> 0 <= b < space.next_block,
    ensures
        now.leased(target, actor) == space.moved_on(actor, held, target),
        now.blocks[target] == space.blocks[target],
{
    let a = now.leased(target, actor);
    let p = space.passed(actor, held, target);
    assert(now.blocks =~= p.blocks) by {
        assert forall|k: int| 0 <= k < now.blocks.len() implies now.blocks[k] == p.blocks[k] by {
            if now.next_block <= k < target {
                assert(!leasable(now.blocks[k]));
            }
        }
    }
    assert(now.lessee =~= p.lessee) by {
        assert forall|k: int| now.lessee.contains_key(k) == p.lessee.contains_key(k) by {
            if now.next_block <= k < target {
                assert(!leasable(now.blocks[k]));
            }
        }
    }
    assert(a.blocks =~= space.moved_on(actor, held, target).blocks);
    assert(a.lessee =~= space.moved_on(actor, held, target).lessee);
}

/// Giving the leased block back makes it one of the blocks passed over.
proof fn lemma_passed_return(space: ImmixSpaceView, actor: nat, held: Option<int>, target: int)
    requires
        space.wf(),
        space.next_block <= target < space.n_blocks(),
        leasable(space.blocks[target]),
        held matches Some(b) ==> 0 <= b < space.next_block,
    ensures
        space.moved_on(actor, held, target).returned(target) == space.passed(
            actor,
            held,
            target + 1,
        ),
{
    let a = space.moved_on(actor, held, target).returned(target);
    let b = space.passed(actor, held, target + 1);
    assert(a.blocks =~= b.blocks);
    assert(a.lessee =~= b.lessee) by {
        assert forall|k: int| a.lessee.contains_key(k) implies #[trigger] a.lessee[k] == b.lessee[k] by {
            if k == target {
                assert(!space.lessee.contains_key(k));
            }
        }
    }
}

/// Where no block can be leased any more, all the rest is passed over.
proof fn lemma_passed_rest(
    space: ImmixSpaceView,
    actor: nat,
    held: Option<int>,
    upto: int,
    now: ImmixSpaceView,
)
    requires
        space.wf(),
        space.next_block <= upto <= space.n_blocks(),
        now == space.passed(actor, held, upto),
        !now.has_leasable_from(upto),
        held matches Some(b) ==> 0 <= b < space.next_block,
    ensures
        (ImmixSpaceView { next_block: space.n_blocks(), ..now }) == space.passed(
            actor,
            held,
            space.n_blocks() as int,
        ),
{
    let a = ImmixSpaceView { next_block: space.n_blocks(), ..now };
    let b = space.passed(actor, held, space.n_blocks() as int);
    assert forall|k: int| upto <= k < space.n_blocks() implies !leasable(space.blocks[k]) by {
        if leasable(space.blocks[k]) {
            assert(now.blocks[k] == space.blocks[k]);
            assert(leasable(now.blocks[k]));
        }
    }
    assert(a.blocks =~= b.blocks);
    assert(a.lessee =~= b.lessee);
}

/// The lowest place in the held block is the lowest place of all: every
/// block that the space can still lease lies above the held block.
proof fn lemma_first_fit_in_held(
    m: MutatorView,
    space: ImmixSpaceView,
    from: int,
    addr: int,
    size: int,
    align: int,
)
    requires
        m.wf(space),
        space.wf(),
        m.block is Some,
        size > 0,
        block_fit(space, m.block->0, from, addr, size, align),
        forall|other: int| #[trigger]
            block_fit(space, m.block->0, from, other, size, align) ==> addr <= other,
    ensures
        m.first_fit(space, from, addr, size, align),
{
    let idx = m.block->0;
    assert forall|other: int| #[trigger] m.fits(space, from, other, size, align) implies addr
        <= other by {
        if m.block == Some(space.block_of(other)) && from <= other {
            assert(block_fit(space, idx, from, other, size, align));
        } else {
            assert(space.next_block <= space.block_of(other));
            assert(idx < space.next_block);
        }
    }
}

/// Where the bump misses, nothing fits between the cursor and the limit.
proof fn lemma_bump_miss(m: MutatorView, space: ImmixSpaceView, other: int, size: int, align: int)
    requires
        m.wf(space),
        space.wf(),
        size > 0,
        align > 0,
        align_up_spec(m.cursor, align) + size > m.limit,
        m.fits(space, m.cursor, other, size, align),
    ensures
        m.fits(space, m.limit, other, size, align),
{
    if m.block == Some(space.block_of(other)) && m.cursor <= other && other < m.limit {
        let idx = m.block->0;
        crate::common::lemma_align_up_least(m.cursor, align, other);
        lemma_no_fit_past_run(space, idx, m.line as int, other, size);
    }
}

/// While the space can lease a block whose lines are all free, every
/// request that the Immix space takes fits: at the start of that block, if
/// nowhere before.
pub proof fn lemma_free_block_fits(
    m: MutatorView,
    space: ImmixSpaceView,
    block: int,
    from: int,
    size: usize,
    align: usize,
)
    requires
        space.wf(),
        space.next_block <= block < space.n_blocks(),
        leasable(space.blocks[block]),
        block_all_free(space.lines, block),
        0 < size <= MAX_IMMIX_OBJECT,
        is_pow2(align as int),
        align <= BYTES_IN_BLOCK,
    ensures
        m.fits(space, from, space.block_start(block), size as int, align as int),
        !m.no_fit(space, from, size as int, align as int),
{
    let addr = space.block_start(block);
    assert(is_pow2(BYTES_IN_BLOCK as int)) by {
        reveal_with_fuel(is_pow2, 17);
    }
    crate::common::lemma_pow2_divides(align, BYTES_IN_BLOCK);
    crate::common::lemma_pow2_single_bit(align);
    assert(addr % (align as int) == 0) by {
        let blocks = space.start / (BYTES_IN_BLOCK as int) + block;
        let per = (BYTES_IN_BLOCK / align) as int;
        assert(addr == (blocks * per) * (align as int)) by (nonlinear_arith)
            requires
                addr == space.start + block * 32768,
                space.start % 32768 == 0,
                blocks == space.start / 32768 + block,
                32768int % (align as int) == 0,
                per == 32768int / (align as int),
                align > 0,
        ;
        vstd::arithmetic::div_mod::lemma_mod_multiples_basic(blocks * per, align as int);
    }
    assert(space.n_blocks() * BYTES_IN_BLOCK >= (block + 1) * BYTES_IN_BLOCK) by (nonlinear_arith)
        requires
            0 <= block < space.n_blocks(),
    ;
    assert(space.block_of(addr) == block);
    assert forall|l: int|
        space.line_of(addr) <= l <= space.line_of(addr + size - 1) implies #[trigger] space.lines[l]
        == LineMark::Free by {}
    assert(m.fits(space, from, addr, size as int, align as int));
}

/// Two mutators of one space have handed out no byte in common.
pub proof fn lemma_mutators_disjoint(a: MutatorView, b: MutatorView, space: ImmixSpaceView)
    requires
        a.wf(space),
        b.wf(space),
        a.id != b.id,
    ensures
        a.allocated.disjoint(b.allocated),
{
}

/// What another mutator does to the space leaves this mutator well formed.
pub proof fn lemma_frame(m: MutatorView, before: ImmixSpaceView, after: ImmixSpaceView, actor: nat)
    requires
        m.wf(before),
        before.wf(),
        after.follows(before, actor),
        actor != m.id,
    ensures
        m.wf(after),
{
    assert forall|x: int| #[trigger] m.allocated.contains(x) implies {
        &&& after.contains(x)
        &&& after.lessee.contains_key(after.block_of(x))
        &&& after.lessee[after.block_of(x)] == m.id
        &&& m.block == Some(after.block_of(x)) ==> x < m.cursor
    } by {
        assert(before.lessee.contains_key(before.block_of(x)));
    }
}

pub struct ImmixMutatorLocal {
    id: usize,
    block: Option<ImmixBlock>,
    cursor: Address,
    limit: Address,
    line: usize,
    state: MutatorState,
    allocated: Ghost<Set<int>>,
}

impl View for ImmixMutatorLocal {
    type V = MutatorView;

    closed spec fn view(&self) -> MutatorView {
        MutatorView {
            id: self.id as nat,
            block: match self.block {
                None => None,
                Some(b) => Some(b.spec_index() as int),
            },
            cursor: self.cursor@,
            limit: self.limit@,
            line: self.line as nat,
            state: self.state,
            allocated: self.allocated@,
        }
    }
}

impl ImmixMutatorLocal {
    /// The invariant that ties the mutator to its space.
    pub closed spec fn wf(&self, space: &ImmixSpace) -> bool {
        &&& self@.wf(space@)
        &&& match self.block {
            None => true,
            Some(b) => b.spec_start() == space@.block_start(b.spec_index() as int),
        }
    }

    /// A well-formed mutator has a well-formed view.
    pub proof fn lemma_wf(&self, space: &ImmixSpace)
        requires
            self.wf(space),
        ensures
            self@.wf(space@),
    {
    }

    /// A mutator named `id` that holds no block and runs.
    pub fn new(id: usize) -> (r: ImmixMutatorLocal)
        ensures
            r@ == (MutatorView {
                id: id as nat,
                block: None,
                cursor: 0,
                limit: 0,
                line: 0,
                state: MutatorState::Running,
                allocated: Set::empty(),
            }),
            forall|space: &ImmixSpace| #[trigger] r.wf(space),
    {
        ImmixMutatorLocal {
            id,
            block: None,
            cursor: Address::zero(),
            limit: Address::zero(),
            line: 0,
            state: MutatorState::Running,
            allocated: Ghost(Set::empty()),
        }
    }

    pub fn id(&self) -> (r: usize)
        ensures
            r == self@.id,
    {
        self.id
    }

    pub fn state(&self) -> (r: MutatorState)
        ensures
            r == self@.state,
    {
        self.state
    }

    /// Whether the mutator holds a block.
    pub fn has_block(&self) -> (r: bool)
        ensures
            r == self@.block is Some,
    {
        self.block.is_some()
    }

    /// Gives the held block, if there is one, back to the space.
    fn return_block(&mut self, space: &mut ImmixSpace)
        requires
            old(self).wf(old(space)),
            old(space).wf(),
        ensures
            final(self).wf(final(space)),
            final(space).wf(),
            final(self)@ == old(self)@.without_block(),
            final(space)@ == old(space)@.given_back(old(self)@.block),
            final(space)@.follows(old(space)@, old(self)@.id),
    {
        proof {
            space.lemma_wf();
        }
        match self.block {
            Some(block) => {
                space.return_used_block(block);
            },
            None => {},
        }
        self.block = None;
        self.cursor = Address::zero();
        self.limit = Address::zero();
        self.line = 0;
        assert(self@.allocated == old(self)@.allocated);
    }

    /// Looks in the held block, from the line at which the limit stands,
    /// for the first run of free lines that takes `size` bytes at `align`,
    /// and hands out its first aligned bytes.
    fn scan_block(&mut self, space: &ImmixSpace, size: usize, align: usize) -> (r: Option<Address>)
        requires
            old(self).wf(space),
            space.wf(),
            old(self)@.block is Some,
            0 < size <= MAX_IMMIX_OBJECT,
            is_pow2(align as int),
        ensures
            final(self).wf(space),
            final(self)@.id == old(self)@.id,
            final(self)@.state == old(self)@.state,
            final(self)@.block == old(self)@.block,
            match r {
                Some(a) => {
                    &&& block_fit(
                        space@,
                        old(self)@.block->0,
                        old(self)@.limit,
                        a@,
                        size as int,
                        align as int,
                    )
                    &&& forall|other: int| #[trigger]
                        block_fit(
                            space@,
                            old(self)@.block->0,
                            old(self)@.limit,
                            other,
                            size as int,
                            align as int,
                        ) ==> a@ <= other
                    &&& final(self)@.allocated == old(self)@.allocated.union(
                        byte_range(a@, size as int),
                    )
                    &&& old(self)@.allocated.disjoint(byte_range(a@, size as int))
                    &&& final(self)@ == old(self)@.after_alloc(space@, a@, size as int)
                },
                None => {
                    &&& forall|other: int|
                        !#[trigger] block_fit(
                            space@,
                            old(self)@.block->0,
                            old(self)@.limit,
                            other,
                            size as int,
                            align as int,
                        )
                    &&& final(self)@.allocated == old(self)@.allocated
                },
            },
    {
        let block = match self.block {
            Some(b) => b,
            None => {
                return None;
            },
        };
        proof {
            space.lemma_wf();
        }
        let ghost v = space@;
        let ghost idx = block.spec_index() as int;
        let ghost base = idx * LINES_IN_BLOCK;
        let ghost from = self@.limit;
        let block_start: usize = block.start().as_usize();
        assert(block_start + BYTES_IN_BLOCK <= usize::MAX) by {
            assert(v.n_blocks() * BYTES_IN_BLOCK >= (idx + 1) * BYTES_IN_BLOCK) by (nonlinear_arith)
                requires
                    0 <= idx < v.n_blocks(),
            ;
        }
        let mut l: usize = self.line;
        while l < LINES_IN_BLOCK
            invariant
                space.wf(),
                v == space@,
                v.wf(),
                *self == *old(self),
                self.wf(space),
                self.block == Some(block),
                idx == block.spec_index(),
                0 <= idx < v.n_blocks(),
                base == idx * LINES_IN_BLOCK,
                block_start == v.block_start(idx),
                block_start + BYTES_IN_BLOCK <= usize::MAX,
                from == old(self)@.limit,
                old(self)@.line <= l <= LINES_IN_BLOCK,
                0 < size <= MAX_IMMIX_OBJECT,
                is_pow2(align as int),
                forall|other: int| #[trigger]
                    block_fit(v, idx, from, other, size as int, align as int) ==> v.line_start(
                        base + l,
                    ) <= other,
            decreases LINES_IN_BLOCK - l,
        {
            match space.get_next_available_line(&block, l) {
                None => {
                    proof {
                        assert forall|other: int| #[trigger]
                            block_fit(v, idx, from, other, size as int, align as int) implies v.line_start(
                            base + LINES_IN_BLOCK,
                        ) <= other by {
                            if other < v.line_start(base + LINES_IN_BLOCK) {
                                lemma_no_fit_in_used_lines(
                                    v,
                                    idx,
                                    l as int,
                                    LINES_IN_BLOCK as int,
                                    other,
                                    size as int,
                                );
                            }
                        }
                    }
                    l = LINES_IN_BLOCK;
                },
                Some(first) => {
                    let end = space.get_next_unavailable_line(&block, first);
                    let run_start = Address::from_usize(block_start + first * BYTES_IN_LINE);
                    let run_end = Address::from_usize(block_start + end * BYTES_IN_LINE);
                    let candidate = match run_start.align_up_bounded(align, run_end) {
                        Some(c) => if size <= run_end.diff(c) {
                            Some(c)
                        } else {
                            None
                        },
                        None => None,
                    };
                    proof {
                        crate::common::lemma_pow2_single_bit(align);
                        crate::common::lemma_align_up_spec(run_start@, align as int);
                        assert(end > first);
                    }
                    match candidate {
                        Some(c) => {
                            proof {
                                lemma_fit_in_run(
                                    v,
                                    idx,
                                    first as int,
                                    end as int,
                                    c@,
                                    size as int,
                                );
                                assert forall|other: int| #[trigger]
                                    block_fit(
                                        v,
                                        idx,
                                        from,
                                        other,
                                        size as int,
                                        align as int,
                                    ) implies c@ <= other by {
                                    if other < run_start@ {
                                        lemma_no_fit_in_used_lines(
                                            v,
                                            idx,
                                            l as int,
                                            first as int,
                                            other,
                                            size as int,
                                        );
                                    } else {
                                        crate::common::lemma_align_up_least(
                                            run_start@,
                                            align as int,
                                            other,
                                        );
                                    }
                                }
                                assert(old(self)@.allocated.disjoint(byte_range(c@, size as int)));
                                assert forall|j: int|
                                    v.line_of(c@) <= j < base + end implies #[trigger] v.lines[j]
                                    == LineMark::Free by {
                                    let k = j - base;
                                    assert(first <= k < end);
                                    assert(v.lines[base + k] == LineMark::Free);
                                }
                                lemma_first_used_line(
                                    v.lines,
                                    v.line_of(c@) + 1,
                                    (idx + 1) * LINES_IN_BLOCK,
                                    base + end,
                                );
                                assert(v.run_end(c@) == run_end@);
                            }
                            self.cursor = c.plus(size);
                            self.limit = run_end;
                            self.line = end;
                            self.allocated = Ghost(
                                self.allocated@.union(byte_range(c@, size as int)),
                            );
                            return Some(c);
                        },
                        None => {
                            proof {
                                assert forall|other: int| #[trigger]
                                    block_fit(
                                        v,
                                        idx,
                                        from,
                                        other,
                                        size as int,
                                        align as int,
                                    ) implies v.line_start(base + end) <= other by {
                                    if other < run_start@ {
                                        lemma_no_fit_in_used_lines(
                                            v,
                                            idx,
                                            l as int,
                                            first as int,
                                            other,
                                            size as int,
                                        );
                                    } else if other < run_end@ {
                                        crate::common::lemma_align_up_least(
                                            run_start@,
                                            align as int,
                                            other,
                                        );
                                        lemma_no_fit_past_run(
                                            v,
                                            idx,
                                            end as int,
                                            other,
                                            size as int,
                                        );
                                    }
                                }
                            }
                            l = end;
                        },
                    }
                },
            }
        }
        proof {
            assert forall|other: int|
                !#[trigger] block_fit(v, idx, from, other, size as int, align as int) by {
                if block_fit(v, idx, from, other, size as int, align as int) {
                    assert(v.line_start(base + LINES_IN_BLOCK) <= other);
                    assert(v.block_of(other) == idx);
                }
            }
        }
        let block_end = Address::from_usize(block_start + BYTES_IN_BLOCK);
        assert(v.line_of(block_end@) == base + LINES_IN_BLOCK);
        self.cursor = block_end;
        self.limit = block_end;
        self.line = LINES_IN_BLOCK;
        assert(self@.allocated == old(self)@.allocated);
        None
    }

    /// The slow path: gives up what is left between the cursor and the
    /// limit, looks for the next run of free lines in the held block that
    /// takes the object, and failing that leases block after block until one
    /// takes it. Fails with `OutOfBlocks` where none does: the caller then
    /// asks for a collection.
    pub fn try_alloc_from_local(&mut self, space: &mut ImmixSpace, size: usize, align: usize) -> (r:
        Result<Address, HeapError>)
        requires
            old(self).wf(old(space)),
            old(space).wf(),
            0 < size <= MAX_IMMIX_OBJECT,
            is_pow2(align as int),
            align <= BYTES_IN_BLOCK,
        ensures
            final(self).wf(final(space)),
            final(space).wf(),
            final(space)@.follows(old(space)@, old(self)@.id),
            final(self)@.id == old(self)@.id,
            final(self)@.state == old(self)@.state,
            match r {
                Ok(a) => {
                    &&& old(self)@.first_fit(
                        old(space)@,
                        old(self)@.limit,
                        a@,
                        size as int,
                        align as int,
                    )
                    &&& final(self)@.allocated == old(self)@.allocated.union(
                        byte_range(a@, size as int),
                    )
                    &&& old(self)@.allocated.disjoint(byte_range(a@, size as int))
                    &&& final(self)@ == old(self)@.after_alloc(old(space)@, a@, size as int)
                    &&& final(space)@ == old(self)@.space_after_alloc(old(space)@, a@)
                },
                Err(e) => {
                    &&& e == HeapError::OutOfBlocks
                    &&& old(self)@.no_fit(old(space)@, old(self)@.limit, size as int, align as int)
                    &&& final(self)@ == old(self)@.without_block()
                    &&& final(space)@ == old(space)@.passed(
                        old(self)@.id,
                        old(self)@.block,
                        old(space)@.n_blocks() as int,
                    )
                },
            },
    {
        let ghost m0 = self@;
        let ghost s0 = space@;
        let ghost from = self@.limit;
        proof {
            space.lemma_wf();
        }
        if self.block.is_some() {
            match self.scan_block(space, size, align) {
                Some(a) => {
                    proof {
                        lemma_first_fit_in_held(m0, s0, from, a@, size as int, align as int);
                    }
                    return Ok(a);
                },
                None => {},
            }
        }
        self.return_block(space);
        proof {
            space.lemma_wf();
            assert forall|other: int| #[trigger]
                m0.fits(s0, from, other, size as int, align as int) implies space@.next_block
                <= s0.block_of(other) && leasable(s0.blocks[s0.block_of(other)]) by {
                if m0.block == Some(s0.block_of(other)) && from <= other {
                    assert(block_fit(s0, m0.block->0, from, other, size as int, align as int));
                }
            }
            lemma_passed_start(s0, m0.id, m0.block);
        }
        loop
            invariant
                self.wf(space),
                space.wf(),
                s0.wf(),
                m0 == old(self)@,
                s0 == old(space)@,
                from == m0.limit,
                space@.follows(s0, m0.id),
                space@ == s0.passed(m0.id, m0.block, space@.next_block as int),
                m0.block matches Some(b) ==> 0 <= b < s0.next_block,
                self@ == m0.without_block(),
                0 < size <= MAX_IMMIX_OBJECT,
                is_pow2(align as int),
                forall|other: int| #[trigger]
                    m0.fits(s0, from, other, size as int, align as int) ==> space@.next_block
                        <= s0.block_of(other) && leasable(s0.blocks[s0.block_of(other)]),
            decreases space@.n_blocks() - space@.next_block,
        {
            let ghost s1 = space@;
            let ghost m_idle = self@;
            proof {
                space.lemma_wf();
            }
            match space.get_next_usable_block(self.id) {
                Err(_) => {
                    proof {
                        assert forall|other: int|
                            !#[trigger] m0.fits(s0, from, other, size as int, align as int) by {
                            if m0.fits(s0, from, other, size as int, align as int) {
                                let b = s0.block_of(other);
                                assert(s1.blocks[b] == s0.blocks[b]);
                                assert(s1.has_leasable_from(s1.next_block as int));
                            }
                        }
                        lemma_passed_rest(s0, m0.id, m0.block, s1.next_block as int, s1);
                    }
                    return Err(HeapError::OutOfBlocks);
                },
                Ok(block) => {
                    let ghost s2 = space@;
                    let ghost idx = block.spec_index() as int;
                    proof {
                        space.lemma_wf();
                        lemma_follows_trans(s0, s1, s2, m0.id);
                    }
                    self.block = Some(block);
                    self.cursor = block.start();
                    self.limit = block.start();
                    self.line = 0;
                    proof {
                        assert(self@.allocated == m0.allocated);
                        assert(s2.line_of(s2.block_start(idx)) == idx * LINES_IN_BLOCK);
                        assert forall|x: int| #[trigger] self@.allocated.contains(x) implies {
                            &&& s2.contains(x)
                            &&& s2.lessee.contains_key(s2.block_of(x))
                            &&& s2.lessee[s2.block_of(x)] == self@.id
                            &&& self@.block == Some(s2.block_of(x)) ==> x < self@.cursor
                        } by {
                            assert(m_idle.allocated.contains(x));
                            assert(s1.lessee.contains_key(s1.block_of(x)));
                        }
                    }
                    let ghost m1 = self@;
                    match self.scan_block(space, size, align) {
                        Some(a) => {
                            proof {
                                lemma_passed_lease(s0, m0.id, m0.block, s1, idx);
                                assert(m0.block != Some(idx));
                                assert(s0.block_of(a@) == idx);
                                assert(s2.run_end(a@) == s0.run_end(a@));
                                assert(s1.blocks[idx] == s0.blocks[idx]);
                                assert(m0.fits(s0, from, a@, size as int, align as int));
                                assert forall|other: int| #[trigger]
                                    m0.fits(s0, from, other, size as int, align as int) implies a@
                                    <= other by {
                                    let b = s0.block_of(other);
                                    assert(s1.blocks[b] == s0.blocks[b]);
                                    if b == idx {
                                        assert(block_fit(
                                            s2,
                                            idx,
                                            m1.limit,
                                            other,
                                            size as int,
                                            align as int,
                                        ));
                                    }
                                }
                            }
                            return Ok(a);
                        },
                        None => {
                            self.return_block(space);
                            proof {
                                space.lemma_wf();
                                lemma_follows_trans(s0, s2, space@, m0.id);
                                lemma_passed_lease(s0, m0.id, m0.block, s1, idx);
                                lemma_passed_return(s0, m0.id, m0.block, idx);
                                assert forall|other: int| #[trigger]
                                    m0.fits(
                                        s0,
                                        from,
                                        other,
                                        size as int,
                                        align as int,
                                    ) implies space@.next_block <= s0.block_of(other) by {
                                    let b = s0.block_of(other);
                                    assert(s1.blocks[b] == s0.blocks[b]);
                                    if b == idx {
                                        assert(block_fit(
                                            s2,
                                            idx,
                                            m1.limit,
                                            other,
                                            size as int,
                                            align as int,
                                        ));
                                    }
                                }
                            }
                        },
                    }
                },
            }
        }
    }

    /// The fast path: hands out the first `size` bytes at a multiple of
    /// `align` at or after the cursor, where they end at or before the
    /// limit, and moves the cursor past them. It needs no access to the
    /// space; what it promises holds for the space that the mutator is well
    /// formed for.
    pub fn bump(&mut self, size: usize, align: usize) -> (r: Option<Address>)
        requires
            0 < size <= MAX_IMMIX_OBJECT,
            is_pow2(align as int),
        ensures
            match r {
                Some(a) => {
                    &&& a@ == align_up_spec(old(self)@.cursor, align as int)
                    &&& a@ + size <= old(self)@.limit
                    &&& final(self)@ == (MutatorView {
                        cursor: a@ + size,
                        allocated: old(self)@.allocated.union(byte_range(a@, size as int)),
                        ..old(self)@
                    })
                },
                None => {
                    &&& align_up_spec(old(self)@.cursor, align as int) + size > old(self)@.limit
                    &&& final(self)@ == old(self)@
                },
            },
            forall|space: &ImmixSpace| #[trigger]
                old(self).wf(space) && space.wf() ==> {
                    &&& final(self).wf(space)
                    &&& r matches Some(a) ==> {
                        &&& old(self)@.first_fit(
                            space@,
                            old(self)@.cursor,
                            a@,
                            size as int,
                            align as int,
                        )
                        &&& old(self)@.allocated.disjoint(byte_range(a@, size as int))
                    }
                },
    {
        let ghost m0 = self@;
        proof {
            crate::common::lemma_pow2_single_bit(align);
            crate::common::lemma_align_up_spec(m0.cursor, align as int);
        }
        match self.cursor.align_up_bounded(align, self.limit) {
            Some(start) => {
                if size <= self.limit.diff(start) {
                    proof {
                        self.limit.lemma_view_range();
                    }
                    self.cursor = start.plus(size);
                    self.allocated = Ghost(self.allocated@.union(byte_range(start@, size as int)));
                    proof {
                        assert forall|space: &ImmixSpace| #[trigger]
                            old(self).wf(space) && space.wf() implies {
                            &&& self.wf(space)
                            &&& m0.first_fit(space@, m0.cursor, start@, size as int, align as int)
                            &&& m0.allocated.disjoint(byte_range(start@, size as int))
                        } by {
                            let s0 = space@;
                            space.lemma_wf();
                            let idx = m0.block->0;
                            assert(m0.block is Some);
                            assert forall|l: int|
                                s0.line_of(start@) <= l <= s0.line_of(
                                    start@ + size - 1,
                                ) implies #[trigger] s0.lines[l] == LineMark::Free by {}
                            assert(s0.n_blocks() * BYTES_IN_BLOCK >= (idx + 1) * BYTES_IN_BLOCK)
                                by (nonlinear_arith)
                                requires
                                    0 <= idx < s0.n_blocks(),
                            ;
                            assert(s0.range_free(start@, size as int));
                            assert(block_fit(
                                s0,
                                idx,
                                m0.cursor,
                                start@,
                                size as int,
                                align as int,
                            ));
                            assert forall|other: int| #[trigger]
                                block_fit(
                                    s0,
                                    idx,
                                    m0.cursor,
                                    other,
                                    size as int,
                                    align as int,
                                ) implies start@ <= other by {
                                crate::common::lemma_align_up_least(
                                    m0.cursor,
                                    align as int,
                                    other,
                                );
                            }
                            lemma_first_fit_in_held(
                                m0,
                                s0,
                                m0.cursor,
                                start@,
                                size as int,
                                align as int,
                            );
                            assert(m0.allocated.disjoint(byte_range(start@, size as int)));
                        }
                    }
                    return Some(start);
                }
            },
            None => {},
        }
        None
    }

    /// Hands out `size` bytes at a multiple of `align`: by bumping the
    /// cursor where the bytes fit before the limit, else by the slow path.
    /// The bytes are the lowest that fit in what the mutator can reach, and
    /// none of them was handed out since the last collection. Fails with
    /// `OutOfBlocks` where nothing fits.
    pub fn allocate(&mut self, space: &mut ImmixSpace, size: usize, align: usize) -> (r: Result<
        Address,
        HeapError,
    >)
        requires
            old(self).wf(old(space)),
            old(space).wf(),
            0 < size <= MAX_IMMIX_OBJECT,
            is_pow2(align as int),
            align <= BYTES_IN_BLOCK,
        ensures
            final(self).wf(final(space)),
            final(space).wf(),
            final(space)@.follows(old(space)@, old(self)@.id),
            final(self)@.id == old(self)@.id,
            final(self)@.state == old(self)@.state,
            match r {
                Ok(a) => {
                    &&& old(self)@.first_fit(
                        old(space)@,
                        old(self)@.cursor,
                        a@,
                        size as int,
                        align as int,
                    )
                    &&& a@ % (align as int) == 0
                    &&& final(space)@.range_free(a@, size as int)
                    &&& final(self)@.allocated == old(self)@.allocated.union(
                        byte_range(a@, size as int),
                    )
                    &&& old(self)@.allocated.disjoint(byte_range(a@, size as int))
                    &&& final(self)@ == old(self)@.after_alloc(old(space)@, a@, size as int)
                    &&& final(space)@ == old(self)@.space_after_alloc(old(space)@, a@)
                },
                Err(e) => {
                    &&& e == HeapError::OutOfBlocks
                    &&& old(self)@.no_fit(old(space)@, old(self)@.cursor, size as int, align as int)
                    &&& final(self)@ == old(self)@.without_block()
                    &&& final(space)@ == old(space)@.passed(
                        old(self)@.id,
                        old(self)@.block,
                        old(space)@.n_blocks() as int,
                    )
                },
            },
    {
        let ghost m0 = self@;
        let ghost s0 = space@;
        proof {
            space.lemma_wf();
            crate::common::lemma_pow2_single_bit(align);
            crate::common::lemma_align_up_spec(m0.cursor, align as int);
        }
        match self.bump(size, align) {
            Some(start) => {
                proof {
                    let idx = m0.block->0;
                    assert(m0.block is Some);
                    assert(s0.block_of(start@) == idx);
                    lemma_first_used_line(
                        s0.lines,
                        s0.line_of(start@) + 1,
                        (idx + 1) * LINES_IN_BLOCK,
                        idx * LINES_IN_BLOCK + m0.line,
                    );
                    assert(s0.run_end(start@) == m0.limit);
                }
                return Ok(start);
            },
            None => {},
        }
        let r = self.try_alloc_from_local(space, size, align);
        proof {
            assert forall|other: int| #[trigger]
                m0.fits(s0, m0.cursor, other, size as int, align as int) implies m0.fits(
                s0,
                m0.limit,
                other,
                size as int,
                align as int,
            ) by {
                lemma_bump_miss(m0, s0, other, size as int, align as int);
            }
        }
        r
    }

    /// Gets the mutator ready for a collection: it gives its block back and
    /// forgets what it has handed out.
    pub fn prepare_for_gc(&mut self, space: &mut ImmixSpace)
        requires
            old(self).wf(old(space)),
            old(space).wf(),
        ensures
            final(space).wf(),
            final(space)@ == old(space)@.given_back(old(self)@.block),
            final(space)@.follows(old(space)@, old(self)@.id),
            final(self)@ == old(self)@.prepared(),
            forall|any: &ImmixSpace| #[trigger] final(self).wf(any),
    {
        self.return_block(space);
        self.allocated = Ghost(Set::empty());
    }

    /// Notes that the collector has asked the mutators to stop: a running
    /// mutator will stop at its next yieldpoint.
    pub fn request_yield(&mut self)
        ensures
            final(self)@ == old(self)@.yield_requested(),
            forall|space: &ImmixSpace| old(self).wf(space) ==> #[trigger] final(self).wf(space),
    {
        if self.state == MutatorState::Running {
            self.state = MutatorState::YieldRequested;
        }
        assert(self@.allocated == old(self)@.allocated);
    }

    /// The yieldpoint's check: whether the mutator has to stop now.
    pub fn yieldpoint(&self) -> (r: bool)
        ensures
            r == (self@.state == MutatorState::YieldRequested),
    {
        self.state == MutatorState::YieldRequested
    }

    /// The yieldpoint's slow path: the mutator gets ready for the
    /// collection and is parked. The caller then publishes the mutator's
    /// roots and waits for the collection to end.
    pub fn yieldpoint_slow(&mut self, space: &mut ImmixSpace)
        requires
            old(self).wf(old(space)),
            old(space).wf(),
        ensures
            final(space).wf(),
            final(space)@ == old(space)@.given_back(old(self)@.block),
            final(space)@.follows(old(space)@, old(self)@.id),
            final(self)@ == old(self)@.parked(),
            forall|any: &ImmixSpace| #[trigger] final(self).wf(any),
    {
        self.prepare_for_gc(space);
        self.state = MutatorState::Parked;
        assert(self@.allocated == Set::<int>::empty());
    }

    /// Parks a mutator that holds no block and has handed out nothing: one
    /// that was made while the world stops.
    pub fn park(&mut self)
        requires
            old(self)@.block is None,
            old(self)@.cursor == old(self)@.limit,
            old(self)@.allocated == Set::<int>::empty(),
        ensures
            final(self)@ == (MutatorView { state: MutatorState::Parked, ..old(self)@ }),
            forall|space: &ImmixSpace| #[trigger] final(self).wf(space),
    {
        self.state = MutatorState::Parked;
        assert(self@.allocated == old(self)@.allocated);
    }

    /// Lets a parked mutator run again, once the collection has ended.
    pub fn resume(&mut self)
        ensures
            final(self)@ == old(self)@.resumed(),
            forall|space: &ImmixSpace| old(self).wf(space) ==> #[trigger] final(self).wf(space),
    {
        if self.state == MutatorState::Parked {
            self.state = MutatorState::Running;
        }
        assert(self@.allocated == old(self)@.allocated);
    }
}

} // verus!
