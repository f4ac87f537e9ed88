use vstd::prelude::*;

use core::marker::PhantomData;

use crate::block::{Block, NONE_INT};
use crate::error::FreelistError;
use crate::growth::{DefaultGrowth, GrowthPolicy};
use crate::runs::{
    committed_runs, covers, grown_runs, lemma_grown_runs, lemma_gap_uncovered, lemma_inserted_runs, lemma_merged_runs,
    merged_runs, run_position, starts_run, lemma_run_position, first_fit, lemma_committed_runs, lemma_first_fit, lemma_sum_bounded,
    runs_ordered, sum_counts, tail_start, Runs,
};

verus! {

/// How many times one allocation may grow the arena before it gives up.
pub const MAX_GROWTH_ATTEMPTS: usize = 2;

/// A capacity is usable when every slot index stays below the header's
/// sentinel and the arena's size in bytes is representable.
pub open spec fn capacity_fits(capacity: nat, element_size: nat) -> bool {
    capacity <= u32::MAX && capacity * element_size <= usize::MAX
}

/// The slots `start .. start + n`.
pub open spec fn range_set(start: int, n: int) -> Set<int> {
    Set::new(|k: int| start <= k < start + n)
}

/// The index of the run that follows the run at position `i`, if any.
pub open spec fn next_start(s: Runs, i: int) -> Option<usize> {
    if i + 1 < s.len() {
        Some(s[i + 1].0 as usize)
    } else {
        None
    }
}

/// The index of the first run of the list, if any.
pub open spec fn head_start(s: Runs) -> Option<usize> {
    if s.len() > 0 {
        Some(s[0].0 as usize)
    } else {
        None
    }
}

/// What growing an arena of `cap` slots of `size` bytes to a proposed
/// capacity comes to: `Capacity` when the proposal is no larger,
/// `CapacityOverflow` when the arena cannot hold it, else success.
pub open spec fn growth_result(cap: nat, size: nat, proposed: nat) -> Result<(), FreelistError> {
    if proposed <= cap {
        Err(FreelistError::Capacity)
    } else if !capacity_fits(proposed, size) {
        Err(FreelistError::CapacityOverflow)
    } else {
        Ok(())
    }
}

/// What a request of `n` slots comes to, from the free runs `runs` of an
/// arena of `cap` slots of `size` bytes that may grow by `policy` up to
/// `attempts` more times: the result, then the capacity and the free runs
/// that it leaves.
pub open spec fn allocation_outcome<P: GrowthPolicy>(
    policy: P,
    runs: Runs,
    cap: nat,
    size: nat,
    n: nat,
    attempts: nat,
) -> (Result<usize, FreelistError>, nat, Runs)
    decreases attempts,
{
    match first_fit(runs, n) {
        Some(p) => (Ok(runs[p as int].0 as usize), cap, committed_runs(runs, p as int, n)),
        None => {
            if attempts == 0 {
                (Err(FreelistError::Capacity), cap, runs)
            } else {
                let proposed = policy.proposal(cap as usize, n as usize) as nat;
                match growth_result(cap, size, proposed) {
                    Err(e) => (Err(e), cap, runs),
                    Ok(()) => allocation_outcome(
                        policy,
                        grown_runs(runs, cap, proposed),
                        proposed,
                        size,
                        n,
                        (attempts - 1) as nat,
                    ),
                }
            }
        },
    }
}

/// An arena of slots of one element type `T`, handed out as contiguous
/// ranges by index.
///
/// The free runs form a singly linked list in increasing order of address.
/// Each run's header sits in a table of headers that parallels the slots, at
/// the index of the run's first slot; a slot's header means something only
/// while a run starts there. The content of used slots belongs to the caller,
/// who refers to a range by its first index, which growth never moves.
pub struct Freelist<T, P = DefaultGrowth> {
    /// One header per slot; its length is the capacity.
    blocks: Vec<Block>,
    /// Index of the first free run.
    first_free_block: Option<usize>,
    /// The number of slots handed out.
    used_blocks: usize,
    /// The size of `T` in bytes.
    element_size: usize,
    /// Computes the new capacity when the arena grows.
    calculate_new_capacity: P,
    /// The free runs as `(start, count)`, in list order.
    free_runs: Ghost<Runs>,
    element_type: PhantomData<T>,
}

impl<T> Freelist<T, DefaultGrowth> {
    /// An empty arena with the default growth policy. Fails with
    /// `Construction` when `T` is smaller than a header.
    pub fn new() -> (r: Result<Self, FreelistError>)
        ensures
            r is Err <==> vstd::layout::size_of::<T>() < vstd::layout::size_of::<Block>(),
            r matches Err(e) ==> e == FreelistError::Construction,
            r matches Ok(fl) ==> fl.wf() && fl.capacity_view() == 0 && fl.used_view() == 0
                && fl.free_view() == 0 && fl.runs_view().len() == 0 && fl.growth_policy()
                == DefaultGrowth,
    {
        Self::with_growth_policy(DefaultGrowth)
    }
}

impl<T, P: GrowthPolicy> Freelist<T, P> {
    /// The number of slots in the arena.
    pub closed spec fn capacity_view(&self) -> nat {
        self.blocks@.len()
    }

    /// The number of slots handed out.
    pub closed spec fn used_view(&self) -> nat {
        self.used_blocks as nat
    }

    /// The size of one element in bytes.
    pub closed spec fn element_size_view(&self) -> nat {
        self.element_size as nat
    }

    /// The free runs as `(start, count)`, in list order.
    pub closed spec fn runs_view(&self) -> Runs {
        self.free_runs@
    }

    /// The policy that computes the new capacity on growth.
    pub closed spec fn growth_policy(&self) -> P {
        self.calculate_new_capacity
    }

    /// The header kept for slot `index`.
    pub closed spec fn header(&self, index: int) -> Block {
        self.blocks@[index]
    }

    /// The number of free slots.
    pub open spec fn free_view(&self) -> nat {
        sum_counts(self.runs_view())
    }

    /// The slots handed out.
    pub open spec fn used_set(&self) -> Set<int> {
        Set::new(|k: int| 0 <= k < self.capacity_view() && !covers(self.runs_view(), k))
    }

    pub closed spec fn wf(&self) -> bool {
        let s = self.free_runs@;
        &&& capacity_fits(self.blocks@.len(), self.element_size as nat)
        &&& self.element_size == vstd::layout::size_of::<T>()
        &&& self.used_blocks + sum_counts(s) == self.blocks@.len()
        &&& runs_ordered(s, self.blocks@.len())
        &&& self.first_free_block == head_start(s)
        &&& forall|i: int|
            0 <= i < s.len() ==> (#[trigger] self.blocks@[s[i].0 as int]).count() == s[i].1
                && self.blocks@[s[i].0 as int].next() == next_start(s, i)
    }

    pub proof fn lemma_wf(&self)
        requires
            self.wf(),
        ensures
            capacity_fits(self.capacity_view(), self.element_size_view()),
            self.element_size_view() == vstd::layout::size_of::<T>(),
            self.used_view() + self.free_view() == self.capacity_view(),
            runs_ordered(self.runs_view(), self.capacity_view()),
    {
    }

    /// An empty arena that grows by `policy`. Fails with `Construction` when
    /// `T` is smaller than a header.
    pub fn with_growth_policy(policy: P) -> (r: Result<Self, FreelistError>)
        ensures
            r is Err <==> vstd::layout::size_of::<T>() < vstd::layout::size_of::<Block>(),
            r matches Err(e) ==> e == FreelistError::Construction,
            r matches Ok(fl) ==> fl.wf() && fl.capacity_view() == 0 && fl.used_view() == 0
                && fl.free_view() == 0 && fl.runs_view().len() == 0 && fl.growth_policy() == policy,
    {
        let element_size = core::mem::size_of::<T>();
        if element_size < core::mem::size_of::<Block>() {
            return Err(FreelistError::Construction);
        }
        let fl = Freelist {
            blocks: Vec::new(),
            first_free_block: None,
            used_blocks: 0,
            element_size,
            calculate_new_capacity: policy,
            free_runs: Ghost(Seq::empty()),
            element_type: PhantomData,
        };
        proof {
            assert(fl.blocks@.len() * fl.element_size == 0);
        }
        Ok(fl)
    }

    /// Replaces the policy that computes the new capacity on growth.
    pub fn set_growth_policy(&mut self, policy: P)
        requires
            old(self).wf(),
        ensures
            final(self).wf(),
            final(self).growth_policy() == policy,
            final(self).capacity_view() == old(self).capacity_view(),
            final(self).used_view() == old(self).used_view(),
            final(self).runs_view() == old(self).runs_view(),
    {
        self.calculate_new_capacity = policy;
    }

    /// The size of one element in bytes.
    pub fn type_size_bytes(&self) -> (r: usize)
        requires
            self.wf(),
        ensures
            r == vstd::layout::size_of::<T>(),
    {
        self.element_size
    }

    /// Whether any slot is free.
    pub fn has_free_block(&self) -> (r: bool)
        requires
            self.wf(),
        ensures
            r == (self.runs_view().len() > 0),
            r == (self.free_view() > 0),
    {
        proof {
            let s = self.free_runs@;
            if s.len() > 0 {
                assert(s[s.len() - 1].1 > 0);
            }
        }
        self.first_free_block.is_some()
    }

    /// The number of slots in the arena.
    pub fn capacity_blocks(&self) -> (r: usize)
        requires
            self.wf(),
        ensures
            r == self.capacity_view(),
    {
        self.blocks.len()
    }

    /// The size of the arena in bytes.
    pub fn capacity_bytes(&self) -> (r: usize)
        requires
            self.wf(),
        ensures
            r == self.capacity_view() * self.element_size_view(),
    {
        self.blocks.len() * self.element_size
    }

    /// The number of slots handed out.
    pub fn used_blocks(&self) -> (r: usize)
        requires
            self.wf(),
        ensures
            r == self.used_view(),
    {
        self.used_blocks
    }

    /// The size in bytes of the slots handed out.
    pub fn used_bytes(&self) -> (r: usize)
        requires
            self.wf(),
        ensures
            r == self.used_view() * self.element_size_view(),
    {
        proof {
            assert(self.used_blocks * self.element_size <= self.blocks@.len() * self.element_size)
                by (nonlinear_arith)
                requires
                    self.used_blocks <= self.blocks@.len(),
            ;
        }
        self.used_blocks * self.element_size
    }

    /// The number of free slots.
    pub fn free_blocks(&self) -> (r: usize)
        requires
            self.wf(),
        ensures
            r == self.free_view(),
            r == self.capacity_view() - self.used_view(),
    {
        self.blocks.len() - self.used_blocks
    }

    /// The size in bytes of the free slots.
    pub fn free_bytes(&self) -> (r: usize)
        requires
            self.wf(),
        ensures
            r == self.free_view() * self.element_size_view(),
    {
        let free = self.free_blocks();
        proof {
            assert(free * self.element_size <= self.blocks@.len() * self.element_size)
                by (nonlinear_arith)
                requires
                    free <= self.blocks@.len(),
            ;
        }
        free * self.element_size
    }

    /// Finds the first run that holds at least `element_count` slots.
    ///
    /// Returns the start of the run before it and its own start; where no run
    /// is large enough, the start of the last run and `None`.
    fn find_first_fit(&self, element_count: usize) -> (r: (Option<usize>, Option<usize>))
        requires
            self.wf(),
        ensures
            ({
                let s = self.runs_view();
                match first_fit(s, element_count as nat) {
                    Some(p) => r.1 == Some(s[p as int].0 as usize) && r.0 == (if p == 0 {
                        None
                    } else {
                        Some(s[p - 1].0 as usize)
                    }),
                    None => r.1 is None && r.0 == (if s.len() == 0 {
                        None
                    } else {
                        Some(s.last().0 as usize)
                    }),
                }
            }),
    {
        let ghost s = self.free_runs@;
        let mut prev_block_index: Option<usize> = None;
        let mut current = self.first_free_block;
        let ghost mut i: int = 0;
        loop
            invariant
                self.wf(),
                s == self.free_runs@,
                0 <= i <= s.len(),
                forall|j: int| 0 <= j < i ==> #[trigger] s[j].1 < element_count,
                current == (if i < s.len() {
                    Some(s[i].0 as usize)
                } else {
                    None::<usize>
                }),
                prev_block_index == (if i == 0 {
                    None
                } else {
                    Some(s[i - 1].0 as usize)
                }),
            decreases s.len() - i,
        {
            match current {
                None => {
                    proof {
                        lemma_first_fit(s, element_count as nat);
                        match first_fit(s, element_count as nat) {
                            Some(p) => assert(s[p as int].1 < element_count),
                            None => {},
                        }
                    }
                    return (prev_block_index, None);
                },
                Some(index) => {
                    let block = self.blocks[index];
                    if block.get_n_elements() >= element_count {
                        proof {
                            lemma_first_fit(s, element_count as nat);
                            match first_fit(s, element_count as nat) {
                                Some(p) => {
                                    if p < i {
                                        assert(s[p as int].1 < element_count);
                                    } else if p > i {
                                        assert(s[i].1 < element_count);
                                    }
                                },
                                None => assert(s[i].1 < element_count),
                            }
                        }
                        return (prev_block_index, Some(index));
                    }
                    prev_block_index = Some(index);
                    current = block.get_next_block_index();
                    proof {
                        i = i + 1;
                    }
                },
            }
        }
    }

    /// The two arenas differ at most in their headers.
    spec fn same_but_blocks(&self, other: &Self) -> bool {
        &&& self.first_free_block == other.first_free_block
        &&& self.used_blocks == other.used_blocks
        &&& self.element_size == other.element_size
        &&& self.calculate_new_capacity == other.calculate_new_capacity
        &&& self.free_runs == other.free_runs
    }

    /// Writes at `block_index` the header of a run of `element_count` slots
    /// followed by the run at `next_block_index`.
    fn new_block(&mut self, block_index: usize, element_count: usize, next_block_index: Option<usize>)
        requires
            block_index < old(self).blocks@.len(),
            element_count <= u32::MAX,
            next_block_index matches Some(i) ==> i < u32::MAX,
        ensures
            final(self).same_but_blocks(old(self)),
            final(self).blocks@.len() == old(self).blocks@.len(),
            forall|j: int|
                0 <= j < final(self).blocks@.len() && j != block_index ==> final(self).blocks@[j]
                    == old(self).blocks@[j],
            final(self).blocks@[block_index as int].count() == element_count,
            final(self).blocks@[block_index as int].next() == next_block_index,
    {
        self.blocks.set(block_index, Block::new(element_count, next_block_index));
    }

    /// Links the run at `first_block_index` to the run at
    /// `second_block_index`, or to none.
    fn connect_blocks(&mut self, first_block_index: usize, second_block_index: Option<usize>)
        requires
            first_block_index < old(self).blocks@.len(),
            second_block_index matches Some(i) ==> i < u32::MAX,
        ensures
            final(self).same_but_blocks(old(self)),
            final(self).blocks@.len() == old(self).blocks@.len(),
            forall|j: int|
                0 <= j < final(self).blocks@.len() && j != first_block_index ==> final(self).blocks@[j] == old(self).blocks@[j],
            final(self).blocks@[first_block_index as int].count() == old(self).blocks@[first_block_index as int].count(),
            final(self).blocks@[first_block_index as int].next() == second_block_index,
    {
        let mut block = self.blocks[first_block_index];
        block.connect_at(second_block_index);
        self.blocks.set(first_block_index, block);
    }

    /// Hands out the first `element_count` slots of the run at position `p`,
    /// whose start is `block_idx` and whose predecessor starts at
    /// `prev_block_index`. A run used up leaves the list; else the rest of it
    /// becomes a run in its place. Fails with `InvariantViolation`, changing
    /// nothing, when the run is too small.
    #[verifier::rlimit(40)]
    fn commit_block(
        &mut self,
        prev_block_index: Option<usize>,
        block_idx: usize,
        element_count: usize,
        Ghost(p): Ghost<int>,
    ) -> (r: Result<(), FreelistError>)
        requires
            old(self).wf(),
            0 <= p < old(self).runs_view().len(),
            block_idx == old(self).runs_view()[p].0,
            prev_block_index == (if p == 0 {
                None
            } else {
                Some(old(self).runs_view()[p - 1].0 as usize)
            }),
        ensures
            if old(self).runs_view()[p].1 < element_count {
                r == Err::<(), FreelistError>(FreelistError::InvariantViolation) && *final(self)
                    == *old(self)
            } else {
                &&& r is Ok
                &&& final(self).wf()
                &&& final(self).growth_policy() == old(self).growth_policy()
                &&& final(self).capacity_view() == old(self).capacity_view()
                &&& final(self).used_view() == old(self).used_view() + element_count
                &&& final(self).runs_view() == committed_runs(
                    old(self).runs_view(),
                    p,
                    element_count as nat,
                )
            },
    {
        let ghost s = self.free_runs@;
        let ghost cap = self.blocks@.len();
        let block = self.blocks[block_idx];
        let count = block.get_n_elements();
        let next = block.get_next_block_index();
        if element_count > count {
            return Err(FreelistError::InvariantViolation);
        }
        proof {
            lemma_committed_runs(s, cap, p, element_count as nat);
            lemma_sum_bounded(s, cap);
            if p > 0 {
                assert(s[p - 1].0 < s[p - 1].0 + s[p - 1].1);
            }
            if p + 1 < s.len() {
                assert(s[p + 1].0 < s[p + 1].0 + s[p + 1].1);
            }
        }
        if element_count == count {
            match prev_block_index {
                None => self.first_free_block = next,
                Some(prev) => self.connect_blocks(prev, next),
            }
        } else {
            let new_index = block_idx + element_count;
            self.new_block(new_index, count - element_count, next);
            match prev_block_index {
                None => self.first_free_block = Some(new_index),
                Some(prev) => self.connect_blocks(prev, Some(new_index)),
            }
        }
        self.used_blocks = self.used_blocks + element_count;
        self.free_runs = Ghost(committed_runs(s, p, element_count as nat));
        proof {
            let t = self.free_runs@;
            assert forall|i: int| 0 <= i < t.len() implies (#[trigger] self.blocks@[t[i].0 as int]).count()
                == t[i].1 && self.blocks@[t[i].0 as int].next() == next_start(t, i) by {
                if element_count == count {
                    if i < p {
                        assert(t[i] == s[i]);
                    } else {
                        assert(t[i] == s[i + 1]);
                    }
                } else if i != p {
                    assert(t[i] == s[i]);
                }
            }
        }
        Ok(())
    }

    /// Whether the arena may hold `capacity` slots.
    fn fits_capacity(&self, capacity: usize) -> (r: bool)
        requires
            self.wf(),
        ensures
            r == capacity_fits(capacity as nat, self.element_size_view()),
    {
        if capacity > NONE_INT as usize {
            return false;
        }
        if self.element_size == 0 {
            return true;
        }
        let limit = usize::MAX / self.element_size;
        proof {
            let m = usize::MAX as int;
            let e = self.element_size as int;
            let c = capacity as int;
            let q = limit as int;
            vstd::arithmetic::div_mod::lemma_fundamental_div_mod(m, e);
            vstd::arithmetic::div_mod::lemma_mod_bound(m, e);
            assert(c <= q <==> c * e <= m) by (nonlinear_arith)
                requires
                    e > 0,
                    m == e * q + m % e,
                    0 <= m % e < e,
                    c >= 0,
            ;
        }
        capacity <= limit
    }

    /// Grows the arena to `new_capacity` slots, all of the new ones free: the
    /// last run is extended when it ends at the old capacity, else a run of
    /// the new slots is appended to the list.
    fn grow_capacity_to(&mut self, new_capacity: usize)
        requires
            old(self).wf(),
            old(self).capacity_view() < new_capacity,
            capacity_fits(new_capacity as nat, old(self).element_size_view()),
        ensures
            final(self).wf(),
            final(self).growth_policy() == old(self).growth_policy(),
            final(self).capacity_view() == new_capacity,
            final(self).used_view() == old(self).used_view(),
            final(self).element_size_view() == old(self).element_size_view(),
            final(self).runs_view() == grown_runs(
                old(self).runs_view(),
                old(self).capacity_view(),
                new_capacity as nat,
            ),
            final(self).used_set() == old(self).used_set(),
    {
        let ghost s = self.free_runs@;
        let old_capacity = self.blocks.len();
        let at_end = self.is_last_block_at_end();
        let last = self.find_last_block_index();
        while self.blocks.len() < new_capacity
            invariant
                old_capacity == old(self).blocks@.len(),
                old_capacity <= self.blocks@.len() <= new_capacity,
                forall|j: int| 0 <= j < old_capacity ==> self.blocks@[j] == old(self).blocks@[j],
                self.same_but_blocks(old(self)),
            decreases new_capacity - self.blocks@.len(),
        {
            self.blocks.push(Block::new(0, None));
        }
        let increase = new_capacity - old_capacity;
        proof {
            lemma_grown_runs(s, old_capacity as nat, new_capacity as nat);
            if s.len() > 0 {
                assert(s.last().0 < s.last().0 + s.last().1);
            }
        }
        if at_end {
            if let Some(last_index) = last {
                let mut block = self.blocks[last_index];
                let _ = block.grow(increase);
                self.blocks.set(last_index, block);
            }
        } else {
            self.new_block(old_capacity, increase, None);
            match last {
                None => self.first_free_block = Some(old_capacity),
                Some(last_index) => self.connect_blocks(last_index, Some(old_capacity)),
            }
        }
        self.free_runs = Ghost(grown_runs(s, old_capacity as nat, new_capacity as nat));
        proof {
            let t = self.free_runs@;
            assert forall|i: int| 0 <= i < t.len() implies (#[trigger] self.blocks@[t[i].0 as int]).count()
                == t[i].1 && self.blocks@[t[i].0 as int].next() == next_start(t, i) by {
                if i < s.len() && i != s.len() - 1 {
                    assert(t[i] == s[i]);
                }
            }
            assert(self.used_set() =~= old(self).used_set());
        }
    }

    /// Grows the arena to `new_capacity` slots, as a growth policy proposed.
    /// Fails with `Capacity` when the proposal is no larger than the
    /// capacity, and with `CapacityOverflow` when the arena cannot hold it;
    /// either way nothing changes.
    pub fn grow_to_proposal(&mut self, new_capacity: usize) -> (r: Result<(), FreelistError>)
        requires
            old(self).wf(),
        ensures
            r == growth_result(
                old(self).capacity_view(),
                old(self).element_size_view(),
                new_capacity as nat,
            ),
            r is Ok ==> {
                &&& final(self).wf()
                &&& final(self).growth_policy() == old(self).growth_policy()
                &&& final(self).capacity_view() == new_capacity
                &&& final(self).used_view() == old(self).used_view()
                &&& final(self).element_size_view() == old(self).element_size_view()
                &&& final(self).runs_view() == grown_runs(
                    old(self).runs_view(),
                    old(self).capacity_view(),
                    new_capacity as nat,
                )
                &&& final(self).used_set() == old(self).used_set()
            },
            r is Err ==> *final(self) == *old(self),
    {
        if new_capacity <= self.blocks.len() {
            return Err(FreelistError::Capacity);
        }
        if !self.fits_capacity(new_capacity) {
            return Err(FreelistError::CapacityOverflow);
        }
        self.grow_capacity_to(new_capacity);
        Ok(())
    }

    /// Grows the arena to the capacity that the growth policy proposes for
    /// the current capacity and a request of `requested_block_element_count`
    /// slots, as `grow_to_proposal` does.
    fn grow_capacity(&mut self, requested_block_element_count: usize) -> (r: Result<(), FreelistError>)
        requires
            old(self).wf(),
        ensures
            ({
                let proposed = old(self).growth_policy().proposal(
                    old(self).capacity_view() as usize,
                    requested_block_element_count,
                ) as nat;
                &&& r == growth_result(
                    old(self).capacity_view(),
                    old(self).element_size_view(),
                    proposed,
                )
                &&& r is Ok ==> {
                    &&& final(self).wf()
                    &&& final(self).growth_policy() == old(self).growth_policy()
                    &&& final(self).capacity_view() == proposed
                    &&& final(self).used_view() == old(self).used_view()
                    &&& final(self).element_size_view() == old(self).element_size_view()
                    &&& final(self).runs_view() == grown_runs(
                        old(self).runs_view(),
                        old(self).capacity_view(),
                        proposed,
                    )
                    &&& final(self).used_set() == old(self).used_set()
                }
                &&& r is Err ==> *final(self) == *old(self)
            }),
    {
        let current_capacity = self.blocks.len();
        let new_capacity = self.calculate_new_capacity.new_capacity(
            current_capacity,
            requested_block_element_count,
        );
        self.grow_to_proposal(new_capacity)
    }

    /// Where a request of `n` slots is placed: at the first run large
    /// enough, else where the arena's growth leaves the last run.
    pub open spec fn fit_start(&self, n: nat) -> nat {
        match first_fit(self.runs_view(), n) {
            Some(p) => self.runs_view()[p as int].0,
            None => tail_start(self.runs_view(), self.capacity_view()),
        }
    }

    /// `self` is what allocating the `n` slots from `start` on made of
    /// `before`: those slots were not in use and now are, no other slot
    /// changed hands, and the count of used slots grew by `n`.
    pub open spec fn allocated_from(&self, before: &Self, start: int, n: int) -> bool {
        &&& self.wf()
        &&& self.capacity_view() >= before.capacity_view()
        &&& self.element_size_view() == before.element_size_view()
        &&& self.used_view() == before.used_view() + n
        &&& 0 <= start && start + n <= self.capacity_view()
        &&& range_set(start, n).disjoint(before.used_set())
        &&& self.used_set() == before.used_set().union(range_set(start, n))
    }

    /// `self` is what reserving room for `total_elements` slots made of
    /// `before`: the capacity is the larger of the two, and no slot changed
    /// hands.
    pub open spec fn reserved_from(&self, before: &Self, total_elements: nat) -> bool {
        &&& self.wf()
        &&& self.capacity_view() == if total_elements <= before.capacity_view() {
            before.capacity_view()
        } else {
            total_elements
        }
        &&& self.element_size_view() == before.element_size_view()
        &&& self.used_view() == before.used_view()
        &&& self.used_set() == before.used_set()
    }

    /// Makes room for `total_elements` slots in all. Nothing changes when the
    /// arena already holds that many; else it grows to exactly that many, all
    /// of the new slots free. Fails with `CapacityOverflow`, changing nothing,
    /// when the arena cannot hold that many slots.
    pub fn reserve_exact(&mut self, total_elements: usize) -> (r: Result<(), FreelistError>)
        requires
            old(self).wf(),
        ensures
            final(self).wf(),
            final(self).growth_policy() == old(self).growth_policy(),
            r is Ok <==> (total_elements <= old(self).capacity_view() || capacity_fits(
                total_elements as nat,
                old(self).element_size_view(),
            )),
            r matches Err(e) ==> e == FreelistError::CapacityOverflow && *final(self) == *old(self),
            r is Ok ==> final(self).reserved_from(old(self), total_elements as nat),
            total_elements <= old(self).capacity_view() ==> *final(self) == *old(self),
            r is Ok && total_elements > old(self).capacity_view() ==> final(self).runs_view()
                == grown_runs(
                old(self).runs_view(),
                old(self).capacity_view(),
                total_elements as nat,
            ),
    {
        if total_elements <= self.blocks.len() {
            return Ok(());
        }
        if !self.fits_capacity(total_elements) {
            return Err(FreelistError::CapacityOverflow);
        }
        self.grow_capacity_to(total_elements);
        Ok(())
    }

    /// Hands out `element_count` contiguous slots and returns the index of
    /// the first.
    ///
    /// The first run large enough serves the request; a run used up leaves
    /// the list, else the rest of it stays free in its place. When no run is
    /// large enough the arena grows to the capacity that its growth policy
    /// proposes, as `grow_to_proposal` does, and the search is made again; a
    /// request that still finds no run after `MAX_GROWTH_ATTEMPTS` growths
    /// fails with `Capacity`. A growth that fails ends the request with its
    /// error. On failure no slot changes hands, though the arena may have
    /// grown.
    pub fn allocate(&mut self, element_count: usize) -> (r: Result<usize, FreelistError>)
        requires
            old(self).wf(),
        ensures
            final(self).wf(),
            final(self).growth_policy() == old(self).growth_policy(),
            ({
                let o = allocation_outcome(
                    old(self).growth_policy(),
                    old(self).runs_view(),
                    old(self).capacity_view(),
                    old(self).element_size_view(),
                    element_count as nat,
                    MAX_GROWTH_ATTEMPTS as nat,
                );
                &&& r == o.0
                &&& final(self).capacity_view() == o.1
                &&& final(self).runs_view() == o.2
            }),
            final(self).capacity_view() >= old(self).capacity_view(),
            final(self).element_size_view() == old(self).element_size_view(),
            first_fit(old(self).runs_view(), element_count as nat) matches Some(p) ==> {
                &&& r is Ok
                &&& final(self).capacity_view() == old(self).capacity_view()
                &&& final(self).runs_view() == committed_runs(
                    old(self).runs_view(),
                    p as int,
                    element_count as nat,
                )
            },
            match r {
                Ok(index) => index == old(self).fit_start(element_count as nat)
                    && final(self).allocated_from(old(self), index as int, element_count as int),
                Err(e) => {
                    &&& e == FreelistError::Capacity || e == FreelistError::CapacityOverflow
                    &&& final(self).used_view() == old(self).used_view()
                    &&& final(self).used_set() == old(self).used_set()
                },
            },
    {
        let ghost s0 = self.free_runs@;
        let ghost cap0 = self.blocks@.len();
        let mut attempts: usize = 0;
        loop
            invariant
                self.wf(),
                s0 == old(self).runs_view(),
                cap0 == old(self).capacity_view(),
                attempts <= MAX_GROWTH_ATTEMPTS,
                self.growth_policy() == old(self).growth_policy(),
                allocation_outcome(
                    old(self).growth_policy(),
                    s0,
                    cap0,
                    old(self).element_size_view(),
                    element_count as nat,
                    MAX_GROWTH_ATTEMPTS as nat,
                ) == allocation_outcome(
                    self.growth_policy(),
                    self.runs_view(),
                    self.capacity_view(),
                    self.element_size_view(),
                    element_count as nat,
                    (MAX_GROWTH_ATTEMPTS - attempts) as nat,
                ),
                self.capacity_view() >= cap0,
                self.element_size_view() == old(self).element_size_view(),
                self.used_view() == old(self).used_view(),
                self.used_set() == old(self).used_set(),
                attempts == 0 ==> *self == *old(self),
                attempts > 0 ==> {
                    let s = self.runs_view();
                    &&& first_fit(s0, element_count as nat) is None
                    &&& s.len() > 0
                    &&& s.last().0 == tail_start(s0, cap0)
                    &&& s.last().0 + s.last().1 == self.capacity_view()
                    &&& s.len() - 1 <= s0.len()
                    &&& forall|j: int| 0 <= j < s.len() - 1 ==> #[trigger] s[j] == s0[j]
                },
            decreases MAX_GROWTH_ATTEMPTS - attempts,
        {
            let ghost s = self.free_runs@;
            let ghost before = *self;
            let (prev_block_index, block_index) = self.find_first_fit(element_count);
            match block_index {
                Some(index) => {
                    let ghost p = first_fit(s, element_count as nat)->Some_0 as int;
                    proof {
                        lemma_first_fit(s, element_count as nat);
                        lemma_committed_runs(s, self.blocks@.len() as nat, p, element_count as nat);
                        if attempts > 0 {
                            lemma_first_fit(s0, element_count as nat);
                            if p < s.len() - 1 {
                                assert(s[p] == s0[p]);
                            }
                        }
                    }
                    let committed = self.commit_block(
                        prev_block_index,
                        index,
                        element_count,
                        Ghost(p),
                    );
                    proof {
                        assert(committed is Ok);
                        assert(range_set(index as int, element_count as int).disjoint(
                            before.used_set(),
                        ));
                        assert(self.used_set() =~= before.used_set().union(
                            range_set(index as int, element_count as int),
                        ));
                    }
                    return Ok(index);
                },
                None => {
                    if attempts >= MAX_GROWTH_ATTEMPTS {
                        return Err(FreelistError::Capacity);
                    }
                    let grown = self.grow_capacity(element_count);
                    if let Err(e) = grown {
                        return Err(e);
                    }
                    proof {
                        lemma_grown_runs(s, before.capacity_view(), self.capacity_view());
                        if attempts > 0 {
                            let t = self.runs_view();
                            assert forall|j: int| 0 <= j < t.len() - 1 implies #[trigger] t[j]
                                == s0[j] by {
                                assert(t[j] == s[j]);
                            }
                        }
                    }
                    attempts = attempts + 1;
                },
            }
        }
    }

    /// Whether the run that starts at `first_block_index` ends where
    /// `second_block_index` starts.
    fn blocks_are_adjacent(&self, first_block_index: usize, second_block_index: usize) -> (r: bool)
        requires
            self.wf(),
            starts_run(self.runs_view(), first_block_index as int),
        ensures
            r == (first_block_index + self.header(first_block_index as int).count()
                == second_block_index),
    {
        proof {
            let s = self.free_runs@;
            let i = run_position(s, first_block_index as int);
            assert(self.blocks@[s[i].0 as int].count() == s[i].1);
        }
        first_block_index + self.blocks[first_block_index].get_n_elements() == second_block_index
    }

    /// Merges the free run that starts at `first_block_index` with the free
    /// run that starts at `second_block_index` when the first ends where the
    /// second starts, and returns whether it did. Then the first run's count
    /// is the sum of both counts, its next run is the second's next run, and
    /// the second run is gone from the list; else nothing changes.
    pub fn attempt_merge(&mut self, first_block_index: usize, second_block_index: usize) -> (r:
        bool)
        requires
            old(self).wf(),
            starts_run(old(self).runs_view(), first_block_index as int),
            starts_run(old(self).runs_view(), second_block_index as int),
            first_block_index != second_block_index,
        ensures
            final(self).wf(),
            r == (first_block_index + old(self).header(first_block_index as int).count()
                == second_block_index),
            r ==> {
                &&& final(self).growth_policy() == old(self).growth_policy()
                &&& final(self).header(first_block_index as int).count() == old(self).header(
                    first_block_index as int,
                ).count() + old(self).header(second_block_index as int).count()
                &&& final(self).header(first_block_index as int).next() == old(self).header(
                    second_block_index as int,
                ).next()
                &&& final(self).runs_view() == merged_runs(
                    old(self).runs_view(),
                    run_position(old(self).runs_view(), first_block_index as int),
                )
                &&& final(self).capacity_view() == old(self).capacity_view()
                &&& final(self).element_size_view() == old(self).element_size_view()
                &&& final(self).used_view() == old(self).used_view()
                &&& final(self).used_set() == old(self).used_set()
            },
            !r ==> *final(self) == *old(self),
    {
        let ghost i = run_position(self.free_runs@, first_block_index as int);
        let ghost j = run_position(self.free_runs@, second_block_index as int);
        let ghost s = self.free_runs@;
        proof {
            assert(self.blocks@[s[i].0 as int].count() == s[i].1);
            assert(self.blocks@[s[j].0 as int].count() == s[j].1);
        }
        if !self.blocks_are_adjacent(first_block_index, second_block_index) {
            return false;
        }
        proof {
            if j <= i {
                assert(s[j].0 < s[j].0 + s[j].1);
            } else if j > i + 1 {
                assert(s[i + 1].0 + s[i + 1].1 <= s[j].0);
            }
            assert(j == i + 1);
        }
        let second_block = self.blocks[second_block_index];
        let first_count = self.blocks[first_block_index].get_n_elements();
        proof {
            lemma_merged_runs(s, self.blocks@.len() as nat, i);
            if i + 2 < s.len() {
                assert(s[i + 2].0 < s[i + 2].0 + s[i + 2].1);
            }
        }
        self.new_block(
            first_block_index,
            first_count + second_block.get_n_elements(),
            second_block.get_next_block_index(),
        );
        self.free_runs = Ghost(merged_runs(s, i));
        proof {
            let t = self.free_runs@;
            assert forall|j: int| 0 <= j < t.len() implies (#[trigger] self.blocks@[t[j].0 as int]).count()
                == t[j].1 && self.blocks@[t[j].0 as int].next() == next_start(t, j) by {
                if j < i {
                    assert(t[j] == s[j]);
                } else if j > i {
                    assert(t[j] == s[j + 1]);
                }
            }
            assert(self.used_set() =~= old(self).used_set());
        }
        true
    }

    /// Makes the `element_count` slots from `index` on, all in use, a free
    /// run at position `q` of the list, between the run that starts at
    /// `prev_block_index` and the run that starts at `next_block_index`.
    #[verifier::rlimit(40)]
    fn link_free_run(
        &mut self,
        prev_block_index: Option<usize>,
        index: usize,
        element_count: usize,
        next_block_index: Option<usize>,
        Ghost(q): Ghost<int>,
    )
        requires
            old(self).wf(),
            0 <= q <= old(self).runs_view().len(),
            prev_block_index == (if q == 0 {
                None
            } else {
                Some(old(self).runs_view()[q - 1].0 as usize)
            }),
            next_block_index == (if q < old(self).runs_view().len() {
                Some(old(self).runs_view()[q].0 as usize)
            } else {
                None::<usize>
            }),
            element_count > 0,
            index + element_count <= old(self).capacity_view(),
            q > 0 ==> old(self).runs_view()[q - 1].0 + old(self).runs_view()[q - 1].1 <= index,
            q < old(self).runs_view().len() ==> index + element_count <= old(
                self,
            ).runs_view()[q].0,
        ensures
            final(self).wf(),
            final(self).growth_policy() == old(self).growth_policy(),
            final(self).runs_view() == old(self).runs_view().insert(
                q,
                (index as nat, element_count as nat),
            ),
            final(self).capacity_view() == old(self).capacity_view(),
            final(self).element_size_view() == old(self).element_size_view(),
            final(self).used_view() == old(self).used_view() - element_count,
            final(self).used_set() == old(self).used_set().difference(
                range_set(index as int, element_count as int),
            ),
    {
        let ghost s = self.free_runs@;
        let ghost cap = self.blocks@.len();
        proof {
            lemma_inserted_runs(s, cap, q, index as nat, element_count as nat);
            lemma_sum_bounded(s.insert(q, (index as nat, element_count as nat)), cap);
            if q > 0 {
                assert(s[q - 1].0 < s[q - 1].0 + s[q - 1].1);
            }
            if q < s.len() {
                assert(s[q].0 < s[q].0 + s[q].1);
            }
        }
        self.new_block(index, element_count, next_block_index);
        match prev_block_index {
            None => self.first_free_block = Some(index),
            Some(prev) => self.connect_blocks(prev, Some(index)),
        }
        self.used_blocks = self.used_blocks - element_count;
        self.free_runs = Ghost(s.insert(q, (index as nat, element_count as nat)));
        proof {
            let t = self.free_runs@;
            assert forall|j: int| 0 <= j < t.len() implies (#[trigger] self.blocks@[t[j].0 as int]).count()
                == t[j].1 && self.blocks@[t[j].0 as int].next() == next_start(t, j) by {
                if j < q {
                    assert(t[j] == s[j]);
                } else if j > q {
                    assert(t[j] == s[j - 1]);
                }
            }
            let range = range_set(index as int, element_count as int);
            assert(self.used_set() =~= old(self).used_set().difference(range)) by {
                lemma_inserted_runs(s, cap, q, index as nat, element_count as nat);
                assert(self.blocks@.len() == cap);
                assert(t == s.insert(q, (index as nat, element_count as nat)));
            }
        }
    }

    /// Gives the `element_count` slots from `index` on back to the arena.
    ///
    /// The range becomes a run put in the list by address, and is merged
    /// with the run before it and the run after it where they touch it. Fails
    /// with `Overlap`, changing nothing, unless every slot of the range is in
    /// use.
    pub fn release(&mut self, index: usize, element_count: usize) -> (r: Result<
        (),
        FreelistError,
    >)
        requires
            old(self).wf(),
        ensures
            final(self).wf(),
            final(self).growth_policy() == old(self).growth_policy(),
            final(self).capacity_view() == old(self).capacity_view(),
            final(self).element_size_view() == old(self).element_size_view(),
            r is Ok <==> range_set(index as int, element_count as int).subset_of(
                old(self).used_set(),
            ),
            r matches Err(e) ==> e == FreelistError::Overlap && *final(self) == *old(self),
            r is Ok ==> final(self).used_view() == old(self).used_view() - element_count
                && final(self).used_set() == old(self).used_set().difference(
                range_set(index as int, element_count as int),
            ),
    {
        let ghost s = self.free_runs@;
        let ghost range = range_set(index as int, element_count as int);
        if element_count == 0 {
            proof {
                assert(old(self).used_set().difference(range) =~= old(self).used_set());
            }
            return Ok(());
        }
        let capacity = self.blocks.len();
        if index >= capacity || element_count > capacity - index {
            proof {
                let k = if index >= capacity {
                    index as int
                } else {
                    capacity as int
                };
                assert(range.contains(k) && !self.used_set().contains(k));
            }
            return Err(FreelistError::Overlap);
        }
        let mut prev_block_index: Option<usize> = None;
        let mut current = self.first_free_block;
        let ghost mut q: int = 0;
        loop
            invariant
                self.wf(),
                *self == *old(self),
                s == self.free_runs@,
                0 <= q <= s.len(),
                forall|j: int| 0 <= j < q ==> #[trigger] s[j].0 < index,
                current == (if q < s.len() {
                    Some(s[q].0 as usize)
                } else {
                    None::<usize>
                }),
                prev_block_index == (if q == 0 {
                    None
                } else {
                    Some(s[q - 1].0 as usize)
                }),
            ensures
                self.wf(),
                *self == *old(self),
                s == self.free_runs@,
                0 <= q <= s.len(),
                forall|j: int| 0 <= j < q ==> #[trigger] s[j].0 < index,
                q < s.len() ==> s[q].0 >= index,
                current == (if q < s.len() {
                    Some(s[q].0 as usize)
                } else {
                    None::<usize>
                }),
                prev_block_index == (if q == 0 {
                    None
                } else {
                    Some(s[q - 1].0 as usize)
                }),
            decreases s.len() - q,
        {
            match current {
                None => break,
                Some(c) => {
                    if c >= index {
                        break;
                    }
                    prev_block_index = current;
                    current = self.blocks[c].get_next_block_index();
                    proof {
                        q = q + 1;
                    }
                },
            }
        }
        proof {
            if q > 0 {
                assert(self.blocks@[s[q - 1].0 as int].count() == s[q - 1].1);
            }
        }
        if let Some(prev) = prev_block_index {
            if prev + self.blocks[prev].get_n_elements() > index {
                proof {
                    assert(s[q - 1].0 <= index < s[q - 1].0 + s[q - 1].1);
                    assert(range.contains(index as int) && !self.used_set().contains(index as int));
                }
                return Err(FreelistError::Overlap);
            }
        }
        if let Some(next) = current {
            if next < index + element_count {
                proof {
                    assert(s[q].0 <= next < s[q].0 + s[q].1);
                    assert(range.contains(next as int) && !self.used_set().contains(next as int));
                }
                return Err(FreelistError::Overlap);
            }
        }
        proof {
            lemma_gap_uncovered(s, capacity as nat, q, index as nat, element_count as nat);
            assert(range.subset_of(self.used_set()));
        }
        self.link_free_run(prev_block_index, index, element_count, current, Ghost(q));
        if let Some(next) = current {
            proof {
                let t = self.free_runs@;
                lemma_run_position(t, capacity as nat, q);
                lemma_run_position(t, capacity as nat, q + 1);
            }
            self.attempt_merge(index, next);
        }
        if let Some(prev) = prev_block_index {
            proof {
                let t = self.free_runs@;
                assert(t[q].0 == index && t[q - 1].0 == prev);
                lemma_run_position(t, capacity as nat, q);
                lemma_run_position(t, capacity as nat, q - 1);
            }
            self.attempt_merge(prev, index);
        }
        Ok(())
    }

    /// Finds the start of the last free run, if any.
    fn find_last_block_index(&self) -> (r: Option<usize>)
        requires
            self.wf(),
        ensures
            r == (if self.runs_view().len() == 0 {
                None
            } else {
                Some(self.runs_view().last().0 as usize)
            }),
    {
        let ghost s = self.free_runs@;
        let mut current_block_index = match self.first_free_block {
            None => {
                return None;
            },
            Some(index) => index,
        };
        let ghost mut i: int = 0;
        loop
            invariant
                self.wf(),
                s == self.free_runs@,
                0 <= i < s.len(),
                current_block_index == s[i].0 as usize,
            decreases s.len() - i,
        {
            match self.blocks[current_block_index].get_next_block_index() {
                None => {
                    return Some(current_block_index);
                },
                Some(next) => {
                    current_block_index = next;
                    proof {
                        i = i + 1;
                    }
                },
            }
        }
    }

    /// Whether the last free run ends where the arena ends; false when no
    /// run is free.
    fn is_last_block_at_end(&self) -> (r: bool)
        requires
            self.wf(),
        ensures
            r == (self.runs_view().len() > 0 && self.runs_view().last().0
                + self.runs_view().last().1 == self.capacity_view()),
    {
        match self.find_last_block_index() {
            None => false,
            Some(last) => last + self.blocks[last].get_n_elements() == self.blocks.len(),
        }
    }
}

} // verus!
