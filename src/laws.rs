use vstd::prelude::*;

use crate::freelist::{range_set, Freelist};
use crate::growth::GrowthPolicy;

verus! {

/// The sum of the numbers.
pub open spec fn total(counts: Seq<int>) -> int
    decreases counts.len(),
{
    if counts.len() == 0 {
        0
    } else {
        total(counts.drop_last()) + counts.last()
    }
}

/// Every well-formed arena, which is what each operation leaves, splits its
/// bytes exactly into free bytes and used bytes.
pub proof fn lemma_bytes_balance<T, P: GrowthPolicy>(fl: &Freelist<T, P>)
    requires
        fl.wf(),
    ensures
        fl.free_view() * fl.element_size_view() + fl.used_view() * fl.element_size_view()
            == fl.capacity_view() * fl.element_size_view(),
{
    fl.lemma_wf();
    let e = fl.element_size_view() as int;
    assert(fl.free_view() * e + fl.used_view() * e == (fl.free_view() + fl.used_view()) * e)
        by (nonlinear_arith);
}

/// Along a sequence of successful allocations, where `states[i + 1]` is what
/// allocating `counts[i]` slots from `starts[i]` on made of `states[i]`, the
/// ranges handed out are pairwise disjoint and the count of used slots grows
/// by the sum of the requests.
pub proof fn lemma_allocations_disjoint<T, P: GrowthPolicy>(
    states: Seq<Freelist<T, P>>,
    starts: Seq<int>,
    counts: Seq<int>,
)
    requires
        states.len() == starts.len() + 1,
        counts.len() == starts.len(),
        forall|i: int|
            0 <= i < starts.len() ==> #[trigger] states[i + 1].allocated_from(
                &states[i],
                starts[i],
                counts[i],
            ),
    ensures
        forall|i: int, j: int|
            0 <= i < j < starts.len() ==> #[trigger] range_set(starts[i], counts[i]).disjoint(
                range_set(starts[j], counts[j]),
            ),
        forall|i: int|
            0 <= i < starts.len() ==> #[trigger] starts[i] + counts[i]
                <= states.last().capacity_view(),
        states.last().used_view() == states[0].used_view() + total(counts),
{
    let n = starts.len() as int;
    assert forall|i: int| 0 <= i < n implies #[trigger] starts[i] + counts[i]
        <= states.last().capacity_view() by {
        assert(states[i + 1].allocated_from(&states[i], starts[i], counts[i]));
        if i + 1 < n {
            lemma_capacity_grows(states, starts, counts, i + 1, n);
        }
    }
    assert forall|i: int, m: int| 0 <= i < m <= n implies #[trigger] range_set(starts[i], counts[i]).subset_of(
        states[m].used_set(),
    ) by {
        lemma_range_stays_used(states, starts, counts, i, m);
    }
    assert forall|i: int, j: int| 0 <= i < j < n implies #[trigger] range_set(starts[i], counts[i]).disjoint(
        range_set(starts[j], counts[j]),
    ) by {
        assert(states[j + 1].allocated_from(&states[j], starts[j], counts[j]));
        assert(range_set(starts[i], counts[i]).subset_of(states[j].used_set()));
    }
    lemma_used_total(states, starts, counts, n);
    assert(counts.take(n) =~= counts);
}

/// A range handed out stays in use through the allocations that follow.
proof fn lemma_range_stays_used<T, P: GrowthPolicy>(
    states: Seq<Freelist<T, P>>,
    starts: Seq<int>,
    counts: Seq<int>,
    i: int,
    m: int,
)
    requires
        states.len() == starts.len() + 1,
        counts.len() == starts.len(),
        forall|k: int|
            0 <= k < starts.len() ==> #[trigger] states[k + 1].allocated_from(
                &states[k],
                starts[k],
                counts[k],
            ),
        0 <= i < m <= starts.len(),
    ensures
        range_set(starts[i], counts[i]).subset_of(states[m].used_set()),
    decreases m - i,
{
    let k = m - 1;
    assert(states[k + 1].allocated_from(&states[k], starts[k], counts[k]));
    if k > i {
        lemma_range_stays_used(states, starts, counts, i, m - 1);
    }
}

/// An allocation never shrinks the arena.
proof fn lemma_capacity_grows<T, P: GrowthPolicy>(
    states: Seq<Freelist<T, P>>,
    starts: Seq<int>,
    counts: Seq<int>,
    i: int,
    m: int,
)
    requires
        states.len() == starts.len() + 1,
        counts.len() == starts.len(),
        forall|k: int|
            0 <= k < starts.len() ==> #[trigger] states[k + 1].allocated_from(
                &states[k],
                starts[k],
                counts[k],
            ),
        0 <= i <= m <= starts.len(),
    ensures
        states[i].capacity_view() <= states[m].capacity_view(),
    decreases m - i,
{
    if i < m {
        let k = m - 1;
        assert(states[k + 1].allocated_from(&states[k], starts[k], counts[k]));
        lemma_capacity_grows(states, starts, counts, i, k);
    }
}

/// After the first `m` allocations the used count has grown by the sum of
/// their requests.
proof fn lemma_used_total<T, P: GrowthPolicy>(
    states: Seq<Freelist<T, P>>,
    starts: Seq<int>,
    counts: Seq<int>,
    m: int,
)
    requires
        states.len() == starts.len() + 1,
        counts.len() == starts.len(),
        forall|k: int|
            0 <= k < starts.len() ==> #[trigger] states[k + 1].allocated_from(
                &states[k],
                starts[k],
                counts[k],
            ),
        0 <= m <= starts.len(),
    ensures
        states[m].used_view() == states[0].used_view() + total(counts.take(m)),
    decreases m,
{
    if m > 0 {
        lemma_used_total(states, starts, counts, m - 1);
        assert(counts.take(m).drop_last() =~= counts.take(m - 1));
        let k = m - 1;
        assert(states[k + 1].allocated_from(&states[k], starts[k], counts[k]));
    } else {
        assert(counts.take(0) =~= Seq::<int>::empty());
    }
}

/// Reserving `n` slots and then `m > n` slots never shrinks the arena and
/// leaves room for at least `m` slots.
pub proof fn lemma_reserve_monotone<T, P: GrowthPolicy>(
    s0: &Freelist<T, P>,
    s1: &Freelist<T, P>,
    s2: &Freelist<T, P>,
    n: nat,
    m: nat,
)
    requires
        s1.reserved_from(s0, n),
        s2.reserved_from(s1, m),
        m > n,
    ensures
        s0.capacity_view() <= s1.capacity_view() <= s2.capacity_view(),
        s2.capacity_view() >= m,
{
}

/// Reserving no more slots than the arena holds leaves its capacity as it
/// was.
pub proof fn lemma_reserve_within_capacity<T, P: GrowthPolicy>(
    s0: &Freelist<T, P>,
    s1: &Freelist<T, P>,
    k: nat,
)
    requires
        s1.reserved_from(s0, k),
        k <= s0.capacity_view(),
    ensures
        s1.capacity_view() == s0.capacity_view(),
{
}

} // verus!
