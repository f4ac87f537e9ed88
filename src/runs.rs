use vstd::prelude::*;

verus! {

/// The free runs of an arena in list order, each as `(start, count)`: the
/// slots `start .. start + count` are free.
pub type Runs = Seq<(nat, nat)>;

/// The total number of slots in the runs.
pub open spec fn sum_counts(s: Runs) -> nat
    decreases s.len(),
{
    if s.len() == 0 {
        0
    } else {
        sum_counts(s.drop_last()) + s.last().1
    }
}

/// Every run holds a slot and lies below `cap`, and the runs come in
/// increasing order of address without overlapping.
pub open spec fn runs_ordered(s: Runs, cap: nat) -> bool {
    &&& forall|i: int| 0 <= i < s.len() ==> #[trigger] s[i].1 > 0 && s[i].0 + s[i].1 <= cap
    &&& forall|i: int, j: int| 0 <= i < j < s.len() ==> #[trigger] s[i].0 + s[i].1 <= #[trigger] s[j].0
}

/// Slot `k` lies in one of the runs.
pub open spec fn covers(s: Runs, k: int) -> bool {
    exists|i: int| 0 <= i < s.len() && #[trigger] s[i].0 <= k < s[i].0 + s[i].1
}

/// The position of the first run that holds at least `n` slots.
pub open spec fn first_fit(s: Runs, n: nat) -> Option<nat>
    decreases s.len(),
{
    if s.len() == 0 {
        None
    } else if s[0].1 >= n {
        Some(0)
    } else {
        match first_fit(s.drop_first(), n) {
            Some(p) => Some(p + 1),
            None => None,
        }
    }
}

/// Where a request that no run serves is placed once the arena has grown:
/// the start of the last run if it ends at the capacity, else the capacity.
pub open spec fn tail_start(s: Runs, cap: nat) -> nat {
    if s.len() > 0 && s.last().0 + s.last().1 == cap {
        s.last().0
    } else {
        cap
    }
}

/// The runs after the arena grows from `cap` to `new_cap` slots: the last run
/// is extended when it ends at `cap`, else a run of the new slots is appended.
pub open spec fn grown_runs(s: Runs, cap: nat, new_cap: nat) -> Runs {
    if s.len() > 0 && s.last().0 + s.last().1 == cap {
        s.update(s.len() - 1, (s.last().0, (s.last().1 + new_cap - cap) as nat))
    } else {
        s.push((cap, (new_cap - cap) as nat))
    }
}

/// The runs after the first `n` slots of the run at `p` are taken: the run
/// leaves the list when it is used up, else it starts `n` slots later.
pub open spec fn committed_runs(s: Runs, p: int, n: nat) -> Runs {
    if s[p].1 == n {
        s.remove(p)
    } else {
        s.update(p, ((s[p].0 + n) as nat, (s[p].1 - n) as nat))
    }
}

/// The runs after the run at `i` absorbs the run that follows it.
pub open spec fn merged_runs(s: Runs, i: int) -> Runs {
    s.update(i, (s[i].0, s[i].1 + s[i + 1].1)).remove(i + 1)
}

pub proof fn lemma_sum_update(s: Runs, i: int, v: (nat, nat))
    requires
        0 <= i < s.len(),
    ensures
        sum_counts(s.update(i, v)) == sum_counts(s) - s[i].1 + v.1,
    decreases s.len(),
{
    let t = s.update(i, v);
    if i == s.len() - 1 {
        assert(t.drop_last() =~= s.drop_last());
    } else {
        assert(t.drop_last() =~= s.drop_last().update(i, v));
        lemma_sum_update(s.drop_last(), i, v);
    }
}

pub proof fn lemma_sum_remove(s: Runs, i: int)
    requires
        0 <= i < s.len(),
    ensures
        sum_counts(s.remove(i)) == sum_counts(s) - s[i].1,
    decreases s.len(),
{
    if i == s.len() - 1 {
        assert(s.remove(i) =~= s.drop_last());
    } else {
        assert(s.remove(i).drop_last() =~= s.drop_last().remove(i));
        lemma_sum_remove(s.drop_last(), i);
    }
}

pub proof fn lemma_sum_insert(s: Runs, i: int, v: (nat, nat))
    requires
        0 <= i <= s.len(),
    ensures
        sum_counts(s.insert(i, v)) == sum_counts(s) + v.1,
    decreases s.len(),
{
    if i == s.len() {
        assert(s.insert(i, v).drop_last() =~= s);
    } else {
        assert(s.insert(i, v).drop_last() =~= s.drop_last().insert(i, v));
        lemma_sum_insert(s.drop_last(), i, v);
    }
}

pub proof fn lemma_sum_push(s: Runs, v: (nat, nat))
    ensures
        sum_counts(s.push(v)) == sum_counts(s) + v.1,
{
    assert(s.push(v).drop_last() =~= s);
}

/// Ordered runs below `cap` hold at most `cap` slots.
pub proof fn lemma_sum_bounded(s: Runs, cap: nat)
    requires
        runs_ordered(s, cap),
    ensures
        sum_counts(s) <= cap,
        s.len() > 0 ==> sum_counts(s) <= s.last().0 + s.last().1,
    decreases s.len(),
{
    if s.len() > 0 {
        let t = s.drop_last();
        assert(runs_ordered(t, cap));
        lemma_sum_bounded(t, cap);
        if t.len() > 0 {
            assert(t.last() == s[s.len() - 2]);
        }
    }
}

/// `first_fit` is the first position whose run is large enough.
pub proof fn lemma_first_fit(s: Runs, n: nat)
    ensures
        match first_fit(s, n) {
            Some(p) => p < s.len() && s[p as int].1 >= n && forall|j: int|
                0 <= j < p ==> #[trigger] s[j].1 < n,
            None => forall|j: int| 0 <= j < s.len() ==> #[trigger] s[j].1 < n,
        },
    decreases s.len(),
{
    if s.len() > 0 && s[0].1 < n {
        let t = s.drop_first();
        lemma_first_fit(t, n);
        assert forall|j: int| 1 <= j < s.len() implies s[j] == #[trigger] t[j - 1] by {}
        match first_fit(t, n) {
            Some(p) => {
                assert forall|j: int| 0 <= j < p + 1 implies #[trigger] s[j].1 < n by {
                    if j > 0 {
                        assert(s[j] == t[j - 1]);
                    }
                }
            },
            None => {
                assert forall|j: int| 0 <= j < s.len() implies #[trigger] s[j].1 < n by {
                    if j > 0 {
                        assert(s[j] == t[j - 1]);
                    }
                }
            },
        }
    }
}

/// Taking the first `n` slots of a run frees exactly those slots of the runs.
#[verifier::rlimit(40)]
pub proof fn lemma_committed_runs(s: Runs, cap: nat, p: int, n: nat)
    requires
        runs_ordered(s, cap),
        0 <= p < s.len(),
        n <= s[p].1,
    ensures
        runs_ordered(committed_runs(s, p, n), cap),
        sum_counts(committed_runs(s, p, n)) == sum_counts(s) - n,
        forall|k: int|
            covers(committed_runs(s, p, n), k) <==> covers(s, k) && !(s[p].0 <= k < s[p].0 + n),
{
    let t = committed_runs(s, p, n);
    if s[p].1 == n {
        lemma_sum_remove(s, p);
        assert forall|k: int| covers(t, k) <==> covers(s, k) && !(s[p].0 <= k < s[p].0 + n) by {
            if covers(t, k) {
                let i = choose|i: int| 0 <= i < t.len() && #[trigger] t[i].0 <= k < t[i].0 + t[i].1;
                if i < p {
                    assert(t[i] == s[i]);
                } else {
                    assert(t[i] == s[i + 1]);
                }
            }
            if covers(s, k) && !(s[p].0 <= k < s[p].0 + n) {
                let i = choose|i: int| 0 <= i < s.len() && #[trigger] s[i].0 <= k < s[i].0 + s[i].1;
                if i < p {
                    assert(t[i] == s[i]);
                } else {
                    assert(t[i - 1] == s[i]);
                }
            }
        }
    } else {
        lemma_sum_update(s, p, ((s[p].0 + n) as nat, (s[p].1 - n) as nat));
        assert forall|k: int| covers(t, k) <==> covers(s, k) && !(s[p].0 <= k < s[p].0 + n) by {
            if covers(t, k) {
                let i = choose|i: int| 0 <= i < t.len() && #[trigger] t[i].0 <= k < t[i].0 + t[i].1;
                assert(s[i].0 <= k < s[i].0 + s[i].1);
            }
            if covers(s, k) && !(s[p].0 <= k < s[p].0 + n) {
                let i = choose|i: int| 0 <= i < s.len() && #[trigger] s[i].0 <= k < s[i].0 + s[i].1;
                assert(t[i].0 <= k < t[i].0 + t[i].1);
            }
        }
    }
}

/// Growing the arena from `cap` to `new_cap` frees exactly the new slots.
pub proof fn lemma_grown_runs(s: Runs, cap: nat, new_cap: nat)
    requires
        runs_ordered(s, cap),
        cap < new_cap,
    ensures
        runs_ordered(grown_runs(s, cap, new_cap), new_cap),
        sum_counts(grown_runs(s, cap, new_cap)) == sum_counts(s) + (new_cap - cap),
        grown_runs(s, cap, new_cap).len() > 0,
        grown_runs(s, cap, new_cap).last().0 == tail_start(s, cap),
        grown_runs(s, cap, new_cap).last().0 + grown_runs(s, cap, new_cap).last().1 == new_cap,
        grown_runs(s, cap, new_cap).len() - 1 <= s.len(),
        forall|j: int|
            0 <= j < grown_runs(s, cap, new_cap).len() - 1 ==> #[trigger] grown_runs(
                s,
                cap,
                new_cap,
            )[j] == s[j],
        forall|k: int|
            covers(grown_runs(s, cap, new_cap), k) <==> covers(s, k) || cap <= k < new_cap,
{
    let t = grown_runs(s, cap, new_cap);
    if s.len() > 0 && s.last().0 + s.last().1 == cap {
        let l = s.len() - 1;
        lemma_sum_update(s, l, (s.last().0, (s.last().1 + new_cap - cap) as nat));
        assert forall|k: int| covers(t, k) <==> covers(s, k) || cap <= k < new_cap by {
            if covers(t, k) {
                let i = choose|i: int| 0 <= i < t.len() && #[trigger] t[i].0 <= k < t[i].0 + t[i].1;
                if i != l {
                    assert(s[i].0 <= k < s[i].0 + s[i].1);
                } else if k < cap {
                    assert(s[l].0 <= k < s[l].0 + s[l].1);
                }
            }
            if covers(s, k) {
                let i = choose|i: int| 0 <= i < s.len() && #[trigger] s[i].0 <= k < s[i].0 + s[i].1;
                assert(t[i].0 <= k < t[i].0 + t[i].1);
            }
            if cap <= k < new_cap {
                assert(t[l].0 <= k < t[l].0 + t[l].1);
            }
        }
    } else {
        lemma_sum_push(s, (cap, (new_cap - cap) as nat));
        let l = s.len() as int;
        assert forall|k: int| covers(t, k) <==> covers(s, k) || cap <= k < new_cap by {
            if covers(t, k) {
                let i = choose|i: int| 0 <= i < t.len() && #[trigger] t[i].0 <= k < t[i].0 + t[i].1;
                if i < l {
                    assert(s[i].0 <= k < s[i].0 + s[i].1);
                }
            }
            if covers(s, k) {
                let i = choose|i: int| 0 <= i < s.len() && #[trigger] s[i].0 <= k < s[i].0 + s[i].1;
                assert(t[i].0 <= k < t[i].0 + t[i].1);
            }
            if cap <= k < new_cap {
                assert(t[l].0 <= k < t[l].0 + t[l].1);
            }
        }
    }
}

/// Putting a run of the free slots `x .. x + n` between its neighbours in
/// address order keeps the runs ordered and frees exactly those slots.
pub proof fn lemma_inserted_runs(s: Runs, cap: nat, q: int, x: nat, n: nat)
    requires
        runs_ordered(s, cap),
        0 <= q <= s.len(),
        n > 0,
        x + n <= cap,
        q > 0 ==> s[q - 1].0 + s[q - 1].1 <= x,
        q < s.len() ==> x + n <= s[q].0,
    ensures
        runs_ordered(s.insert(q, (x, n)), cap),
        sum_counts(s.insert(q, (x, n))) == sum_counts(s) + n,
        forall|k: int| covers(s.insert(q, (x, n)), k) <==> covers(s, k) || x <= k < x + n,
{
    let t = s.insert(q, (x, n));
    lemma_sum_insert(s, q, (x, n));
    assert(t.len() == s.len() + 1);
    assert(t[q] == (x, n));
    assert forall|j: int| 0 <= j < q implies #[trigger] t[j] == s[j] by {}
    assert forall|j: int| q < j < t.len() implies #[trigger] t[j] == s[j - 1] by {}
    assert forall|i: int, j: int| 0 <= i < j < t.len() implies #[trigger] t[i].0 + t[i].1
        <= #[trigger] t[j].0 by {
        if i < q && j == q {
            assert(s[i].0 + s[i].1 <= s[q - 1].0 + s[q - 1].1);
        } else if i == q && j > q {
            assert(t[j] == s[j - 1]);
            assert(s[q].0 <= s[j - 1].0);
        }
    }
    assert forall|k: int| covers(t, k) <==> covers(s, k) || x <= k < x + n by {
        if covers(t, k) {
            let i = choose|i: int| 0 <= i < t.len() && #[trigger] t[i].0 <= k < t[i].0 + t[i].1;
            if i < q {
                assert(s[i].0 <= k < s[i].0 + s[i].1);
            } else if i > q {
                assert(s[i - 1].0 <= k < s[i - 1].0 + s[i - 1].1);
            }
        }
        if covers(s, k) {
            let i = choose|i: int| 0 <= i < s.len() && #[trigger] s[i].0 <= k < s[i].0 + s[i].1;
            if i < q {
                assert(t[i].0 <= k < t[i].0 + t[i].1);
            } else {
                assert(t[i + 1].0 <= k < t[i + 1].0 + t[i + 1].1);
            }
        }
        if x <= k < x + n {
            assert(t[q].0 <= k < t[q].0 + t[q].1);
        }
    }
}

/// Merging a run with the run that starts where it ends keeps the runs
/// ordered and the free slots as they were.
pub proof fn lemma_merged_runs(s: Runs, cap: nat, i: int)
    requires
        runs_ordered(s, cap),
        0 <= i && i + 1 < s.len(),
        s[i].0 + s[i].1 == s[i + 1].0,
    ensures
        runs_ordered(merged_runs(s, i), cap),
        sum_counts(merged_runs(s, i)) == sum_counts(s),
        forall|k: int| covers(merged_runs(s, i), k) <==> covers(s, k),
{
    let u = s.update(i, (s[i].0, s[i].1 + s[i + 1].1));
    let t = merged_runs(s, i);
    lemma_sum_update(s, i, (s[i].0, s[i].1 + s[i + 1].1));
    lemma_sum_remove(u, i + 1);
    assert(t.len() == s.len() - 1);
    assert(t[i] == (s[i].0, s[i].1 + s[i + 1].1));
    assert forall|j: int| 0 <= j < i implies #[trigger] t[j] == s[j] by {}
    assert forall|j: int| i < j < t.len() implies #[trigger] t[j] == s[j + 1] by {
        assert(t[j] == u[j + 1]);
    }
    assert forall|a: int, b: int| 0 <= a < b < t.len() implies #[trigger] t[a].0 + t[a].1
        <= #[trigger] t[b].0 by {
        if a < i {
            assert(t[a] == s[a]);
            if b == i {
                assert(s[a].0 + s[a].1 <= s[i].0);
            } else if b > i {
                assert(t[b] == s[b + 1]);
            }
        } else if a == i {
            assert(t[b] == s[b + 1]);
            assert(s[i + 1].0 + s[i + 1].1 <= s[b + 1].0);
        } else {
            assert(t[a] == s[a + 1]);
            assert(t[b] == s[b + 1]);
        }
    }
    assert forall|k: int| covers(t, k) <==> covers(s, k) by {
        if covers(t, k) {
            let a = choose|a: int| 0 <= a < t.len() && #[trigger] t[a].0 <= k < t[a].0 + t[a].1;
            if a < i {
                assert(s[a].0 <= k < s[a].0 + s[a].1);
            } else if a == i {
                if k < s[i].0 + s[i].1 {
                    assert(s[i].0 <= k < s[i].0 + s[i].1);
                } else {
                    assert(s[i + 1].0 <= k < s[i + 1].0 + s[i + 1].1);
                }
            } else {
                assert(s[a + 1].0 <= k < s[a + 1].0 + s[a + 1].1);
            }
        }
        if covers(s, k) {
            let a = choose|a: int| 0 <= a < s.len() && #[trigger] s[a].0 <= k < s[a].0 + s[a].1;
            if a <= i {
                assert(t[a].0 <= k < t[a].0 + t[a].1);
            } else if a == i + 1 {
                assert(t[i].0 <= k < t[i].0 + t[i].1);
            } else {
                assert(t[a - 1].0 <= k < t[a - 1].0 + t[a - 1].1);
            }
        }
    }
}

/// No run covers a slot that lies between the run before position `q` and
/// the run at `q`.
pub proof fn lemma_gap_uncovered(s: Runs, cap: nat, q: int, x: nat, n: nat)
    requires
        runs_ordered(s, cap),
        0 <= q <= s.len(),
        q > 0 ==> s[q - 1].0 + s[q - 1].1 <= x,
        q < s.len() ==> x + n <= s[q].0,
    ensures
        forall|k: int| x <= k < x + n ==> !covers(s, k),
{
    assert forall|k: int| x <= k < x + n implies !covers(s, k) by {
        if covers(s, k) {
            let j = choose|j: int| 0 <= j < s.len() && #[trigger] s[j].0 <= k < s[j].0 + s[j].1;
            if j < q - 1 {
                assert(s[j].0 + s[j].1 <= s[q - 1].0);
            } else if j > q {
                assert(s[q].0 + s[q].1 <= s[j].0);
            }
        }
    }
}

/// A run of the list starts at `k`.
pub open spec fn starts_run(s: Runs, k: int) -> bool {
    exists|i: int| 0 <= i < s.len() && #[trigger] s[i].0 == k
}

/// The position of a run that starts at `k`; in ordered runs there is at
/// most one.
pub open spec fn run_position(s: Runs, k: int) -> int {
    choose|i: int| 0 <= i < s.len() && #[trigger] s[i].0 == k
}

/// In ordered runs no two runs start at the same slot.
pub proof fn lemma_run_position(s: Runs, cap: nat, i: int)
    requires
        runs_ordered(s, cap),
        0 <= i < s.len(),
    ensures
        starts_run(s, s[i].0 as int),
        run_position(s, s[i].0 as int) == i,
{
    assert(s[i].0 == s[i].0);
    let j = run_position(s, s[i].0 as int);
    if j < i {
        assert(s[j].0 + s[j].1 <= s[i].0);
    } else if j > i {
        assert(s[i].0 + s[i].1 <= s[j].0);
    }
}

} // verus!
