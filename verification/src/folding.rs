//! Steps applied one after the other, and when their order does not matter.

use vstd::prelude::*;

verus! {

/// The state after the steps `ds` are applied to `s` in their order.
pub open spec fn fold_steps<S, D>(s: S, ds: Seq<D>, step: spec_fn(S, D) -> S) -> S
    decreases ds.len(),
{
    if ds.len() == 0 {
        s
    } else {
        step(fold_steps(s, ds.drop_last(), step), ds.last())
    }
}

/// Whether every two of the steps stand in the relation `rel`.
pub open spec fn pairwise<D>(ds: Seq<D>, rel: spec_fn(D, D) -> bool) -> bool {
    forall|i: int, j: int|
        0 <= i < ds.len() && 0 <= j < ds.len() ==> rel(#[trigger] ds[i], #[trigger] ds[j])
}

/// Whether a step keeps the states good.
pub open spec fn keeps_good<S, D>(step: spec_fn(S, D) -> S, good: spec_fn(S) -> bool) -> bool {
    forall|s: S, d: D| good(s) ==> good(#[trigger] step(s, d))
}

/// Whether two related steps may be applied to a good state in either order.
pub open spec fn related_steps_commute<S, D>(
    step: spec_fn(S, D) -> S,
    good: spec_fn(S) -> bool,
    rel: spec_fn(D, D) -> bool,
) -> bool {
    forall|s: S, d1: D, d2: D|
        good(s) && rel(d1, d2) ==> #[trigger] step(step(s, d1), d2) == step(step(s, d2), d1)
}

/// Steps that keep the states good lead from a good state to a good state.
pub proof fn lemma_fold_good<S, D>(
    s: S,
    ds: Seq<D>,
    step: spec_fn(S, D) -> S,
    good: spec_fn(S) -> bool,
)
    requires
        good(s),
        keeps_good(step, good),
    ensures
        good(fold_steps(s, ds, step)),
    decreases ds.len(),
{
    if ds.len() > 0 {
        lemma_fold_good(s, ds.drop_last(), step, good);
    }
}

/// Applying two lists of steps one after the other is applying their
/// concatenation.
pub proof fn lemma_fold_concat<S, D>(s: S, a: Seq<D>, b: Seq<D>, step: spec_fn(S, D) -> S)
    ensures
        fold_steps(fold_steps(s, a, step), b, step) == fold_steps(s, a + b, step),
    decreases b.len(),
{
    if b.len() == 0 {
        assert(a + b =~= a);
    } else {
        lemma_fold_concat(s, a, b.drop_last(), step);
        assert((a + b).drop_last() =~= a + b.drop_last());
        assert((a + b).last() == b.last());
    }
}

proof fn lemma_pairwise_without<D>(ds: Seq<D>, i: int, rel: spec_fn(D, D) -> bool)
    requires
        pairwise(ds, rel),
        0 <= i < ds.len(),
    ensures
        pairwise(ds.remove(i), rel),
{
    let rest = ds.remove(i);
    assert forall|p: int, q: int| 0 <= p < rest.len() && 0 <= q < rest.len() implies rel(
        #[trigger] rest[p],
        #[trigger] rest[q],
    ) by {
        let pp = if p < i {
            p
        } else {
            p + 1
        };
        let qq = if q < i {
            q
        } else {
            q + 1
        };
        assert(rest[p] == ds[pp] && rest[q] == ds[qq]);
    }
}

/// A step of a list may be applied last instead of at its place.
pub proof fn lemma_fold_step_last<S, D>(
    s: S,
    ds: Seq<D>,
    i: int,
    step: spec_fn(S, D) -> S,
    good: spec_fn(S) -> bool,
    rel: spec_fn(D, D) -> bool,
)
    requires
        good(s),
        keeps_good(step, good),
        related_steps_commute(step, good, rel),
        pairwise(ds, rel),
        0 <= i < ds.len(),
    ensures
        fold_steps(s, ds, step) == fold_steps(s, ds.remove(i).push(ds[i]), step),
    decreases ds.len(),
{
    let x = ds[i];
    let last = ds.last();
    let front = ds.drop_last();
    if i == ds.len() - 1 {
        assert(ds.remove(i).push(x) =~= ds);
    } else {
        assert(front =~= ds.remove(ds.len() - 1));
        lemma_pairwise_without(ds, ds.len() - 1, rel);
        lemma_fold_step_last(s, front, i, step, good, rel);
        let rest = front.remove(i);
        let base = fold_steps(s, rest, step);
        assert(front[i] == x);
        assert(rest.push(x).drop_last() =~= rest);
        assert(fold_steps(s, front, step) == step(base, x));
        lemma_fold_good(s, rest, step, good);
        assert(rel(x, last)) by {
            assert(ds[i] == x && ds[ds.len() - 1] == last);
        }
        assert(step(step(base, x), last) == step(step(base, last), x));
        let moved = ds.remove(i);
        assert(rest.push(last) =~= moved);
        assert(moved.drop_last() =~= rest);
        assert(moved.last() == last);
        assert(fold_steps(s, moved, step) == step(base, last));
        assert(moved.push(x).drop_last() =~= moved);
        assert(fold_steps(s, moved.push(x), step) == step(fold_steps(s, moved, step), x));
        assert(fold_steps(s, ds, step) == step(fold_steps(s, front, step), last));
    }
}

/// Steps that are pairwise related lead to the same state in whatever order
/// they are applied.
pub proof fn lemma_fold_permutation<S, D>(
    s: S,
    a: Seq<D>,
    b: Seq<D>,
    step: spec_fn(S, D) -> S,
    good: spec_fn(S) -> bool,
    rel: spec_fn(D, D) -> bool,
)
    requires
        good(s),
        keeps_good(step, good),
        related_steps_commute(step, good, rel),
        pairwise(a, rel),
        a.to_multiset() == b.to_multiset(),
    ensures
        fold_steps(s, a, step) == fold_steps(s, b, step),
    decreases b.len(),
{
    vstd::seq_lib::to_multiset_len(a);
    vstd::seq_lib::to_multiset_len(b);
    if b.len() > 0 {
        let x = b.last();
        let rest_b = b.drop_last();
        assert(rest_b.push(x) =~= b);
        vstd::seq_lib::to_multiset_build(rest_b, x);
        vstd::seq_lib::to_multiset_contains(a, x);
        assert(b.to_multiset().count(x) > 0);
        let i = choose|i: int| 0 <= i < a.len() && a[i] == x;
        let rest_a = a.remove(i);
        vstd::seq_lib::to_multiset_remove(a, i);
        assert(rest_a.to_multiset() =~= rest_b.to_multiset());
        lemma_pairwise_without(a, i, rel);
        lemma_fold_step_last(s, a, i, step, good, rel);
        lemma_fold_permutation(s, rest_a, rest_b, step, good, rel);
        assert(rest_a.push(x).drop_last() =~= rest_a);
    } else {
        assert(a.len() == 0);
    }
}

} // verus!
