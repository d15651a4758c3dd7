//! Enumeration helpers used to exhibit finite state spaces.
use vstd::prelude::*;

verus! {

/// All pairs (x, y) with x drawn from `xs` and y from `ys`.
pub open spec fn cross<A, B>(xs: Seq<A>, ys: Seq<B>) -> Seq<(A, B)>
    decreases xs.len(),
{
    if xs.len() == 0 {
        Seq::empty()
    } else {
        cross(xs.drop_last(), ys) + ys.map(|i: int, y: B| (xs.last(), y))
    }
}

pub proof fn lemma_cross_contains<A, B>(xs: Seq<A>, ys: Seq<B>, a: A, b: B)
    requires
        xs.contains(a),
        ys.contains(b),
    ensures
        cross(xs, ys).contains((a, b)),
    decreases xs.len(),
{
    let i = choose|i: int| 0 <= i < xs.len() && xs[i] == a;
    let jb = choose|j: int| 0 <= j < ys.len() && ys[j] == b;
    if i == xs.len() - 1 {
        let mapped = ys.map(|k: int, y: B| (xs.last(), y));
        assert(mapped[jb] == (a, b));
        assert(cross(xs, ys)[cross(xs.drop_last(), ys).len() + jb] == (a, b));
    } else {
        assert(xs.drop_last()[i] == a);
        assert(xs.drop_last().contains(a));
        lemma_cross_contains(xs.drop_last(), ys, a, b);
        let prev = cross(xs.drop_last(), ys);
        let k = choose|k: int| 0 <= k < prev.len() && prev[k] == (a, b);
        assert(cross(xs, ys)[k] == (a, b));
    }
}

/// The integers 0, 1, ..., n-1 in order.
pub open spec fn int_range(n: nat) -> Seq<int>
    decreases n,
{
    if n == 0 {
        Seq::empty()
    } else {
        int_range((n - 1) as nat).push(n - 1)
    }
}

pub proof fn lemma_int_range_contains(n: nat, i: int)
    requires
        0 <= i < n,
    ensures
        int_range(n).contains(i),
    decreases n,
{
    if i == n - 1 {
        assert(int_range(n)[int_range(n).len() - 1] == i);
    } else {
        lemma_int_range_contains((n - 1) as nat, i);
        let prev = int_range((n - 1) as nat);
        let k = choose|k: int| 0 <= k < prev.len() && prev[k] == i;
        assert(int_range(n)[k] == i);
    }
}

} // verus!
