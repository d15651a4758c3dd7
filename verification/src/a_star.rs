//! A best-first (A*) search engine over a pluggable domain.
//!
//! The engine is domain-independent: a domain supplies a state type, an
//! action type, a successor function and a heuristic through the [`Domain`]
//! trait.  Step costs are unsigned integers; cost bookkeeping saturates at
//! `u64::MAX`, which plays the role of the "+infinity" default for states
//! without a recorded score.
//!
//! Tie-break rule: among open states with the least f-score, the one at the
//! lowest position in the open list (i.e. the earliest inserted) is expanded
//! first.  This rule is deterministic but is not part of the verified
//! contract.
use vstd::prelude::*;

verus! {

/// A reachable state together with the step cost and the action producing it.
pub struct Neighbor<St, Act> {
    pub state: St,
    pub cost: u64,
    pub action: Act,
}

impl<St, Act> Neighbor<St, Act> {
    pub fn new(state: St, cost: u64, action: Act) -> (r: Neighbor<St, Act>)
        ensures
            r.state == state,
            r.cost == cost,
            r.action == action,
    {
        Neighbor { state, cost, action }
    }
}

/// The single failure mode of the engine: the open set was exhausted
/// without reaching a state whose heuristic value is zero.
#[derive(Clone, Copy, Debug, PartialEq, Eq)]
pub struct SearchExhausted;

/// The contract a domain must implement to plug into the engine.
///
/// `h` and `succs` are the mathematical models of the heuristic and the
/// successor function; the executable methods are bound to them exactly.
/// `space` obliges the domain to exhibit a finite enumeration of its valid
/// states, which is what lets the engine terminate.
pub trait Domain: Sized {
    type St: View;

    type Act: View;

    /// Invariant of the static domain data (the world description).
    spec fn inv(&self) -> bool;

    /// Invariant of a state value; preserved by all successors.
    spec fn st_inv(&self, s: <Self::St as View>::V) -> bool;

    /// Mathematical heuristic: an estimate of the remaining cost; a state
    /// is a goal exactly when this is zero.
    spec fn h(&self, s: <Self::St as View>::V) -> nat;

    /// Mathematical successor relation: every legal transition out of `s`,
    /// as (resulting state, step cost, action label), in generation order.
    spec fn succs(&self, s: <Self::St as View>::V) -> Seq<
        (<Self::St as View>::V, nat, <Self::Act as View>::V),
    >;

    /// The valid states form a finite space: an enumeration covering them.
    proof fn space(&self) -> (all: Seq<<Self::St as View>::V>)
        requires
            self.inv(),
        ensures
            forall|v: <Self::St as View>::V| self.st_inv(v) ==> all.contains(v),
    ;

    fn heuristic(&self, s: &Self::St) -> (r: u64)
        requires
            self.inv(),
            self.st_inv(s@),
        ensures
            r as nat == self.h(s@),
    ;

    fn successors(&self, s: &Self::St) -> (r: Vec<Neighbor<Self::St, Self::Act>>)
        requires
            self.inv(),
            self.st_inv(s@),
        ensures
            r@.len() == self.succs(s@).len(),
            forall|i: int|
                0 <= i < r@.len() ==> {
                    &&& (#[trigger] r@[i]).state@ == self.succs(s@)[i].0
                    &&& r@[i].cost as nat == self.succs(s@)[i].1
                    &&& r@[i].action@ == self.succs(s@)[i].2
                    &&& self.st_inv(r@[i].state@)
                },
    ;

    /// Value equality of states, decided by the domain (states are map keys).
    fn state_eq(&self, a: &Self::St, b: &Self::St) -> (r: bool)
        ensures
            r == (a@ == b@),
    ;

    fn clone_state(&self, s: &Self::St) -> (r: Self::St)
        ensures
            r@ == s@,
    ;

    fn clone_action(&self, a: &Self::Act) -> (r: Self::Act)
        ensures
            r@ == a@,
    ;
}

/// There is a transition from `s` to `t` labelled `a` (with some cost).
pub open spec fn edge_to<D: Domain>(
    d: D,
    s: <D::St as View>::V,
    a: <D::Act as View>::V,
    t: <D::St as View>::V,
) -> bool {
    exists|k: int|
        0 <= k < d.succs(s).len() && (#[trigger] d.succs(s)[k]).0 == t && d.succs(s)[k].2 == a
}

/// There is a transition from `s` to `t` (any action, any cost).
pub open spec fn step_edge<D: Domain>(d: D, s: <D::St as View>::V, t: <D::St as View>::V) -> bool {
    exists|k: int| 0 <= k < d.succs(s).len() && (#[trigger] d.succs(s)[k]).0 == t
}

/// `states` is a walk: consecutive entries are linked by transitions.
pub open spec fn chain_ok<D: Domain>(d: D, states: Seq<<D::St as View>::V>) -> bool {
    forall|i: int|
        0 <= i < states.len() - 1 ==> #[trigger] step_edge(d, states[i], states[i + 1])
}

/// No walk that starts at `start` ends in a goal state.
pub open spec fn no_reachable_goal<D: Domain>(d: D, start: <D::St as View>::V) -> bool {
    forall|states: Seq<<D::St as View>::V>|
        states.len() > 0 && states[0] == start && #[trigger] chain_ok(d, states) ==> d.h(
            states.last(),
        ) != 0
}

/// `pairs` lists (state, action taken in that state) from `from` up to, but
/// not including, `goal`; each action leads to the next listed state, and
/// the last action leads to `goal`.  An empty list means `from == goal`.
pub open spec fn links<D: Domain>(
    d: D,
    from: <D::St as View>::V,
    pairs: Seq<(<D::St as View>::V, <D::Act as View>::V)>,
    goal: <D::St as View>::V,
) -> bool {
    if pairs.len() == 0 {
        from == goal
    } else {
        &&& pairs[0].0 == from
        &&& forall|i: int|
            0 <= i < pairs.len() - 1 ==> edge_to(
                d,
                (#[trigger] pairs[i]).0,
                pairs[i].1,
                pairs[i + 1].0,
            )
        &&& edge_to(d, pairs[pairs.len() - 1].0, pairs[pairs.len() - 1].1, goal)
    }
}

/// A valid plan: a chain of transitions from `start` to `goal`, and `goal`
/// satisfies the goal test (heuristic exactly zero).
pub open spec fn plan_connects<D: Domain>(
    d: D,
    start: <D::St as View>::V,
    pairs: Seq<(<D::St as View>::V, <D::Act as View>::V)>,
    goal: <D::St as View>::V,
) -> bool {
    d.h(goal) == 0 && links(d, start, pairs, goal)
}

/// The plan leads from `start` to some goal state.
pub open spec fn plans_to_goal<D: Domain>(
    d: D,
    start: <D::St as View>::V,
    pairs: Seq<(<D::St as View>::V, <D::Act as View>::V)>,
) -> bool {
    exists|goal: <D::St as View>::V| #[trigger] plan_connects(d, start, pairs, goal)
}

/// View of a plan: each (state, action) pair by its views.
pub open spec fn pairs_view<D: Domain>(p: Seq<(D::St, D::Act)>) -> Seq<
    (<D::St as View>::V, <D::Act as View>::V),
> {
    p.map(|i: int, pr: (D::St, D::Act)| (pr.0@, pr.1@))
}

/// Some entry of the score list has key `v`.
pub open spec fn has_g<D: Domain>(gs: Seq<(D::St, u64)>, v: <D::St as View>::V) -> bool {
    exists|j: int| 0 <= j < gs.len() && (#[trigger] gs[j]).0@ == v
}

/// Some entry of the score list has key `v` with value `x`.
pub open spec fn has_g_val<D: Domain>(
    gs: Seq<(D::St, u64)>,
    v: <D::St as View>::V,
    x: u64,
) -> bool {
    exists|j: int| 0 <= j < gs.len() && (#[trigger] gs[j]).0@ == v && gs[j].1 == x
}

/// Some predecessor entry has child `v`.
pub open spec fn has_cf<D: Domain>(
    cf: Seq<(D::St, D::St, D::Act)>,
    v: <D::St as View>::V,
) -> bool {
    exists|j: int| 0 <= j < cf.len() && (#[trigger] cf[j]).0@ == v
}

/// `v` occurs in the open list.
pub open spec fn in_open<D: Domain>(open: Seq<D::St>, v: <D::St as View>::V) -> bool {
    exists|i: int| 0 <= i < open.len() && (#[trigger] open[i])@ == v
}

/// A finalized state: not a goal, and every successor is already recorded.
pub open spec fn expanded<D: Domain>(
    d: D,
    gs: Seq<(D::St, u64)>,
    v: <D::St as View>::V,
) -> bool {
    d.h(v) != 0 && forall|k: int|
        0 <= k < d.succs(v).len() ==> has_g::<D>(gs, (#[trigger] d.succs(v)[k]).0)
}

/// Strict lexicographic order on rank pairs.
pub open spec fn lex_lt(a: (nat, nat), b: (nat, nat)) -> bool {
    a.0 < b.0 || (a.0 == b.0 && a.1 < b.1)
}

/// The predecessor list is well-founded: some rank map strictly decreases
/// from every recorded child to its parent.
pub open spec fn cf_ranked<D: Domain>(
    cf: Seq<(D::St, D::St, D::Act)>,
    rnk: Map<<D::St as View>::V, (nat, nat)>,
) -> bool {
    forall|j: int|
        0 <= j < cf.len() ==> {
            &&& rnk.dom().contains((#[trigger] cf[j]).0@)
            &&& rnk.dom().contains(cf[j].1@)
            &&& lex_lt(rnk[cf[j].1@], rnk[cf[j].0@])
        }
}

/// How many entries of `all` are not yet recorded in `gs`.
pub open spec fn undisc_count<D: Domain>(
    all: Seq<<D::St as View>::V>,
    gs: Seq<(D::St, u64)>,
) -> nat
    decreases all.len(),
{
    if all.len() == 0 {
        0
    } else {
        undisc_count::<D>(all.drop_last(), gs) + (if has_g::<D>(gs, all.last()) {
            0nat
        } else {
            1nat
        })
    }
}

/// Sum of the recorded scores.
pub open spec fn sum_g<D: Domain>(gs: Seq<(D::St, u64)>) -> nat
    decreases gs.len(),
{
    if gs.len() == 0 {
        0
    } else {
        sum_g::<D>(gs.drop_last()) + gs.last().1 as nat
    }
}

proof fn lemma_undisc_mono<D: Domain>(
    all: Seq<<D::St as View>::V>,
    gs1: Seq<(D::St, u64)>,
    gs2: Seq<(D::St, u64)>,
)
    requires
        forall|v: <D::St as View>::V| has_g::<D>(gs1, v) ==> has_g::<D>(gs2, v),
    ensures
        undisc_count::<D>(all, gs2) <= undisc_count::<D>(all, gs1),
    decreases all.len(),
{
    if all.len() > 0 {
        lemma_undisc_mono::<D>(all.drop_last(), gs1, gs2);
    }
}

proof fn lemma_undisc_strict<D: Domain>(
    all: Seq<<D::St as View>::V>,
    gs1: Seq<(D::St, u64)>,
    gs2: Seq<(D::St, u64)>,
    w: <D::St as View>::V,
)
    requires
        forall|v: <D::St as View>::V| has_g::<D>(gs1, v) ==> has_g::<D>(gs2, v),
        !has_g::<D>(gs1, w),
        has_g::<D>(gs2, w),
        all.contains(w),
    ensures
        undisc_count::<D>(all, gs2) < undisc_count::<D>(all, gs1),
    decreases all.len(),
{
    let i = choose|i: int| 0 <= i < all.len() && all[i] == w;
    if i == all.len() - 1 {
        lemma_undisc_mono::<D>(all.drop_last(), gs1, gs2);
    } else {
        assert(all.drop_last()[i] == w);
        assert(all.drop_last().contains(w));
        lemma_undisc_strict::<D>(all.drop_last(), gs1, gs2, w);
    }
}

proof fn lemma_undisc_same<D: Domain>(
    all: Seq<<D::St as View>::V>,
    gs1: Seq<(D::St, u64)>,
    gs2: Seq<(D::St, u64)>,
)
    requires
        forall|v: <D::St as View>::V| has_g::<D>(gs1, v) == has_g::<D>(gs2, v),
    ensures
        undisc_count::<D>(all, gs2) == undisc_count::<D>(all, gs1),
{
    lemma_undisc_mono::<D>(all, gs1, gs2);
    lemma_undisc_mono::<D>(all, gs2, gs1);
}

proof fn lemma_sum_remove<D: Domain>(gs: Seq<(D::St, u64)>, j: int)
    requires
        0 <= j < gs.len(),
    ensures
        sum_g::<D>(gs.remove(j)) + gs[j].1 as nat == sum_g::<D>(gs),
    decreases gs.len(),
{
    if j == gs.len() - 1 {
        assert(gs.remove(j) =~= gs.drop_last());
    } else {
        assert(gs.remove(j).drop_last() =~= gs.drop_last().remove(j));
        assert(gs.remove(j).last() == gs.last());
        lemma_sum_remove::<D>(gs.drop_last(), j);
    }
}

proof fn lemma_sum_push<D: Domain>(gs: Seq<(D::St, u64)>, p: (D::St, u64))
    ensures
        sum_g::<D>(gs.push(p)) == sum_g::<D>(gs) + p.1 as nat,
{
    assert(gs.push(p).drop_last() =~= gs);
}

/// Saturating addition on `u64`.
pub open spec fn spec_sat_add(a: u64, b: u64) -> u64 {
    if a + b > u64::MAX {
        u64::MAX
    } else {
        (a + b) as u64
    }
}

fn sat_add(a: u64, b: u64) -> (r: u64)
    ensures
        r == spec_sat_add(a, b),
        r >= a,
        r >= b,
{
    if a <= u64::MAX - b {
        a + b
    } else {
        u64::MAX
    }
}

/// Linear scan: does `open` hold a state with the same value as `s`?
fn state_in<D: Domain>(d: &D, open: &Vec<D::St>, s: &D::St) -> (r: bool)
    ensures
        r == in_open::<D>(open@, s@),
{
    let mut i: usize = 0;
    while i < open.len()
        invariant
            0 <= i <= open@.len(),
            forall|k: int| 0 <= k < i ==> (#[trigger] open@[k])@ != s@,
        decreases open@.len() - i,
    {
        if d.state_eq(&open[i], s) {
            return true;
        }
        i = i + 1;
    }
    false
}

/// Index of the first score entry whose key equals `s`, if any.
fn g_find<D: Domain>(d: &D, gs: &Vec<(D::St, u64)>, s: &D::St) -> (r: Option<usize>)
    ensures
        r is None ==> !has_g::<D>(gs@, s@),
        r matches Some(j) ==> 0 <= j < gs@.len() && gs@[j as int].0@ == s@,
{
    let mut i: usize = 0;
    while i < gs.len()
        invariant
            0 <= i <= gs@.len(),
            forall|k: int| 0 <= k < i ==> (#[trigger] gs@[k]).0@ != s@,
        decreases gs@.len() - i,
    {
        if d.state_eq(&gs[i].0, s) {
            return Some(i);
        }
        i = i + 1;
    }
    None
}

/// The parent and action recorded for `s`, if any (clones handed out).
fn cf_find<D: Domain>(d: &D, cf: &Vec<(D::St, D::St, D::Act)>, s: &D::St) -> (r: Option<
    (D::St, D::Act),
>)
    ensures
        r is None ==> !has_cf::<D>(cf@, s@),
        r matches Some(pa) ==> exists|j: int|
            0 <= j < cf@.len() && (#[trigger] cf@[j]).0@ == s@ && cf@[j].1@ == pa.0@ && cf@[j].2@
                == pa.1@,
    {
    let mut i: usize = 0;
    while i < cf.len()
        invariant
            0 <= i <= cf@.len(),
            forall|k: int| 0 <= k < i ==> (#[trigger] cf@[k]).0@ != s@,
        decreases cf@.len() - i,
    {
        if d.state_eq(&cf[i].0, s) {
            let p = d.clone_state(&cf[i].1);
            let a = d.clone_action(&cf[i].2);
            return Some((p, a));
        }
        i = i + 1;
    }
    None
}

/// Index (in `open`) of a state with minimal f-score; a state without a
/// recorded f-score counts as infinitely costly.  Among equals the lowest
/// index wins.
fn pick_min<D: Domain>(d: &D, open: &Vec<D::St>, fs: &Vec<(D::St, u64)>) -> (r: usize)
    requires
        open@.len() > 0,
    ensures
        r < open@.len(),
{
    let mut best: usize = 0;
    let mut best_f: u64 = match g_find(d, fs, &open[0]) {
        Some(j) => fs[j].1,
        None => u64::MAX,
    };
    let mut i: usize = 1;
    while i < open.len()
        invariant
            1 <= i <= open@.len(),
            best < open@.len(),
        decreases open@.len() - i,
    {
        let fi = match g_find(d, fs, &open[i]) {
            Some(j) => fs[j].1,
            None => u64::MAX,
        };
        if fi < best_f {
            best = i;
            best_f = fi;
        }
        i = i + 1;
    }
    best
}

} // verus!

verus! {

/// Record `parent`/`act` as the best known way to reach `child`, replacing
/// any earlier record for `child`.
fn cf_put<D: Domain>(
    d: &D,
    cf: &mut Vec<(D::St, D::St, D::Act)>,
    child: &D::St,
    parent: D::St,
    act: D::Act,
)
    ensures
        final(cf)@.len() >= 1,
        final(cf)@.last().0@ == child@,
        final(cf)@.last().1 == parent,
        final(cf)@.last().2 == act,
        forall|j: int|
            0 <= j < final(cf)@.len() - 1 ==> ((#[trigger] final(cf)@[j]).0@ != child@
                && old(cf)@.contains(final(cf)@[j])),
        forall|v: <D::St as View>::V| has_cf::<D>(old(cf)@, v) ==> has_cf::<D>(final(cf)@, v),
{
    let ghost cf0 = cf@;
    proof {
        assert forall|j: int| 0 <= j < cf@.len() implies cf0.contains(#[trigger] cf@[j]) by {
            assert(cf0[j] == cf@[j]);
        };
    }
    let mut i: usize = 0;
    while i < cf.len()
        invariant
            0 <= i <= cf@.len(),
            forall|k: int| 0 <= k < i ==> (#[trigger] cf@[k]).0@ != child@,
            forall|j: int| 0 <= j < cf@.len() ==> cf0.contains(#[trigger] cf@[j]),
            forall|v: <D::St as View>::V|
                has_cf::<D>(cf0, v) && v != child@ ==> has_cf::<D>(cf@, v),
        decreases cf@.len() - i,
    {
        if d.state_eq(&cf[i].0, child) {
            let ghost pre = cf@;
            cf.remove(i);
            proof {
                assert forall|v: <D::St as View>::V|
                    has_cf::<D>(cf0, v) && v != child@ implies has_cf::<D>(cf@, v) by {
                    assert(has_cf::<D>(pre, v));
                    let j = choose|j: int| 0 <= j < pre.len() && pre[j].0@ == v;
                    if j < i {
                        assert(cf@[j].0@ == v);
                    } else {
                        assert(j != i);
                        assert(cf@[j - 1].0@ == v);
                    }
                };
                assert forall|j: int|
                    0 <= j < cf@.len() implies cf0.contains(#[trigger] cf@[j]) by {
                    if j < i {
                        assert(cf@[j] == pre[j]);
                        assert(cf0.contains(pre[j]));
                    } else {
                        assert(cf@[j] == pre[j + 1]);
                        assert(cf0.contains(pre[j + 1]));
                    }
                };
            }
        } else {
            i = i + 1;
        }
    }
    let ghost cf1 = cf@;
    let c = d.clone_state(child);
    cf.push((c, parent, act));
    proof {
        assert forall|v: <D::St as View>::V|
            has_cf::<D>(old(cf)@, v) implies has_cf::<D>(final(cf)@, v) by {
            if v == child@ {
                assert(final(cf)@[final(cf)@.len() - 1].0@ == v);
            } else {
                assert(has_cf::<D>(cf1, v));
                let j = choose|j: int| 0 <= j < cf1.len() && cf1[j].0@ == v;
                assert(final(cf)@[j].0@ == v);
            }
        };
    }
}

/// Walk the predecessor records backward from `goal`, prepending
/// (predecessor state, action) pairs, until the start of the chain.
///
/// The returned plan does not include the goal state itself; it is empty
/// exactly when no predecessor is recorded for `goal`.
pub fn reconstruct_path<D: Domain>(
    d: &D,
    cf: &Vec<(D::St, D::St, D::Act)>,
    start: &D::St,
    goal: &D::St,
) -> (r: Vec<(D::St, D::Act)>)
    requires
        exists|rnk: Map<<D::St as View>::V, (nat, nat)>| cf_ranked::<D>(cf@, rnk),
        forall|j: int|
            0 <= j < cf@.len() ==> edge_to(*d, (#[trigger] cf@[j]).1@, cf@[j].2@, cf@[j].0@),
        forall|j: int|
            0 <= j < cf@.len() ==> ((#[trigger] cf@[j]).1@ == start@ || has_cf::<D>(
                cf@,
                cf@[j].1@,
            )),
        goal@ == start@ || has_cf::<D>(cf@, goal@),
        d.h(goal@) == 0,
    ensures
        plan_connects(*d, start@, pairs_view::<D>(r@), goal@),
        cf@.len() == 0 ==> r@.len() == 0,
{
    let mut path: Vec<(D::St, D::Act)> = Vec::new();
    let mut current: D::St = d.clone_state(goal);
    let ghost rnk = choose|rnk: Map<<D::St as View>::V, (nat, nat)>| cf_ranked::<D>(cf@, rnk);
    proof {
        assert(pairs_view::<D>(path@) =~= Seq::<
            (<D::St as View>::V, <D::Act as View>::V),
        >::empty());
    }
    loop
        invariant_except_break
            cf_ranked::<D>(cf@, rnk),
            forall|j: int|
                0 <= j < cf@.len() ==> edge_to(*d, (#[trigger] cf@[j]).1@, cf@[j].2@, cf@[j].0@),
            forall|j: int|
                0 <= j < cf@.len() ==> ((#[trigger] cf@[j]).1@ == start@ || has_cf::<D>(
                    cf@,
                    cf@[j].1@,
                )),
            current@ == start@ || has_cf::<D>(cf@, current@),
            links(*d, current@, pairs_view::<D>(path@), goal@),
            cf@.len() == 0 ==> path@.len() == 0,
        ensures
            current@ == start@,
            links(*d, current@, pairs_view::<D>(path@), goal@),
            cf@.len() == 0 ==> path@.len() == 0,
        decreases rnk[current@].0, rnk[current@].1,
    {
        match cf_find(d, cf, &current) {
            None => {
                break ;
            },
            Some((p, a)) => {
                let ghost j = choose|j: int|
                    0 <= j < cf@.len() && cf@[j].0@ == current@ && cf@[j].1@ == p@ && cf@[j].2@
                        == a@;
                let ghost oldpv = pairs_view::<D>(path@);
                let ghost oldcur = current@;
                let pc = d.clone_state(&p);
                path.insert(0, (pc, a));
                current = p;
                proof {
                    let newpv = pairs_view::<D>(path@);
                    assert(newpv =~= oldpv.insert(0, (pc@, a@)));
                    assert(edge_to(*d, current@, a@, oldcur));
                    if oldpv.len() == 0 {
                        assert(links(*d, current@, newpv, goal@));
                    } else {
                        assert(newpv[0].0 == current@);
                        assert forall|i: int|
                            0 <= i < newpv.len() - 1 implies edge_to(
                            *d,
                            (#[trigger] newpv[i]).0,
                            newpv[i].1,
                            newpv[i + 1].0,
                        ) by {
                            if i == 0 {
                                assert(newpv[1] == oldpv[0]);
                                assert(oldpv[0].0 == oldcur);
                            } else {
                                assert(newpv[i] == oldpv[i - 1]);
                                assert(newpv[i + 1] == oldpv[i]);
                            }
                        };
                        assert(newpv[newpv.len() - 1] == oldpv[oldpv.len() - 1]);
                    }
                    assert(lex_lt(rnk[current@], rnk[oldcur]));
                }
            },
        }
    }
    path
}

/// Any recorded-and-finalized frontier is closed: a chain that starts at a
/// recorded state stays recorded, and never meets a goal state.
proof fn lemma_chain_discovered<D: Domain>(
    d: D,
    gs: Seq<(D::St, u64)>,
    states: Seq<<D::St as View>::V>,
)
    requires
        states.len() > 0,
        chain_ok(d, states),
        has_g::<D>(gs, states[0]),
        forall|j: int| 0 <= j < gs.len() ==> expanded(d, gs, (#[trigger] gs[j]).0@),
    ensures
        has_g::<D>(gs, states.last()),
        d.h(states.last()) != 0,
    decreases states.len(),
{
    if states.len() == 1 {
        let j = choose|j: int| 0 <= j < gs.len() && gs[j].0@ == states[0];
        assert(expanded(d, gs, gs[j].0@));
        assert(expanded(d, gs, states.last()));
    } else {
        let prefix = states.drop_last();
        assert(chain_ok(d, prefix)) by {
            assert forall|i: int|
                0 <= i < prefix.len() - 1 implies #[trigger] step_edge(
                d,
                prefix[i],
                prefix[i + 1],
            ) by {
                assert(step_edge(d, states[i], states[i + 1]));
            };
        };
        lemma_chain_discovered(d, gs, prefix);
        let pen = states[states.len() - 2];
        assert(prefix.last() == pen);
        assert(step_edge(d, states[states.len() - 2], states[states.len() - 2 + 1]));
        assert(states[states.len() - 2 + 1] == states.last());
        assert(step_edge(d, pen, states.last()));
        let j = choose|j: int| 0 <= j < gs.len() && gs[j].0@ == pen;
        assert(expanded(d, gs, pen));
        let k = choose|k: int|
            0 <= k < d.succs(pen).len() && d.succs(pen)[k].0 == states.last();
        assert(has_g::<D>(gs, d.succs(pen)[k].0));
        let j2 = choose|j2: int| 0 <= j2 < gs.len() && gs[j2].0@ == states.last();
        assert(expanded(d, gs, states.last()));
    }
}

/// A valid plan is a witness that a goal state is reachable: it refutes
/// `no_reachable_goal`.  Together with the engine's contract this pins the
/// failure signal down exactly: the engine fails if and only if no action
/// sequence reaches a goal state.
pub proof fn lemma_plan_refutes_unreachable<D: Domain>(
    d: D,
    start: <D::St as View>::V,
    pairs: Seq<(<D::St as View>::V, <D::Act as View>::V)>,
    goal: <D::St as View>::V,
)
    requires
        plan_connects(d, start, pairs, goal),
    ensures
        !no_reachable_goal(d, start),
{
    let states = pairs.map(|i: int, pr: (<D::St as View>::V, <D::Act as View>::V)| pr.0).push(
        goal,
    );
    assert(states.len() == pairs.len() + 1);
    assert(states[0] == if pairs.len() == 0 {
        goal
    } else {
        pairs[0].0
    });
    assert(states[0] == start);
    assert forall|i: int|
        0 <= i < states.len() - 1 implies #[trigger] step_edge(d, states[i], states[i + 1]) by {
        assert(states[i] == pairs[i].0);
        if i < pairs.len() - 1 {
            assert(states[i + 1] == pairs[i + 1].0);
            assert(edge_to(d, pairs[i].0, pairs[i].1, pairs[i + 1].0));
            let k = choose|k: int|
                0 <= k < d.succs(pairs[i].0).len() && (#[trigger] d.succs(pairs[i].0)[k]).0
                    == pairs[i + 1].0 && d.succs(pairs[i].0)[k].2 == pairs[i].1;
            assert(step_edge(d, states[i], states[i + 1]));
        } else {
            assert(states[i + 1] == goal);
            assert(edge_to(d, pairs[pairs.len() - 1].0, pairs[pairs.len() - 1].1, goal));
            let k = choose|k: int|
                0 <= k < d.succs(pairs[i].0).len() && (#[trigger] d.succs(pairs[i].0)[k]).0
                    == goal && d.succs(pairs[i].0)[k].2 == pairs[i].1;
            assert(step_edge(d, states[i], states[i + 1]));
        }
    };
    assert(chain_ok(d, states));
    assert(states.last() == goal);
    assert(d.h(states.last()) == 0);
}

} // verus!

verus! {

/// Best-first search from `start` under domain `d`.
///
/// Returns `Ok(plan)` where `plan` is a sequence of (state, action taken in
/// that state) pairs leading from `start` to some state whose heuristic is
/// exactly zero; the goal state itself is not listed, and the plan is empty
/// exactly when `start` is already a goal.  Returns `Err(SearchExhausted)`
/// if and only if no sequence of transitions reaches a goal state.
///
/// States with equal views are interchangeable; a state missing from the
/// score ledger counts as infinitely costly, and cheaper paths found later
/// reopen previously finalized states.
#[verifier::rlimit(100)]
pub fn a_star<D: Domain>(d: &D, start: &D::St) -> (r: Result<
    Vec<(D::St, D::Act)>,
    SearchExhausted,
>)
    requires
        d.inv(),
        d.st_inv(start@),
    ensures
        r matches Ok(path) ==> plans_to_goal(*d, start@, pairs_view::<D>(path@)),
        r is Err ==> no_reachable_goal(*d, start@),
        d.h(start@) == 0 ==> (r matches Ok(path) && path@.len() == 0),
{
    let mut open: Vec<D::St> = Vec::new();
    open.push(d.clone_state(start));
    let mut cf: Vec<(D::St, D::St, D::Act)> = Vec::new();
    let mut gs: Vec<(D::St, u64)> = Vec::new();
    gs.push((d.clone_state(start), 0));
    let h0 = d.heuristic(start);
    let mut fs: Vec<(D::St, u64)> = Vec::new();
    fs.push((d.clone_state(start), h0));

    let ghost mut all: Seq<<D::St as View>::V> = Seq::empty();
    proof {
        all = d.space();
    }
    let ghost mut rank: Map<<D::St as View>::V, (nat, nat)> = Map::empty().insert(
        start@,
        (0nat, 0nat),
    );
    let ghost mut kctr: nat = 1;

    proof {
        assert(gs@[0].0@ == start@);
        assert(has_g::<D>(gs@, start@));
        assert forall|i: int| 0 <= i < open@.len() implies has_g::<D>(
            gs@,
            (#[trigger] open@[i])@,
        ) by {
            assert(open@[i]@ == start@);
        };
        assert(open@[0]@ == start@);
        assert(in_open::<D>(open@, start@));
        assert forall|j: int|
            0 <= j < gs@.len() implies (in_open::<D>(open@, (#[trigger] gs@[j]).0@) || expanded(
            *d,
            gs@,
            gs@[j].0@,
        )) by {
            assert(gs@[j].0@ == start@);
        };
    }
    while open.len() > 0
        invariant
            d.inv(),
            forall|v: <D::St as View>::V| d.st_inv(v) ==> all.contains(v),
            forall|j: int| 0 <= j < gs@.len() ==> d.st_inv((#[trigger] gs@[j]).0@),
            forall|j1: int, j2: int|
                0 <= j1 < j2 < gs@.len() ==> (#[trigger] gs@[j1]).0@ != (#[trigger] gs@[j2]).0@,
            has_g::<D>(gs@, start@),
            forall|j: int|
                0 <= j < gs@.len() ==> ((#[trigger] gs@[j]).0@ == start@ || has_cf::<D>(
                    cf@,
                    gs@[j].0@,
                )),
            forall|i: int| 0 <= i < open@.len() ==> has_g::<D>(gs@, (#[trigger] open@[i])@),
            forall|j: int|
                0 <= j < cf@.len() ==> edge_to(*d, (#[trigger] cf@[j]).1@, cf@[j].2@, cf@[j].0@),
            forall|j: int| 0 <= j < cf@.len() ==> has_g::<D>(gs@, (#[trigger] cf@[j]).1@),
            forall|j: int| 0 <= j < cf@.len() ==> has_g::<D>(gs@, (#[trigger] cf@[j]).0@),
            forall|j: int|
                0 <= j < gs@.len() ==> (in_open::<D>(open@, (#[trigger] gs@[j]).0@) || expanded(
                    *d,
                    gs@,
                    gs@[j].0@,
                )),
            cf_ranked::<D>(cf@, rank),
            forall|j: int|
                0 <= j < gs@.len() ==> rank.dom().contains((#[trigger] gs@[j]).0@)
                    && rank[gs@[j].0@].0 == gs@[j].1 as nat,
            forall|v: <D::St as View>::V|
                rank.dom().contains(v) ==> (#[trigger] rank[v]).1 < kctr,
            d.h(start@) == 0 ==> cf@.len() == 0 && open@.len() == 1 && open@[0]@ == start@,
        decreases undisc_count::<D>(all, gs@), sum_g::<D>(gs@), open@.len(),
    {
        let ghost gs_head = gs@;
        let ghost open_head = open@;
        let idx = pick_min(d, &open, &fs);
        let current = open.remove(idx);
        proof {
            assert(open_head[idx as int]@ == current@);
            assert(has_g::<D>(gs@, current@));
            let j = choose|j: int| 0 <= j < gs@.len() && gs@[j].0@ == current@;
            assert(d.st_inv(gs@[j].0@));
            assert(d.st_inv(current@));
            assert forall|i: int| 0 <= i < open@.len() implies has_g::<D>(
                gs@,
                (#[trigger] open@[i])@,
            ) by {
                if i < idx as int {
                    assert(open@[i] == open_head[i]);
                } else {
                    assert(open@[i] == open_head[i + 1]);
                }
            };
            assert forall|jj: int|
                0 <= jj < gs@.len() implies ((#[trigger] gs@[jj]).0@ == current@ || in_open::<D>(
                open@,
                gs@[jj].0@,
            ) || expanded(*d, gs@, gs@[jj].0@)) by {
                let v = gs@[jj].0@;
                if v != current@ && in_open::<D>(open_head, v) {
                    let i = choose|i: int| 0 <= i < open_head.len() && open_head[i]@ == v;
                    if i < idx as int {
                        assert(open@[i]@ == v);
                    } else {
                        assert(i != idx as int);
                        assert(open@[i - 1]@ == v);
                    }
                }
            };
        }
        if d.heuristic(&current) == 0 {
            proof {
                assert(cf_ranked::<D>(cf@, rank));
                let jj = choose|jj: int| 0 <= jj < gs@.len() && gs@[jj].0@ == current@;
                assert(gs@[jj].0@ == start@ || has_cf::<D>(cf@, gs@[jj].0@));
                assert(current@ == start@ || has_cf::<D>(cf@, current@));
                if d.h(start@) == 0 {
                    assert(current@ == start@);
                    assert(cf@.len() == 0);
                }
            }
            let path = reconstruct_path(d, &cf, start, &current);
            proof {
                assert(plan_connects(*d, start@, pairs_view::<D>(path@), current@));
                assert(plans_to_goal(*d, start@, pairs_view::<D>(path@)));
                if d.h(start@) == 0 {
                    assert(cf@.len() == 0);
                    assert(path@.len() == 0);
                }
            }
            return Ok(path);
        }
        let ns = d.successors(&current);
        let g_cur = match g_find(d, &gs, &current) {
            Some(j) => gs[j].1,
            None => {
                // a state drawn from the open list always has a recorded score
                proof {
                    assert(false);
                }
                0
            },
        };
        proof {
            if d.h(start@) == 0 {
                assert(current@ == start@);
                assert(false);
            }
        }
        let ghost gs_snap = gs@;
        let ghost open_snap = open@;
        let mut j: usize = 0;
        while j < ns.len()
            invariant
                d.inv(),
                forall|v: <D::St as View>::V| d.st_inv(v) ==> all.contains(v),
                forall|jj: int| 0 <= jj < gs@.len() ==> d.st_inv((#[trigger] gs@[jj]).0@),
                forall|j1: int, j2: int|
                    0 <= j1 < j2 < gs@.len() ==> (#[trigger] gs@[j1]).0@ != (
                    #[trigger] gs@[j2]).0@,
                has_g::<D>(gs@, start@),
                forall|jj: int|
                    0 <= jj < gs@.len() ==> ((#[trigger] gs@[jj]).0@ == start@ || has_cf::<D>(
                        cf@,
                        gs@[jj].0@,
                    )),
                forall|i: int| 0 <= i < open@.len() ==> has_g::<D>(gs@, (#[trigger] open@[i])@),
                forall|jj: int|
                    0 <= jj < cf@.len() ==> edge_to(
                        *d,
                        (#[trigger] cf@[jj]).1@,
                        cf@[jj].2@,
                        cf@[jj].0@,
                    ),
                forall|jj: int| 0 <= jj < cf@.len() ==> has_g::<D>(gs@, (#[trigger] cf@[jj]).1@),
                forall|jj: int| 0 <= jj < cf@.len() ==> has_g::<D>(gs@, (#[trigger] cf@[jj]).0@),
                forall|jj: int|
                    0 <= jj < gs@.len() ==> ((#[trigger] gs@[jj]).0@ == current@ || in_open::<D>(
                        open@,
                        gs@[jj].0@,
                    ) || expanded(*d, gs@, gs@[jj].0@)),
                cf_ranked::<D>(cf@, rank),
                forall|jj: int|
                    0 <= jj < gs@.len() ==> rank.dom().contains((#[trigger] gs@[jj]).0@)
                        && rank[gs@[jj].0@].0 == gs@[jj].1 as nat,
                forall|v: <D::St as View>::V|
                    rank.dom().contains(v) ==> (#[trigger] rank[v]).1 < kctr,
                d.st_inv(current@),
                d.h(current@) != 0,
                d.h(start@) != 0,
                has_g_val::<D>(gs@, current@, g_cur),
                ns@.len() == d.succs(current@).len(),
                forall|i: int|
                    0 <= i < ns@.len() ==> {
                        &&& (#[trigger] ns@[i]).state@ == d.succs(current@)[i].0
                        &&& ns@[i].cost as nat == d.succs(current@)[i].1
                        &&& ns@[i].action@ == d.succs(current@)[i].2
                        &&& d.st_inv(ns@[i].state@)
                    },
                0 <= j <= ns@.len(),
                forall|k: int|
                    0 <= k < j ==> has_g::<D>(gs@, (#[trigger] d.succs(current@)[k]).0),
                undisc_count::<D>(all, gs@) < undisc_count::<D>(all, gs_snap) || (undisc_count::<
                    D,
                >(all, gs@) == undisc_count::<D>(all, gs_snap) && sum_g::<D>(gs@) < sum_g::<D>(
                    gs_snap,
                )) || (gs@ == gs_snap && open@ == open_snap),
                gs_snap == gs_head,
                open_snap.len() + 1 == open_head.len(),
            decreases ns@.len() - j,
        {
            let nb = &ns[j];
            let tentative = sat_add(g_cur, nb.cost);
            let found = g_find(d, &gs, &nb.state);
            let improve = match found {
                None => true,
                Some(fj) => tentative < gs[fj].1,
            };
            if improve {
                proof {
                    if nb.state@ == current@ {
                        let jc = choose|jc: int|
                            0 <= jc < gs@.len() && gs@[jc].0@ == current@ && gs@[jc].1 == g_cur;
                        let fj = found.unwrap() as int;
                        assert(gs@[fj].0@ == current@);
                        assert(fj == jc);
                        assert(false);
                    }
                }
                let ghost gs_old = gs@;
                let ghost cf_old = cf@;
                let ghost rank_old = rank;
                let ghost open_old = open@;
                let parent = d.clone_state(&current);
                let act = d.clone_action(&nb.action);
                cf_put(d, &mut cf, &nb.state, parent, act);
                match g_find(d, &fs, &nb.state) {
                    Some(fj2) => {
                        fs.remove(fj2);
                    },
                    None => {},
                }
                let hn = d.heuristic(&nb.state);
                fs.push((d.clone_state(&nb.state), sat_add(tentative, hn)));
                if !state_in(d, &open, &nb.state) {
                    open.push(d.clone_state(&nb.state));
                }
                proof {
                    assert forall|v: <D::St as View>::V|
                        in_open::<D>(open_old, v) implies in_open::<D>(open@, v) by {
                        let ii = choose|ii: int| 0 <= ii < open_old.len() && open_old[ii]@ == v;
                        assert(open@[ii]@ == v);
                    };
                    if !in_open::<D>(open_old, nb.state@) {
                        assert(open@[open@.len() - 1]@ == nb.state@);
                    }
                    assert(in_open::<D>(open@, nb.state@));
                }
                match found {
                    Some(fj) => {
                        let ghost oldv = gs@[fj as int].1;
                        gs.remove(fj);
                        gs.push((d.clone_state(&nb.state), tentative));
                        proof {
                            lemma_sum_remove::<D>(gs_old, fj as int);
                            lemma_sum_push::<D>(gs_old.remove(fj as int), (gs@.last().0, tentative));
                            assert(gs@ =~= gs_old.remove(fj as int).push(gs@.last()));
                            assert forall|v: <D::St as View>::V|
                                has_g::<D>(gs_old, v) == has_g::<D>(gs@, v) by {
                                if has_g::<D>(gs_old, v) {
                                    let jv = choose|jv: int|
                                        0 <= jv < gs_old.len() && gs_old[jv].0@ == v;
                                    if jv == fj as int {
                                        assert(gs@.last().0@ == v);
                                        assert(gs@[gs@.len() - 1].0@ == v);
                                    } else if jv < fj as int {
                                        assert(gs@[jv].0@ == v);
                                    } else {
                                        assert(gs@[jv - 1].0@ == v);
                                    }
                                }
                                if has_g::<D>(gs@, v) {
                                    let jv = choose|jv: int|
                                        0 <= jv < gs@.len() && gs@[jv].0@ == v;
                                    if jv == gs@.len() - 1 {
                                        assert(gs_old[fj as int].0@ == v);
                                    } else if jv < fj as int {
                                        assert(gs_old[jv].0@ == v);
                                    } else {
                                        assert(gs_old[jv + 1].0@ == v);
                                    }
                                }
                            };
                            lemma_undisc_same::<D>(all, gs_old, gs@);
                            assert(gs@[gs@.len() - 1].0@ == nb.state@);
                            assert forall|i2: int|
                                0 <= i2 < open@.len() implies has_g::<D>(
                                gs@,
                                (#[trigger] open@[i2])@,
                            ) by {
                                if i2 < open_old.len() {
                                    assert(open@[i2] == open_old[i2]);
                                    assert(has_g::<D>(gs_old, open_old[i2]@));
                                } else {
                                    assert(open@[i2]@ == nb.state@);
                                }
                            };
                            assert forall|j1: int, j2: int|
                                0 <= j1 < j2 < gs@.len() implies (#[trigger] gs@[j1]).0@ != (
                            #[trigger] gs@[j2]).0@ by {
                                if j2 == gs@.len() - 1 {
                                    let oj: int = if j1 < fj as int {
                                        j1
                                    } else {
                                        j1 + 1
                                    };
                                    assert(gs@[j1] == gs_old[oj]);
                                    assert(oj != fj as int);
                                    assert(gs_old[fj as int].0@ == nb.state@);
                                    assert(gs_old[oj].0@ != gs_old[fj as int].0@);
                                } else {
                                    let o1: int = if j1 < fj as int {
                                        j1
                                    } else {
                                        j1 + 1
                                    };
                                    let o2: int = if j2 < fj as int {
                                        j2
                                    } else {
                                        j2 + 1
                                    };
                                    assert(gs@[j1] == gs_old[o1]);
                                    assert(gs@[j2] == gs_old[o2]);
                                    assert(gs_old[o1].0@ != gs_old[o2].0@);
                                }
                            };
                            assert forall|jj2: int|
                                0 <= jj2 < gs@.len() implies ((#[trigger] gs@[jj2]).0@ == current@
                                || in_open::<D>(open@, gs@[jj2].0@) || expanded(
                                *d,
                                gs@,
                                gs@[jj2].0@,
                            )) by {
                                let v = gs@[jj2].0@;
                                if v == nb.state@ {
                                    assert(in_open::<D>(open@, v));
                                } else if v != current@ {
                                    let oj: int = if jj2 < fj as int {
                                        jj2
                                    } else {
                                        jj2 + 1
                                    };
                                    assert(gs@[jj2] == gs_old[oj]);
                                    assert(gs_old[oj].0@ == v);
                                    if !in_open::<D>(open_old, v) {
                                        assert(expanded(*d, gs_old, v));
                                        assert forall|k: int|
                                            0 <= k < d.succs(v).len() implies has_g::<D>(
                                            gs@,
                                            (#[trigger] d.succs(v)[k]).0,
                                        ) by {
                                            assert(has_g::<D>(gs_old, d.succs(v)[k].0));
                                        };
                                        assert(expanded(*d, gs@, v));
                                    }
                                }
                            };
                        }
                    },
                    None => {
                        gs.push((d.clone_state(&nb.state), tentative));
                        proof {
                            assert forall|v: <D::St as View>::V|
                                has_g::<D>(gs_old, v) implies has_g::<D>(gs@, v) by {
                                let jv = choose|jv: int|
                                    0 <= jv < gs_old.len() && gs_old[jv].0@ == v;
                                assert(gs@[jv].0@ == v);
                            };
                            assert(gs@[gs@.len() - 1].0@ == nb.state@);
                            assert(has_g::<D>(gs@, nb.state@));
                            assert(all.contains(nb.state@));
                            lemma_undisc_strict::<D>(all, gs_old, gs@, nb.state@);
                            assert forall|i2: int|
                                0 <= i2 < open@.len() implies has_g::<D>(
                                gs@,
                                (#[trigger] open@[i2])@,
                            ) by {
                                if i2 < open_old.len() {
                                    assert(open@[i2] == open_old[i2]);
                                    assert(has_g::<D>(gs_old, open_old[i2]@));
                                } else {
                                    assert(open@[i2]@ == nb.state@);
                                }
                            };
                            assert forall|j1: int, j2: int|
                                0 <= j1 < j2 < gs@.len() implies (#[trigger] gs@[j1]).0@ != (
                            #[trigger] gs@[j2]).0@ by {
                                assert(gs@[j1] == gs_old[j1]);
                                if j2 == gs@.len() - 1 {
                                    if gs_old[j1].0@ == nb.state@ {
                                        assert(has_g::<D>(gs_old, nb.state@));
                                    }
                                } else {
                                    assert(gs@[j2] == gs_old[j2]);
                                    assert(gs_old[j1].0@ != gs_old[j2].0@);
                                }
                            };
                            assert forall|jj2: int|
                                0 <= jj2 < gs@.len() implies ((#[trigger] gs@[jj2]).0@ == current@
                                || in_open::<D>(open@, gs@[jj2].0@) || expanded(
                                *d,
                                gs@,
                                gs@[jj2].0@,
                            )) by {
                                let v = gs@[jj2].0@;
                                if v == nb.state@ {
                                    assert(in_open::<D>(open@, v));
                                } else if v != current@ {
                                    assert(gs@[jj2] == gs_old[jj2]);
                                    assert(gs_old[jj2].0@ == v);
                                    if !in_open::<D>(open_old, v) {
                                        assert(expanded(*d, gs_old, v));
                                        assert forall|k: int|
                                            0 <= k < d.succs(v).len() implies has_g::<D>(
                                            gs@,
                                            (#[trigger] d.succs(v)[k]).0,
                                        ) by {
                                            assert(has_g::<D>(gs_old, d.succs(v)[k].0));
                                        };
                                        assert(expanded(*d, gs@, v));
                                    }
                                }
                            };
                        }
                    },
                }
                proof {
                    rank = rank.insert(nb.state@, (tentative as nat, kctr));
                    kctr = kctr + 1;
                    // predecessor records still point to recorded states
                    assert forall|jj: int|
                        0 <= jj < cf@.len() implies has_g::<D>(gs@, (#[trigger] cf@[jj]).1@)
                            && has_g::<D>(gs@, cf@[jj].0@) && edge_to(
                        *d,
                        cf@[jj].1@,
                        cf@[jj].2@,
                        cf@[jj].0@,
                    ) by {
                        if jj == cf@.len() - 1 {
                            assert(cf@[jj].0@ == nb.state@);
                            assert(cf@[jj].1@ == current@);
                            assert(cf@[jj].2@ == nb.action@);
                            assert(d.succs(current@)[j as int].0 == nb.state@);
                            assert(d.succs(current@)[j as int].2 == nb.action@);
                            assert(edge_to(*d, current@, nb.action@, nb.state@));
                        } else {
                            assert(cf_old.contains(cf@[jj]));
                            let kk = choose|kk: int|
                                0 <= kk < cf_old.len() && cf_old[kk] == cf@[jj];
                            assert(has_g::<D>(gs_old, cf_old[kk].1@));
                            assert(has_g::<D>(gs_old, cf_old[kk].0@));
                            assert(edge_to(*d, cf_old[kk].1@, cf_old[kk].2@, cf_old[kk].0@));
                        }
                    };
                    // ranks still decrease along every predecessor record
                    assert forall|jj: int|
                        0 <= jj < cf@.len() implies rank.dom().contains((#[trigger] cf@[jj]).0@)
                            && rank.dom().contains(cf@[jj].1@) && lex_lt(
                        rank[cf@[jj].1@],
                        rank[cf@[jj].0@],
                    ) by {
                        if jj == cf@.len() - 1 {
                            assert(rank_old.dom().contains(current@));
                            assert(rank_old[current@].0 == g_cur as nat);
                            assert(tentative >= g_cur);
                            assert(rank[cf@[jj].0@] == (tentative as nat, (kctr - 1) as nat));
                            assert(rank[cf@[jj].1@] == rank_old[current@]);
                        } else {
                            let kk = choose|kk: int|
                                0 <= kk < cf_old.len() && cf_old[kk] == cf@[jj];
                            assert(lex_lt(rank_old[cf_old[kk].1@], rank_old[cf_old[kk].0@]));
                            if cf@[jj].1@ == nb.state@ {
                                // the reopened state's old rank bounded its
                                // children from below; the new rank is smaller
                                assert(rank_old[nb.state@].0 <= rank_old[cf@[jj].0@].0);
                                assert(tentative < rank_old[nb.state@].0);
                            }
                        }
                    };
                    // rank first components track the recorded scores
                    assert forall|jj: int|
                        0 <= jj < gs@.len() implies rank.dom().contains((#[trigger] gs@[jj]).0@)
                            && rank[gs@[jj].0@].0 == gs@[jj].1 as nat by {
                        if gs@[jj].0@ == nb.state@ {
                            assert(jj == gs@.len() - 1);
                        }
                    };
                }
            }
            j = j + 1;
            proof {
                assert(has_g::<D>(gs@, d.succs(current@)[j - 1].0));
            }
        }
        proof {
            assert forall|jj: int|
                0 <= jj < gs@.len() implies (in_open::<D>(open@, (#[trigger] gs@[jj]).0@)
                    || expanded(*d, gs@, gs@[jj].0@)) by {
                if gs@[jj].0@ == current@ {
                    assert(expanded(*d, gs@, current@));
                }
            };
        }
    }
    proof {
        assert forall|jj: int|
            0 <= jj < gs@.len() implies expanded(*d, gs@, (#[trigger] gs@[jj]).0@) by {
            assert(open@.len() == 0);
            assert(!in_open::<D>(open@, gs@[jj].0@));
        };
        assert forall|states: Seq<<D::St as View>::V>|
            states.len() > 0 && states[0] == start@ && #[trigger] chain_ok(*d, states) implies d.h(
            states.last(),
        ) != 0 by {
            lemma_chain_discovered::<D>(*d, gs@, states);
        };
    }
    Err(SearchExhausted)
}

} // verus!
