//! The door/room domain: positions joined into movement groups, doors
//! between positions, and objectives over the actor position and the door
//! states.
use vstd::prelude::*;

use crate::a_star::Neighbor;

verus! {

pub type PosId = usize;

pub type DoorId = usize;

pub type PosMoveGroupId = usize;

#[derive(Clone, Copy, Debug, PartialEq, Eq, Hash, Structural)]
pub enum DoorState {
    Open,
    Closed,
    Locked,
    Broken,
}

/// An action label; payload identifying what produced a transition.
#[derive(Clone, Copy, Debug, PartialEq, Eq, Structural)]
pub enum Action {
    Move { to: PosId },
    OpenDoor { door: DoorId },
    CloseDoor { door: DoorId },
    TraverseDoor { door: DoorId },
}

impl View for Action {
    type V = Action;

    open spec fn view(&self) -> Action {
        *self
    }
}

#[derive(Debug, PartialEq, Eq, Hash, Clone)]
pub struct State {
    pub actor_pos: PosId,
    pub door_states: Vec<DoorState>,
}

/// Mathematical model of a `State`.
pub ghost struct StateView {
    pub actor_pos: int,
    pub door_states: Seq<DoorState>,
}

impl View for State {
    type V = StateView;

    open spec fn view(&self) -> StateView {
        StateView { actor_pos: self.actor_pos as int, door_states: self.door_states@ }
    }
}

/// Static world data: one movement group per position, and the two sides
/// of each door.
#[derive(Debug, Clone)]
pub struct World {
    pub pos_move_groups: Vec<PosMoveGroupId>,
    pub door_side_a: Vec<PosId>,
    pub door_side_b: Vec<PosId>,
}

impl World {
    pub open spec fn npos(self) -> nat {
        self.pos_move_groups@.len()
    }

    pub open spec fn ndoors(self) -> nat {
        self.door_side_a@.len()
    }

    pub open spec fn wf(self) -> bool {
        &&& self.door_side_b@.len() == self.ndoors()
        &&& forall|i: int|
            0 <= i < self.ndoors() ==> (#[trigger] self.door_side_a@[i]) < self.npos()
        &&& forall|i: int|
            0 <= i < self.ndoors() ==> (#[trigger] self.door_side_b@[i]) < self.npos()
    }
}

/// A single state-component target.
#[derive(Clone, Copy, Debug, PartialEq, Eq, Structural)]
pub enum Objective {
    ActorPos(PosId),
    DoorState(DoorId, DoorState),
}

pub open spec fn objective_wf(w: World, o: Objective) -> bool {
    match o {
        Objective::ActorPos(p) => p < w.npos(),
        Objective::DoorState(di, _ds) => di < w.ndoors(),
    }
}

pub open spec fn objective_met(o: Objective, s: StateView) -> bool {
    match o {
        Objective::ActorPos(p) => s.actor_pos == p as int,
        Objective::DoorState(di, ds) => s.door_states[di as int] == ds,
    }
}

/// Number of objectives that `s` does not meet.
pub open spec fn unmet_count(objs: Seq<Objective>, s: StateView) -> nat
    decreases objs.len(),
{
    if objs.len() == 0 {
        0
    } else {
        unmet_count(objs.drop_last(), s) + (if objective_met(objs.last(), s) {
            0nat
        } else {
            1nat
        })
    }
}

/// The reference heuristic: the count of unmet objectives, an admissible
/// estimate whenever each action can satisfy at most one objective per
/// unit of cost.
pub fn heuristic(state: &State, objectives: &[Objective]) -> (r: u64)
    requires
        forall|i: int|
            0 <= i < objectives@.len() ==> match #[trigger] objectives@[i] {
                Objective::ActorPos(_p) => true,
                Objective::DoorState(di, _ds) => di < state@.door_states.len(),
            },
    ensures
        r as nat == unmet_count(objectives@, state@),
{
    let mut distance: u64 = 0;
    let mut i: usize = 0;
    while i < objectives.len()
        invariant
            0 <= i <= objectives@.len(),
            distance as nat == unmet_count(objectives@.take(i as int), state@),
            distance <= i,
            forall|k: int|
                0 <= k < objectives@.len() ==> match #[trigger] objectives@[k] {
                    Objective::ActorPos(_p) => true,
                    Objective::DoorState(di, _ds) => di < state@.door_states.len(),
                },
        decreases objectives@.len() - i,
    {
        let met: bool = match objectives[i] {
            Objective::ActorPos(p) => state.actor_pos == p,
            Objective::DoorState(di, ds) => {
                let cur = state.door_states[di];
                cur == ds
            },
        };
        if !met {
            distance = distance + 1;
        }
        proof {
            assert(objectives@.take(i + 1).drop_last() =~= objectives@.take(i as int));
            assert(objectives@.take(i + 1).last() == objectives@[i as int]);
        }
        i = i + 1;
    }
    proof {
        assert(objectives@.take(objectives@.len() as int) =~= objectives@);
    }
    distance
}

pub open spec fn spec_move(w: World, s: StateView, to: PosId) -> Option<(StateView, nat, Action)> {
    if s.actor_pos != to as int && w.pos_move_groups@[s.actor_pos] == w.pos_move_groups@[to as int] {
        Some(
            (StateView { actor_pos: to as int, door_states: s.door_states }, 1nat, Action::Move {
                to,
            }),
        )
    } else {
        None
    }
}

pub open spec fn spec_open_door(w: World, s: StateView, door: DoorId) -> Option<
    (StateView, nat, Action),
> {
    if (s.actor_pos == w.door_side_a@[door as int] as int || s.actor_pos == w.door_side_b@[
        door as int
    ] as int) && s.door_states[door as int] == DoorState::Closed {
        Some(
            (
                StateView {
                    actor_pos: s.actor_pos,
                    door_states: s.door_states.update(door as int, DoorState::Open),
                },
                1nat,
                Action::OpenDoor { door },
            ),
        )
    } else {
        None
    }
}

pub open spec fn spec_close_door(w: World, s: StateView, door: DoorId) -> Option<
    (StateView, nat, Action),
> {
    if (s.actor_pos == w.door_side_a@[door as int] as int || s.actor_pos == w.door_side_b@[
        door as int
    ] as int) && s.door_states[door as int] == DoorState::Open {
        Some(
            (
                StateView {
                    actor_pos: s.actor_pos,
                    door_states: s.door_states.update(door as int, DoorState::Closed),
                },
                1nat,
                Action::CloseDoor { door },
            ),
        )
    } else {
        None
    }
}

pub open spec fn spec_traverse_door(w: World, s: StateView, door: DoorId) -> Option<
    (StateView, nat, Action),
> {
    if (s.actor_pos == w.door_side_a@[door as int] as int || s.actor_pos == w.door_side_b@[
        door as int
    ] as int) && s.door_states[door as int] == DoorState::Open {
        Some(
            (
                StateView {
                    actor_pos: if s.actor_pos == w.door_side_a@[door as int] as int {
                        w.door_side_b@[door as int] as int
                    } else {
                        w.door_side_a@[door as int] as int
                    },
                    door_states: s.door_states,
                },
                1nat,
                Action::TraverseDoor { door },
            ),
        )
    } else {
        None
    }
}

fn clone_doors(v: &Vec<DoorState>) -> (r: Vec<DoorState>)
    ensures
        r@ == v@,
{
    let mut r: Vec<DoorState> = Vec::new();
    let mut i: usize = 0;
    while i < v.len()
        invariant
            0 <= i <= v@.len(),
            r@ =~= v@.take(i as int),
        decreases v@.len() - i,
    {
        r.push(v[i]);
        proof {
            assert(r@ =~= v@.take(i + 1));
        }
        i = i + 1;
    }
    proof {
        assert(r@ =~= v@);
    }
    r
}

/// Move the actor to `to`: possible when `to` differs from the current
/// position but shares its movement group.
pub fn move_actor(state: &State, world: &World, to: PosId) -> (r: Option<Neighbor<State, Action>>)
    requires
        world.wf(),
        state@.actor_pos < world.npos(),
        to < world.npos(),
    ensures
        match r {
            Some(n) => spec_move(*world, state@, to) == Some((n.state@, n.cost as nat, n.action)),
            None => spec_move(*world, state@, to) is None,
        },
{
    let precondition = (state.actor_pos != to) && (world.pos_move_groups[state.actor_pos]
        == world.pos_move_groups[to]);
    if !precondition {
        return None;
    }
    let new_state = State { actor_pos: to, door_states: clone_doors(&state.door_states) };
    Some(Neighbor::new(new_state, 1, Action::Move { to }))
}

/// Open a closed door: possible when the actor stands at one of its sides.
pub fn open_door(state: &State, world: &World, door: DoorId) -> (r: Option<Neighbor<State, Action>>)
    requires
        world.wf(),
        state@.door_states.len() == world.ndoors(),
        door < world.ndoors(),
    ensures
        match r {
            Some(n) => spec_open_door(*world, state@, door) == Some(
                (n.state@, n.cost as nat, n.action),
            ),
            None => spec_open_door(*world, state@, door) is None,
        },
{
    let actor_pos = state.actor_pos;
    let door_side_a = world.door_side_a[door];
    let door_side_b = world.door_side_b[door];
    let at_door = actor_pos == door_side_a || actor_pos == door_side_b;
    let is_closed = {
        let cur = state.door_states[door];
        cur == DoorState::Closed
    };
    if !(at_door && is_closed) {
        return None;
    }
    let mut new_doors = clone_doors(&state.door_states);
    new_doors[door] = DoorState::Open;
    let new_state = State { actor_pos: state.actor_pos, door_states: new_doors };
    Some(Neighbor::new(new_state, 1, Action::OpenDoor { door }))
}

/// Close an open door: possible when the actor stands at one of its sides.
pub fn close_door(state: &State, world: &World, door: DoorId) -> (r: Option<
    Neighbor<State, Action>,
>)
    requires
        world.wf(),
        state@.door_states.len() == world.ndoors(),
        door < world.ndoors(),
    ensures
        match r {
            Some(n) => spec_close_door(*world, state@, door) == Some(
                (n.state@, n.cost as nat, n.action),
            ),
            None => spec_close_door(*world, state@, door) is None,
        },
{
    let actor_pos = state.actor_pos;
    let door_side_a = world.door_side_a[door];
    let door_side_b = world.door_side_b[door];
    let at_door = actor_pos == door_side_a || actor_pos == door_side_b;
    let is_open = {
        let cur = state.door_states[door];
        cur == DoorState::Open
    };
    if !(at_door && is_open) {
        return None;
    }
    let mut new_doors = clone_doors(&state.door_states);
    new_doors[door] = DoorState::Closed;
    let new_state = State { actor_pos: state.actor_pos, door_states: new_doors };
    Some(Neighbor::new(new_state, 1, Action::CloseDoor { door }))
}

/// Walk through an open door the actor stands at, to its other side.
pub fn traverse_door(state: &State, world: &World, door: DoorId) -> (r: Option<
    Neighbor<State, Action>,
>)
    requires
        world.wf(),
        state@.door_states.len() == world.ndoors(),
        door < world.ndoors(),
    ensures
        match r {
            Some(n) => spec_traverse_door(*world, state@, door) == Some(
                (n.state@, n.cost as nat, n.action),
            ),
            None => spec_traverse_door(*world, state@, door) is None,
        },
{
    let actor_pos = state.actor_pos;
    let door_side_a = world.door_side_a[door];
    let door_side_b = world.door_side_b[door];
    let at_door = actor_pos == door_side_a || actor_pos == door_side_b;
    let is_open = {
        let cur = state.door_states[door];
        cur == DoorState::Open
    };
    if !(at_door && is_open) {
        return None;
    }
    let new_pos = if actor_pos == door_side_a {
        door_side_b
    } else {
        door_side_a
    };
    let new_state = State { actor_pos: new_pos, door_states: clone_doors(&state.door_states) };
    Some(Neighbor::new(new_state, 1, Action::TraverseDoor { door }))
}

} // verus!

verus! {

pub open spec fn opt_seq(o: Option<(StateView, nat, Action)>) -> Seq<(StateView, nat, Action)> {
    match o {
        Some(t) => seq![t],
        None => Seq::empty(),
    }
}

/// Move candidates for targets 0, 1, ..., n-1, kept in that order.
pub open spec fn moves_upto(w: World, s: StateView, n: nat) -> Seq<(StateView, nat, Action)>
    decreases n,
{
    if n == 0 {
        Seq::empty()
    } else {
        moves_upto(w, s, (n - 1) as nat) + opt_seq(spec_move(w, s, (n - 1) as PosId))
    }
}

/// Open/close candidates for doors 0, 1, ..., n-1, open before close.
pub open spec fn door_ops_upto(w: World, s: StateView, n: nat) -> Seq<(StateView, nat, Action)>
    decreases n,
{
    if n == 0 {
        Seq::empty()
    } else {
        door_ops_upto(w, s, (n - 1) as nat) + opt_seq(spec_open_door(w, s, (n - 1) as DoorId))
            + opt_seq(spec_close_door(w, s, (n - 1) as DoorId))
    }
}

/// Traverse candidates for doors 0, 1, ..., n-1.
pub open spec fn traverses_upto(w: World, s: StateView, n: nat) -> Seq<(StateView, nat, Action)>
    decreases n,
{
    if n == 0 {
        Seq::empty()
    } else {
        traverses_upto(w, s, (n - 1) as nat) + opt_seq(spec_traverse_door(w, s, (n - 1) as DoorId))
    }
}

/// Every legal transition out of `s`: moves, then door opens/closes, then
/// door traversals, in index order.
pub open spec fn door_succs(w: World, s: StateView) -> Seq<(StateView, nat, Action)> {
    moves_upto(w, s, w.npos()) + door_ops_upto(w, s, s.door_states.len())
        + traverses_upto(w, s, s.door_states.len())
}

/// Elementwise correspondence of produced neighbors with their model.
pub open spec fn corr(r: Seq<Neighbor<State, Action>>, s: Seq<(StateView, nat, Action)>) -> bool {
    r.len() == s.len() && forall|i: int|
        0 <= i < r.len() ==> {
            &&& (#[trigger] r[i]).state@ == s[i].0
            &&& r[i].cost as nat == s[i].1
            &&& r[i].action == s[i].2
        }
}

fn push_opt(r: &mut Vec<Neighbor<State, Action>>, o: Option<Neighbor<State, Action>>, Ghost(m): Ghost<Option<(StateView, nat, Action)>>)
    requires
        match o {
            Some(n) => m == Some((n.state@, n.cost as nat, n.action)),
            None => m is None,
        },
    ensures
        final(r)@.len() == old(r)@.len() + opt_seq(m).len(),
        forall|i: int| 0 <= i < old(r)@.len() ==> final(r)@[i] == old(r)@[i],
        m matches Some(t) ==> (final(r)@.last().state@ == t.0 && final(r)@.last().cost as nat == t.1
            && final(r)@.last().action == t.2),
{
    match o {
        Some(n) => {
            r.push(n);
        },
        None => {},
    }
}

/// All neighbors of `state` in `world`: every move, door open/close and
/// door traversal whose precondition holds, each with unit cost.
pub fn get_neighbors(state: &State, world: &World) -> (r: Vec<Neighbor<State, Action>>)
    requires
        world.wf(),
        state@.actor_pos < world.npos(),
        state@.door_states.len() == world.ndoors(),
    ensures
        corr(r@, door_succs(*world, state@)),
{
    let mut r: Vec<Neighbor<State, Action>> = Vec::new();
    let mut i: usize = 0;
    while i < world.pos_move_groups.len()
        invariant
            world.wf(),
            state@.actor_pos < world.npos(),
            state@.door_states.len() == world.ndoors(),
            0 <= i <= world.npos(),
            corr(r@, moves_upto(*world, state@, i as nat)),
        decreases world.npos() - i,
    {
        let ghost pre = r@;
        let n = move_actor(state, world, i);
        push_opt(&mut r, n, Ghost(spec_move(*world, state@, i)));
        proof {
            assert(moves_upto(*world, state@, (i + 1) as nat) == moves_upto(*world, state@, i as nat)
                + opt_seq(spec_move(*world, state@, ((i + 1) - 1) as PosId)));
            assert(((i + 1) - 1) as PosId == i);
            assert(corr(r@, moves_upto(*world, state@, (i + 1) as nat)));
        }
        i = i + 1;
    }
    let ghost m_all = moves_upto(*world, state@, world.npos());
    let mut k: usize = 0;
    while k < state.door_states.len()
        invariant
            world.wf(),
            state@.actor_pos < world.npos(),
            state@.door_states.len() == world.ndoors(),
            0 <= k <= state@.door_states.len(),
            m_all == moves_upto(*world, state@, world.npos()),
            corr(r@, m_all + door_ops_upto(*world, state@, k as nat)),
        decreases state@.door_states.len() - k,
    {
        let n1 = open_door(state, world, k);
        push_opt(&mut r, n1, Ghost(spec_open_door(*world, state@, k)));
        let n2 = close_door(state, world, k);
        push_opt(&mut r, n2, Ghost(spec_close_door(*world, state@, k)));
        proof {
            assert(door_ops_upto(*world, state@, (k + 1) as nat) == door_ops_upto(*world, state@, k as nat)
                + opt_seq(spec_open_door(*world, state@, ((k + 1) - 1) as DoorId))
                + opt_seq(spec_close_door(*world, state@, ((k + 1) - 1) as DoorId)));
            assert(((k + 1) - 1) as DoorId == k);
            assert(corr(r@, m_all + door_ops_upto(*world, state@, (k + 1) as nat)));
        }
        k = k + 1;
    }
    let ghost mo_all = m_all + door_ops_upto(*world, state@, state@.door_states.len());
    let mut t: usize = 0;
    while t < state.door_states.len()
        invariant
            world.wf(),
            state@.actor_pos < world.npos(),
            state@.door_states.len() == world.ndoors(),
            0 <= t <= state@.door_states.len(),
            mo_all == moves_upto(*world, state@, world.npos()) + door_ops_upto(
                *world,
                state@,
                state@.door_states.len(),
            ),
            corr(r@, mo_all + traverses_upto(*world, state@, t as nat)),
        decreases state@.door_states.len() - t,
    {
        let n3 = traverse_door(state, world, t);
        push_opt(&mut r, n3, Ghost(spec_traverse_door(*world, state@, t)));
        proof {
            assert(traverses_upto(*world, state@, (t + 1) as nat) == traverses_upto(*world, state@, t as nat)
                + opt_seq(spec_traverse_door(*world, state@, ((t + 1) - 1) as DoorId)));
            assert(((t + 1) - 1) as DoorId == t);
            assert(corr(r@, mo_all + traverses_upto(*world, state@, (t + 1) as nat)));
        }
        t = t + 1;
    }
    proof {
        assert(mo_all + traverses_upto(*world, state@, state@.door_states.len()) == door_succs(
            *world,
            state@,
        ));
    }
    r
}

} // verus!

verus! {

pub open spec fn all_door_states() -> Seq<DoorState> {
    seq![DoorState::Open, DoorState::Closed, DoorState::Locked, DoorState::Broken]
}

/// Every door-state vector of length `n`.
pub open spec fn door_vecs(n: nat) -> Seq<Seq<DoorState>>
    decreases n,
{
    if n == 0 {
        seq![Seq::<DoorState>::empty()]
    } else {
        crate::finite::cross(door_vecs((n - 1) as nat), all_door_states()).map(
            |i: int, p: (Seq<DoorState>, DoorState)| p.0.push(p.1),
        )
    }
}

proof fn lemma_door_vecs_contains(n: nat, s: Seq<DoorState>)
    requires
        s.len() == n,
    ensures
        door_vecs(n).contains(s),
    decreases n,
{
    if n == 0 {
        assert(s =~= Seq::<DoorState>::empty());
        assert(door_vecs(0)[0] == s);
    } else {
        lemma_door_vecs_contains((n - 1) as nat, s.drop_last());
        let d = s.last();
        assert(all_door_states().contains(d)) by {
            match d {
                DoorState::Open => assert(all_door_states()[0] == d),
                DoorState::Closed => assert(all_door_states()[1] == d),
                DoorState::Locked => assert(all_door_states()[2] == d),
                DoorState::Broken => assert(all_door_states()[3] == d),
            }
        };
        crate::finite::lemma_cross_contains(door_vecs((n - 1) as nat), all_door_states(), s.drop_last(), d);
        let c = crate::finite::cross(door_vecs((n - 1) as nat), all_door_states());
        let k = choose|k: int| 0 <= k < c.len() && c[k] == (s.drop_last(), d);
        assert(door_vecs(n)[k] == s.drop_last().push(d));
        assert(s.drop_last().push(d) =~= s);
        assert(door_vecs(n)[k] == s);
    }
}

/// A world with its objectives: the domain the engine searches in.
#[derive(Debug, Clone)]
pub struct DoorDomain {
    pub world: World,
    pub objectives: Vec<Objective>,
}

proof fn lemma_moves_upto_inv(w: World, s: StateView, n: nat)
    requires
        w.wf(),
        n <= w.npos(),
    ensures
        forall|i: int|
            0 <= i < moves_upto(w, s, n).len() ==> {
                &&& 0 <= (#[trigger] moves_upto(w, s, n)[i]).0.actor_pos < w.npos()
                &&& moves_upto(w, s, n)[i].0.door_states == s.door_states
            },
    decreases n,
{
    if n > 0 {
        lemma_moves_upto_inv(w, s, (n - 1) as nat);
        let prev = moves_upto(w, s, (n - 1) as nat);
        let cur = moves_upto(w, s, n);
        assert forall|i: int|
            0 <= i < cur.len() implies (0 <= (#[trigger] cur[i]).0.actor_pos < w.npos()
            && cur[i].0.door_states == s.door_states) by {
            if i < prev.len() {
                assert(cur[i] == prev[i]);
            } else {
                assert(cur[i] == opt_seq(spec_move(w, s, (n - 1) as PosId))[i - prev.len()]);
            }
        };
    }
}

proof fn lemma_door_ops_upto_inv(w: World, s: StateView, n: nat)
    requires
        w.wf(),
        n <= s.door_states.len(),
    ensures
        forall|i: int|
            0 <= i < door_ops_upto(w, s, n).len() ==> {
                &&& (#[trigger] door_ops_upto(w, s, n)[i]).0.actor_pos == s.actor_pos
                &&& door_ops_upto(w, s, n)[i].0.door_states.len() == s.door_states.len()
            },
    decreases n,
{
    if n > 0 {
        lemma_door_ops_upto_inv(w, s, (n - 1) as nat);
        let prev = door_ops_upto(w, s, (n - 1) as nat);
        let oo = opt_seq(spec_open_door(w, s, (n - 1) as DoorId));
        let cc = opt_seq(spec_close_door(w, s, (n - 1) as DoorId));
        let cur = door_ops_upto(w, s, n);
        assert(cur == prev + oo + cc);
        assert forall|i: int|
            0 <= i < cur.len() implies ((#[trigger] cur[i]).0.actor_pos == s.actor_pos
            && cur[i].0.door_states.len() == s.door_states.len()) by {
            if i < prev.len() {
                assert(cur[i] == prev[i]);
            } else if i < prev.len() + oo.len() {
                assert(cur[i] == oo[i - prev.len()]);
            } else {
                assert(cur[i] == cc[i - prev.len() - oo.len()]);
            }
        };
    }
}

proof fn lemma_traverses_upto_inv(w: World, s: StateView, n: nat)
    requires
        w.wf(),
        n <= s.door_states.len(),
        s.door_states.len() == w.ndoors(),
    ensures
        forall|i: int|
            0 <= i < traverses_upto(w, s, n).len() ==> {
                &&& 0 <= (#[trigger] traverses_upto(w, s, n)[i]).0.actor_pos < w.npos()
                &&& traverses_upto(w, s, n)[i].0.door_states == s.door_states
            },
    decreases n,
{
    if n > 0 {
        lemma_traverses_upto_inv(w, s, (n - 1) as nat);
        let prev = traverses_upto(w, s, (n - 1) as nat);
        let cur = traverses_upto(w, s, n);
        assert forall|i: int|
            0 <= i < cur.len() implies (0 <= (#[trigger] cur[i]).0.actor_pos < w.npos()
            && cur[i].0.door_states == s.door_states) by {
            if i < prev.len() {
                assert(cur[i] == prev[i]);
            } else {
                assert(cur[i] == opt_seq(spec_traverse_door(w, s, (n - 1) as DoorId))[i
                    - prev.len()]);
            }
        };
    }
}

impl crate::a_star::Domain for DoorDomain {
    type St = State;

    type Act = Action;

    open spec fn inv(&self) -> bool {
        &&& self.world.wf()
        &&& forall|i: int|
            0 <= i < self.objectives@.len() ==> objective_wf(
                self.world,
                #[trigger] self.objectives@[i],
            )
    }

    open spec fn st_inv(&self, s: StateView) -> bool {
        &&& 0 <= s.actor_pos < self.world.npos()
        &&& s.door_states.len() == self.world.ndoors()
    }

    open spec fn h(&self, s: StateView) -> nat {
        unmet_count(self.objectives@, s)
    }

    open spec fn succs(&self, s: StateView) -> Seq<(StateView, nat, Action)> {
        door_succs(self.world, s)
    }

    proof fn space(&self) -> (all: Seq<StateView>) {
        let w = self.world;
        let pairs = crate::finite::cross(
            crate::finite::int_range(w.npos()),
            door_vecs(w.ndoors()),
        );
        let all = pairs.map(
            |i: int, p: (int, Seq<DoorState>)| StateView { actor_pos: p.0, door_states: p.1 },
        );
        assert forall|v: StateView| self.st_inv(v) implies all.contains(v) by {
            crate::finite::lemma_int_range_contains(w.npos(), v.actor_pos);
            lemma_door_vecs_contains(w.ndoors(), v.door_states);
            crate::finite::lemma_cross_contains(
                crate::finite::int_range(w.npos()),
                door_vecs(w.ndoors()),
                v.actor_pos,
                v.door_states,
            );
            let k = choose|k: int|
                0 <= k < pairs.len() && pairs[k] == (v.actor_pos, v.door_states);
            assert(all[k] == v);
        };
        all
    }

    fn heuristic(&self, s: &State) -> (r: u64) {
        heuristic(s, self.objectives.as_slice())
    }

    fn successors(&self, s: &State) -> (r: Vec<Neighbor<State, Action>>) {
        let r = get_neighbors(s, &self.world);
        proof {
            lemma_moves_upto_inv(self.world, s@, self.world.npos());
            lemma_door_ops_upto_inv(self.world, s@, s@.door_states.len());
            lemma_traverses_upto_inv(self.world, s@, s@.door_states.len());
        }
        r
    }

    fn state_eq(&self, a: &State, b: &State) -> (r: bool) {
        if a.actor_pos != b.actor_pos {
            return false;
        }
        if a.door_states.len() != b.door_states.len() {
            proof {
                assert(a@.door_states.len() != b@.door_states.len());
            }
            return false;
        }
        let mut i: usize = 0;
        while i < a.door_states.len()
            invariant
                0 <= i <= a@.door_states.len(),
                a@.door_states.len() == b@.door_states.len(),
                a@.actor_pos == b@.actor_pos,
                forall|k: int|
                    0 <= k < i ==> a@.door_states[k] == b@.door_states[k],
            decreases a@.door_states.len() - i,
        {
            let da = a.door_states[i];
            let db = b.door_states[i];
            if da != db {
                proof {
                    assert(a@.door_states[i as int] != b@.door_states[i as int]);
                }
                return false;
            }
            i = i + 1;
        }
        proof {
            assert(a@.door_states =~= b@.door_states);
            assert(a@ == b@);
        }
        true
    }

    fn clone_state(&self, s: &State) -> (r: State) {
        State { actor_pos: s.actor_pos, door_states: clone_doors(&s.door_states) }
    }

    fn clone_action(&self, a: &Action) -> (r: Action) {
        *a
    }
}

} // verus!
