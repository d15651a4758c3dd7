//! The kitchen domain: an actor moving between sink, counter and stove,
//! handling a pot, a faucet and the stove, with string action labels.
use vstd::prelude::*;

use crate::a_star::Neighbor;

verus! {

#[derive(Debug, PartialEq, Eq, Hash, Clone, Copy, Structural)]
pub enum Pos {
    Sink,
    Counter,
    Stove,
}

#[derive(Debug, PartialEq, Eq, Hash, Clone, Copy, Structural)]
pub enum Holdable {
    Pot,
}

#[derive(Debug, PartialEq, Eq, Hash, Clone, Copy, Structural)]
pub enum Activatable {
    Stove,
    Faucet,
}

#[derive(Debug, PartialEq, Eq, Hash, Clone, Copy)]
pub struct State {
    pub pos: Pos,
    pub pot_pos: Pos,
    pub pot_filled: bool,
    pub faucet_on: bool,
    pub stove_on: bool,
    pub holding: Option<Holdable>,
}

impl View for State {
    type V = State;

    open spec fn view(&self) -> State {
        *self
    }
}

/// Distance estimate: one unit per unmet condition of the fixed kitchen
/// task (pot on stove, stove on, pot filled, hands free, faucet off).
pub open spec fn spec_heuristic(s: State) -> nat {
    (if s.pot_pos != Pos::Stove {
        1nat
    } else {
        0nat
    }) + (if !s.stove_on {
        1nat
    } else {
        0nat
    }) + (if !s.pot_filled {
        1nat
    } else {
        0nat
    }) + (if s.holding is Some {
        1nat
    } else {
        0nat
    }) + (if s.faucet_on {
        1nat
    } else {
        0nat
    })
}

/// Count of unmet conditions of the kitchen task.
pub fn heuristic(state: &State) -> (r: u64)
    ensures
        r as nat == spec_heuristic(*state),
{
    let mut distance: u64 = 0;
    if state.pot_pos != Pos::Stove {
        distance = distance + 1;
    }
    if !state.stove_on {
        distance = distance + 1;
    }
    if !state.pot_filled {
        distance = distance + 1;
    }
    let held = match state.holding {
        Some(_h) => true,
        None => false,
    };
    if held {
        distance = distance + 1;
    }
    if state.faucet_on {
        distance = distance + 1;
    }
    distance
}

pub open spec fn move_label(to: Pos) -> Seq<char> {
    match to {
        Pos::Sink => "Move to sink"@,
        Pos::Counter => "Move to counter"@,
        Pos::Stove => "Move to stove"@,
    }
}

pub open spec fn spec_move_actor(s: State, to: Pos) -> Option<(State, nat, Seq<char>)> {
    if s.pos != to {
        Some(
            (
                State {
                    pos: to,
                    pot_pos: if s.holding is Some {
                        to
                    } else {
                        s.pot_pos
                    },
                    ..s
                },
                1nat,
                move_label(to),
            ),
        )
    } else {
        None
    }
}

pub open spec fn spec_pick_up(s: State, holdable: Holdable) -> Option<(State, nat, Seq<char>)> {
    if s.pos == s.pot_pos {
        Some((State { holding: Some(holdable), ..s }, 1nat, "Pick up pot"@))
    } else {
        None
    }
}

pub open spec fn spec_put_down(s: State) -> Option<(State, nat, Seq<char>)> {
    if s.holding is Some {
        Some((State { holding: None, ..s }, 1nat, "Put down pot"@))
    } else {
        None
    }
}

pub open spec fn spec_turn_on(s: State, object: Activatable, required_pos: Pos) -> Option<
    (State, nat, Seq<char>),
> {
    if s.pos != required_pos {
        None
    } else {
        match object {
            Activatable::Stove => if s.stove_on {
                None
            } else {
                Some((State { stove_on: true, ..s }, 1nat, "Turn on stove"@))
            },
            Activatable::Faucet => if s.faucet_on {
                None
            } else {
                Some((State { faucet_on: true, ..s }, 1nat, "Turn on faucet"@))
            },
        }
    }
}

pub open spec fn spec_turn_off(s: State, object: Activatable, required_pos: Pos) -> Option<
    (State, nat, Seq<char>),
> {
    if s.pos != required_pos {
        None
    } else {
        match object {
            Activatable::Stove => if !s.stove_on {
                None
            } else {
                Some((State { stove_on: false, ..s }, 1nat, "Turn off stove"@))
            },
            Activatable::Faucet => if !s.faucet_on {
                None
            } else {
                Some((State { faucet_on: false, ..s }, 1nat, "Turn off faucet"@))
            },
        }
    }
}

/// Pure passage of time: the pot fills when it sits under a running
/// faucet; always available, so it carries a cost and its own label.
pub open spec fn spec_wait(s: State) -> Option<(State, nat, Seq<char>)> {
    Some(
        (
            State {
                pot_filled: if s.pot_pos == Pos::Sink && s.faucet_on {
                    true
                } else {
                    s.pot_filled
                },
                ..s
            },
            1nat,
            "wait"@,
        ),
    )
}

/// Move the actor (and the pot, if held) to `to`.
pub fn move_actor(state: &State, to: Pos) -> (r: Option<Neighbor<State, String>>)
    ensures
        match r {
            Some(n) => spec_move_actor(*state, to) == Some((n.state, n.cost as nat, n.action@)),
            None => spec_move_actor(*state, to) is None,
        },
{
    if state.pos == to {
        return None;
    }
    let mut new_state = *state;
    new_state.pos = to;
    let held = match new_state.holding {
        Some(Holdable::Pot) => true,
        None => false,
    };
    if held {
        new_state.pot_pos = to;
    }
    let action = match to {
        Pos::Sink => "Move to sink",
        Pos::Counter => "Move to counter",
        Pos::Stove => "Move to stove",
    };
    Some(Neighbor::new(new_state, 1, action.to_owned()))
}

/// Pick the pot up, possible when the actor stands where the pot is.
pub fn pick_up(state: &State, holdable: Holdable) -> (r: Option<Neighbor<State, String>>)
    ensures
        match r {
            Some(n) => spec_pick_up(*state, holdable) == Some((n.state, n.cost as nat, n.action@)),
            None => spec_pick_up(*state, holdable) is None,
        },
{
    let precondition = state.pos == state.pot_pos;
    if !precondition {
        return None;
    }
    let mut new_state = *state;
    new_state.holding = Some(holdable);
    Some(Neighbor::new(new_state, 1, "Pick up pot".to_owned()))
}

/// Put down whatever is held.
pub fn put_down(state: &State) -> (r: Option<Neighbor<State, String>>)
    ensures
        match r {
            Some(n) => spec_put_down(*state) == Some((n.state, n.cost as nat, n.action@)),
            None => spec_put_down(*state) is None,
        },
{
    let empty_handed = match state.holding {
        Some(_h) => false,
        None => true,
    };
    if empty_handed {
        return None;
    }
    let mut new_state = *state;
    new_state.holding = None;
    Some(Neighbor::new(new_state, 1, "Put down pot".to_owned()))
}

/// Switch `object` on, possible from its required position when it is off.
pub fn turn_on(state: &State, object: Activatable, required_pos: Pos) -> (r: Option<
    Neighbor<State, String>,
>)
    ensures
        match r {
            Some(n) => spec_turn_on(*state, object, required_pos) == Some(
                (n.state, n.cost as nat, n.action@),
            ),
            None => spec_turn_on(*state, object, required_pos) is None,
        },
{
    if state.pos != required_pos {
        return None;
    }
    match object {
        Activatable::Stove => {
            if state.stove_on {
                None
            } else {
                let mut new_state = *state;
                new_state.stove_on = true;
                Some(Neighbor::new(new_state, 1, "Turn on stove".to_owned()))
            }
        },
        Activatable::Faucet => {
            if state.faucet_on {
                None
            } else {
                let mut new_state = *state;
                new_state.faucet_on = true;
                Some(Neighbor::new(new_state, 1, "Turn on faucet".to_owned()))
            }
        },
    }
}

/// Switch `object` off, possible from its required position when it is on.
pub fn turn_off(state: &State, object: Activatable, required_pos: Pos) -> (r: Option<
    Neighbor<State, String>,
>)
    ensures
        match r {
            Some(n) => spec_turn_off(*state, object, required_pos) == Some(
                (n.state, n.cost as nat, n.action@),
            ),
            None => spec_turn_off(*state, object, required_pos) is None,
        },
{
    if state.pos != required_pos {
        return None;
    }
    match object {
        Activatable::Stove => {
            if !state.stove_on {
                None
            } else {
                let mut new_state = *state;
                new_state.stove_on = false;
                Some(Neighbor::new(new_state, 1, "Turn off stove".to_owned()))
            }
        },
        Activatable::Faucet => {
            if !state.faucet_on {
                None
            } else {
                let mut new_state = *state;
                new_state.faucet_on = false;
                Some(Neighbor::new(new_state, 1, "Turn off faucet".to_owned()))
            }
        },
    }
}

/// Let time pass: the pot fills when it sits under a running faucet.
pub fn wait(state: &State) -> (r: Option<Neighbor<State, String>>)
    ensures
        match r {
            Some(n) => spec_wait(*state) == Some((n.state, n.cost as nat, n.action@)),
            None => spec_wait(*state) is None,
        },
{
    let mut new_state = *state;
    if state.pot_pos == Pos::Sink && state.faucet_on {
        new_state.pot_filled = true;
    }
    Some(Neighbor::new(new_state, 1, "wait".to_owned()))
}

} // verus!

verus! {

pub open spec fn opt_seq_k(o: Option<(State, nat, Seq<char>)>) -> Seq<(State, nat, Seq<char>)> {
    match o {
        Some(t) => seq![t],
        None => Seq::empty(),
    }
}

/// Every legal transition out of `s`: the three moves, pick up, put down,
/// the four switch actions, then wait, in that order.
pub open spec fn kitchen_succs(s: State) -> Seq<(State, nat, Seq<char>)> {
    opt_seq_k(spec_move_actor(s, Pos::Sink)) + opt_seq_k(spec_move_actor(s, Pos::Counter))
        + opt_seq_k(spec_move_actor(s, Pos::Stove)) + opt_seq_k(spec_pick_up(s, Holdable::Pot))
        + opt_seq_k(spec_put_down(s)) + opt_seq_k(spec_turn_on(s, Activatable::Faucet, Pos::Sink))
        + opt_seq_k(spec_turn_on(s, Activatable::Stove, Pos::Stove)) + opt_seq_k(
        spec_turn_off(s, Activatable::Faucet, Pos::Sink),
    ) + opt_seq_k(spec_turn_off(s, Activatable::Stove, Pos::Stove)) + opt_seq_k(spec_wait(s))
}

/// Elementwise correspondence of produced neighbors with their model.
pub open spec fn corr_k(r: Seq<Neighbor<State, String>>, s: Seq<(State, nat, Seq<char>)>) -> bool {
    r.len() == s.len() && forall|i: int|
        0 <= i < r.len() ==> {
            &&& (#[trigger] r[i]).state == s[i].0
            &&& r[i].cost as nat == s[i].1
            &&& r[i].action@ == s[i].2
        }
}

fn push_opt_k(
    r: &mut Vec<Neighbor<State, String>>,
    o: Option<Neighbor<State, String>>,
    Ghost(m): Ghost<Option<(State, nat, Seq<char>)>>,
)
    requires
        match o {
            Some(n) => m == Some((n.state, n.cost as nat, n.action@)),
            None => m is None,
        },
    ensures
        final(r)@.len() == old(r)@.len() + opt_seq_k(m).len(),
        forall|i: int| 0 <= i < old(r)@.len() ==> final(r)@[i] == old(r)@[i],
        m matches Some(t) ==> (final(r)@.last().state == t.0 && final(r)@.last().cost as nat == t.1
            && final(r)@.last().action@ == t.2),
{
    match o {
        Some(n) => {
            r.push(n);
        },
        None => {},
    }
}

/// All neighbors of `state`: each kitchen action whose precondition holds.
pub fn neighbors(state: &State) -> (r: Vec<Neighbor<State, String>>)
    ensures
        corr_k(r@, kitchen_succs(*state)),
{
    let s = *state;
    let mut r: Vec<Neighbor<State, String>> = Vec::new();
    let ghost c1 = opt_seq_k(spec_move_actor(s, Pos::Sink));
    let ghost c2 = c1 + opt_seq_k(spec_move_actor(s, Pos::Counter));
    let ghost c3 = c2 + opt_seq_k(spec_move_actor(s, Pos::Stove));
    let ghost c4 = c3 + opt_seq_k(spec_pick_up(s, Holdable::Pot));
    let ghost c5 = c4 + opt_seq_k(spec_put_down(s));
    let ghost c6 = c5 + opt_seq_k(spec_turn_on(s, Activatable::Faucet, Pos::Sink));
    let ghost c7 = c6 + opt_seq_k(spec_turn_on(s, Activatable::Stove, Pos::Stove));
    let ghost c8 = c7 + opt_seq_k(spec_turn_off(s, Activatable::Faucet, Pos::Sink));
    let ghost c9 = c8 + opt_seq_k(spec_turn_off(s, Activatable::Stove, Pos::Stove));
    let ghost c10 = c9 + opt_seq_k(spec_wait(s));
    push_opt_k(&mut r, move_actor(state, Pos::Sink), Ghost(spec_move_actor(s, Pos::Sink)));
    proof {
        assert(corr_k(r@, c1));
    }
    push_opt_k(&mut r, move_actor(state, Pos::Counter), Ghost(spec_move_actor(s, Pos::Counter)));
    proof {
        assert(corr_k(r@, c2));
    }
    push_opt_k(&mut r, move_actor(state, Pos::Stove), Ghost(spec_move_actor(s, Pos::Stove)));
    proof {
        assert(corr_k(r@, c3));
    }
    push_opt_k(&mut r, pick_up(state, Holdable::Pot), Ghost(spec_pick_up(s, Holdable::Pot)));
    proof {
        assert(corr_k(r@, c4));
    }
    push_opt_k(&mut r, put_down(state), Ghost(spec_put_down(s)));
    proof {
        assert(corr_k(r@, c5));
    }
    push_opt_k(
        &mut r,
        turn_on(state, Activatable::Faucet, Pos::Sink),
        Ghost(spec_turn_on(s, Activatable::Faucet, Pos::Sink)),
    );
    proof {
        assert(corr_k(r@, c6));
    }
    push_opt_k(
        &mut r,
        turn_on(state, Activatable::Stove, Pos::Stove),
        Ghost(spec_turn_on(s, Activatable::Stove, Pos::Stove)),
    );
    proof {
        assert(corr_k(r@, c7));
    }
    push_opt_k(
        &mut r,
        turn_off(state, Activatable::Faucet, Pos::Sink),
        Ghost(spec_turn_off(s, Activatable::Faucet, Pos::Sink)),
    );
    proof {
        assert(corr_k(r@, c8));
    }
    push_opt_k(
        &mut r,
        turn_off(state, Activatable::Stove, Pos::Stove),
        Ghost(spec_turn_off(s, Activatable::Stove, Pos::Stove)),
    );
    proof {
        assert(corr_k(r@, c9));
    }
    push_opt_k(&mut r, wait(state), Ghost(spec_wait(s)));
    proof {
        assert(corr_k(r@, c10));
        assert(c10 == kitchen_succs(s));
    }
    r
}

/// The kitchen world: it has no varying world data.
#[derive(Debug, Clone, Copy)]
pub struct KitchenDomain;

impl crate::a_star::Domain for KitchenDomain {
    type St = State;

    type Act = String;

    open spec fn inv(&self) -> bool {
        true
    }

    open spec fn st_inv(&self, s: State) -> bool {
        true
    }

    open spec fn h(&self, s: State) -> nat {
        spec_heuristic(s)
    }

    open spec fn succs(&self, s: State) -> Seq<(State, nat, Seq<char>)> {
        kitchen_succs(s)
    }

    proof fn space(&self) -> (all: Seq<State>) {
        let positions = seq![Pos::Sink, Pos::Counter, Pos::Stove];
        let bools = seq![true, false];
        let holds = seq![Option::<Holdable>::None, Some(Holdable::Pot)];
        let tuples = crate::finite::cross(
            crate::finite::cross(
                crate::finite::cross(
                    crate::finite::cross(crate::finite::cross(positions, positions), bools),
                    bools,
                ),
                bools,
            ),
            holds,
        );
        let all = tuples.map(
            |i: int, t: (((((Pos, Pos), bool), bool), bool), Option<Holdable>)|
                State {
                    pos: t.0.0.0.0.0,
                    pot_pos: t.0.0.0.0.1,
                    pot_filled: t.0.0.0.1,
                    faucet_on: t.0.0.1,
                    stove_on: t.0.1,
                    holding: t.1,
                },
        );
        assert forall|v: State| self.st_inv(v) implies all.contains(v) by {
            assert(positions.contains(v.pos)) by {
                match v.pos {
                    Pos::Sink => assert(positions[0] == v.pos),
                    Pos::Counter => assert(positions[1] == v.pos),
                    Pos::Stove => assert(positions[2] == v.pos),
                }
            };
            assert(positions.contains(v.pot_pos)) by {
                match v.pot_pos {
                    Pos::Sink => assert(positions[0] == v.pot_pos),
                    Pos::Counter => assert(positions[1] == v.pot_pos),
                    Pos::Stove => assert(positions[2] == v.pot_pos),
                }
            };
            assert(bools.contains(v.pot_filled)) by {
                if v.pot_filled {
                    assert(bools[0] == v.pot_filled);
                } else {
                    assert(bools[1] == v.pot_filled);
                }
            };
            assert(bools.contains(v.faucet_on)) by {
                if v.faucet_on {
                    assert(bools[0] == v.faucet_on);
                } else {
                    assert(bools[1] == v.faucet_on);
                }
            };
            assert(bools.contains(v.stove_on)) by {
                if v.stove_on {
                    assert(bools[0] == v.stove_on);
                } else {
                    assert(bools[1] == v.stove_on);
                }
            };
            assert(holds.contains(v.holding)) by {
                match v.holding {
                    None => assert(holds[0] == v.holding),
                    Some(Holdable::Pot) => assert(holds[1] == v.holding),
                }
            };
            crate::finite::lemma_cross_contains(positions, positions, v.pos, v.pot_pos);
            crate::finite::lemma_cross_contains(
                crate::finite::cross(positions, positions),
                bools,
                (v.pos, v.pot_pos),
                v.pot_filled,
            );
            crate::finite::lemma_cross_contains(
                crate::finite::cross(crate::finite::cross(positions, positions), bools),
                bools,
                ((v.pos, v.pot_pos), v.pot_filled),
                v.faucet_on,
            );
            crate::finite::lemma_cross_contains(
                crate::finite::cross(
                    crate::finite::cross(crate::finite::cross(positions, positions), bools),
                    bools,
                ),
                bools,
                (((v.pos, v.pot_pos), v.pot_filled), v.faucet_on),
                v.stove_on,
            );
            crate::finite::lemma_cross_contains(
                crate::finite::cross(
                    crate::finite::cross(
                        crate::finite::cross(crate::finite::cross(positions, positions), bools),
                        bools,
                    ),
                    bools,
                ),
                holds,
                ((((v.pos, v.pot_pos), v.pot_filled), v.faucet_on), v.stove_on),
                v.holding,
            );
            let k = choose|k: int|
                0 <= k < tuples.len() && tuples[k] == (
                    ((((v.pos, v.pot_pos), v.pot_filled), v.faucet_on), v.stove_on),
                    v.holding,
                );
            assert(all[k] == v);
        };
        all
    }

    fn heuristic(&self, s: &State) -> (r: u64) {
        heuristic(s)
    }

    fn successors(&self, s: &State) -> (r: Vec<Neighbor<State, String>>) {
        neighbors(s)
    }

    fn state_eq(&self, a: &State, b: &State) -> (r: bool) {
        let holding_eq = match (a.holding, b.holding) {
            (None, None) => true,
            (Some(x), Some(y)) => x == y,
            _ => false,
        };
        a.pos == b.pos && a.pot_pos == b.pot_pos && a.pot_filled == b.pot_filled && a.faucet_on
            == b.faucet_on && a.stove_on == b.stove_on && holding_eq
    }

    fn clone_state(&self, s: &State) -> (r: State) {
        *s
    }

    fn clone_action(&self, a: &String) -> (r: String) {
        a.clone()
    }
}

/// Plan the kitchen task from `start`: an action sequence leading to a
/// state that meets every kitchen condition, or the exhaustion signal
/// exactly when no action sequence reaches one.
pub fn solve_kitchen(start: &State) -> (r: Result<
    Vec<(State, String)>,
    crate::a_star::SearchExhausted,
>)
    ensures
        r matches Ok(path) ==> crate::a_star::plans_to_goal(
            KitchenDomain,
            *start,
            crate::a_star::pairs_view::<KitchenDomain>(path@),
        ),
        r is Err ==> crate::a_star::no_reachable_goal(KitchenDomain, *start),
        spec_heuristic(*start) == 0 ==> (r matches Ok(path) && path@.len() == 0),
{
    let d = KitchenDomain;
    crate::a_star::a_star(&d, start)
}

} // verus!
