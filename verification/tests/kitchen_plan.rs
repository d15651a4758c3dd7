use rustplan::kitchen::{
    heuristic, move_actor, neighbors, pick_up, put_down, solve_kitchen, turn_off, turn_on, wait,
    Activatable, Holdable, Pos, State,
};

fn start_state() -> State {
    State {
        pos: Pos::Counter,
        pot_pos: Pos::Counter,
        pot_filled: false,
        faucet_on: false,
        stove_on: false,
        holding: None,
    }
}

fn goal_reached(s: &State) -> bool {
    s.pot_pos == Pos::Stove
        && s.stove_on
        && s.pot_filled
        && s.holding.is_none()
        && !s.faucet_on
}

#[test]
fn kitchen_heuristic_counts_unmet_conditions() {
    assert_eq!(heuristic(&start_state()), 3);
    let goal = State {
        pos: Pos::Stove,
        pot_pos: Pos::Stove,
        pot_filled: true,
        faucet_on: false,
        stove_on: true,
        holding: None,
    };
    assert_eq!(heuristic(&goal), 0);
    let worst = State {
        pos: Pos::Sink,
        pot_pos: Pos::Counter,
        pot_filled: false,
        faucet_on: true,
        stove_on: false,
        holding: Some(Holdable::Pot),
    };
    assert_eq!(heuristic(&worst), 5);
}

#[test]
fn kitchen_plan_is_eight_steps() {
    let result = solve_kitchen(&start_state());
    let path = result.expect("the kitchen task is solvable");
    assert_eq!(path.len(), 8);
    assert_eq!(path[0].0, start_state());
    // replay the plan to check it really reaches the goal
    let mut s = start_state();
    for (state, action) in &path {
        assert_eq!(*state, s);
        let ns = neighbors(&s);
        let step = ns
            .iter()
            .find(|n| n.action == *action)
            .expect("each planned action is a legal transition");
        s = step.state;
        assert_eq!(step.cost, 1);
    }
    assert!(goal_reached(&s));
}

#[test]
fn kitchen_goal_state_gives_empty_plan() {
    let goal = State {
        pos: Pos::Stove,
        pot_pos: Pos::Stove,
        pot_filled: true,
        faucet_on: false,
        stove_on: true,
        holding: None,
    };
    let result = solve_kitchen(&goal);
    let path = result.expect("already satisfied");
    assert!(path.is_empty());
}

#[test]
fn kitchen_move_carries_held_pot() {
    let mut s = start_state();
    s.holding = Some(Holdable::Pot);
    let n = move_actor(&s, Pos::Sink).expect("different position");
    assert_eq!(n.state.pos, Pos::Sink);
    assert_eq!(n.state.pot_pos, Pos::Sink);
    assert_eq!(n.action, "Move to sink");

    let without = move_actor(&start_state(), Pos::Stove).expect("different position");
    assert_eq!(without.state.pot_pos, Pos::Counter);
    assert!(move_actor(&start_state(), Pos::Counter).is_none());
}

#[test]
fn kitchen_pick_up_and_put_down() {
    let n = pick_up(&start_state(), Holdable::Pot).expect("actor is at the pot");
    assert_eq!(n.state.holding, Some(Holdable::Pot));

    let mut apart = start_state();
    apart.pos = Pos::Sink;
    assert!(pick_up(&apart, Holdable::Pot).is_none());

    assert!(put_down(&start_state()).is_none());
    let mut held = start_state();
    held.holding = Some(Holdable::Pot);
    let dropped = put_down(&held).expect("holding something");
    assert_eq!(dropped.state.holding, None);
}

#[test]
fn kitchen_switches_need_right_position_and_state() {
    let mut at_sink = start_state();
    at_sink.pos = Pos::Sink;
    let n = turn_on(&at_sink, Activatable::Faucet, Pos::Sink).expect("at sink, faucet off");
    assert!(n.state.faucet_on);
    assert_eq!(n.action, "Turn on faucet");

    assert!(turn_on(&start_state(), Activatable::Faucet, Pos::Sink).is_none());
    assert!(turn_off(&at_sink, Activatable::Faucet, Pos::Sink).is_none());

    let mut running = at_sink;
    running.faucet_on = true;
    let off = turn_off(&running, Activatable::Faucet, Pos::Sink).expect("faucet on");
    assert!(!off.state.faucet_on);
}

#[test]
fn kitchen_wait_fills_pot_under_running_faucet() {
    let mut s = start_state();
    s.pos = Pos::Sink;
    s.pot_pos = Pos::Sink;
    s.faucet_on = true;
    let n = wait(&s).expect("wait is always available");
    assert!(n.state.pot_filled);
    assert_eq!(n.action, "wait");

    let idle = wait(&start_state()).expect("wait is always available");
    assert!(!idle.state.pot_filled);
}

#[test]
fn kitchen_neighbors_have_unit_cost() {
    let ns = neighbors(&start_state());
    // moves to sink and stove, pick up, wait
    assert_eq!(ns.len(), 4);
    assert!(ns.iter().all(|n| n.cost == 1));
}
