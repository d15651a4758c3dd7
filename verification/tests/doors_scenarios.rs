use rustplan::doors::{
    close_door, get_neighbors, heuristic, move_actor, open_door, traverse_door, Action, DoorState,
    Objective, State, World,
};
use rustplan::scenario::{run_scenario, scenario_wf, PlannerResult, Scenario};

fn two_group_world() -> World {
    World {
        pos_move_groups: vec![0, 0, 0, 0, 1, 1, 1, 1],
        door_side_a: vec![3],
        door_side_b: vec![4],
    }
}

fn two_group_scenario(objectives: Vec<Objective>) -> Scenario {
    Scenario {
        world: two_group_world(),
        state: State {
            actor_pos: 0,
            door_states: vec![DoorState::Closed],
        },
        objectives,
    }
}

#[test]
fn door_world_plan_through_door() {
    let scenario = two_group_scenario(vec![Objective::ActorPos(5)]);
    assert!(scenario_wf(&scenario));
    let result: PlannerResult = run_scenario(scenario);
    assert!(result.success);
    assert_eq!(result.actions.len(), 4);
    assert_eq!(
        result.actions,
        vec![
            Action::Move { to: 3 },
            Action::OpenDoor { door: 0 },
            Action::TraverseDoor { door: 0 },
            Action::Move { to: 5 },
        ]
    );
}

#[test]
fn start_already_satisfies_objectives() {
    let scenario = two_group_scenario(vec![Objective::ActorPos(0)]);
    let result = run_scenario(scenario);
    assert!(result.success);
    assert!(result.actions.is_empty());
}

#[test]
fn unreachable_objective_reports_exhaustion() {
    let scenario = two_group_scenario(vec![Objective::DoorState(0, DoorState::Broken)]);
    let result = run_scenario(scenario);
    assert!(!result.success);
    assert!(result.actions.is_empty());
}

#[test]
fn identical_runs_give_identical_plans() {
    let a = run_scenario(two_group_scenario(vec![
        Objective::ActorPos(6),
        Objective::DoorState(0, DoorState::Open),
    ]));
    let b = run_scenario(two_group_scenario(vec![
        Objective::ActorPos(6),
        Objective::DoorState(0, DoorState::Open),
    ]));
    assert_eq!(a.success, b.success);
    assert_eq!(a.actions, b.actions);
}

#[test]
fn no_objectives_means_immediate_success() {
    let scenario = two_group_scenario(vec![]);
    let result = run_scenario(scenario);
    assert!(result.success);
    assert!(result.actions.is_empty());
}

#[test]
fn door_objective_plan() {
    let scenario = two_group_scenario(vec![Objective::DoorState(0, DoorState::Open)]);
    let result = run_scenario(scenario);
    assert!(result.success);
    assert_eq!(
        result.actions,
        vec![Action::Move { to: 3 }, Action::OpenDoor { door: 0 }]
    );
}

#[test]
fn heuristic_counts_unmet_objectives() {
    let state = State {
        actor_pos: 2,
        door_states: vec![DoorState::Closed],
    };
    let objectives = vec![
        Objective::ActorPos(2),
        Objective::ActorPos(5),
        Objective::DoorState(0, DoorState::Open),
    ];
    assert_eq!(heuristic(&state, &objectives), 2);
    assert_eq!(heuristic(&state, &[]), 0);
}

#[test]
fn move_actor_within_group_only() {
    let world = two_group_world();
    let state = State {
        actor_pos: 0,
        door_states: vec![DoorState::Closed],
    };
    let n = move_actor(&state, &world, 2).expect("same group");
    assert_eq!(n.state.actor_pos, 2);
    assert_eq!(n.cost, 1);
    assert!(matches!(n.action, Action::Move { to: 2 }));
    assert!(move_actor(&state, &world, 0).is_none(), "no move in place");
    assert!(move_actor(&state, &world, 5).is_none(), "other group");
}

#[test]
fn open_door_only_when_closed_and_adjacent() {
    let world = two_group_world();
    let at_door = State {
        actor_pos: 3,
        door_states: vec![DoorState::Closed],
    };
    let n = open_door(&at_door, &world, 0).expect("closed door, at side a");
    assert_eq!(n.state.door_states[0], DoorState::Open);
    assert_eq!(n.state.actor_pos, 3);
    assert!(matches!(n.action, Action::OpenDoor { door: 0 }));

    let far_away = State {
        actor_pos: 1,
        door_states: vec![DoorState::Closed],
    };
    assert!(open_door(&far_away, &world, 0).is_none());

    let locked = State {
        actor_pos: 3,
        door_states: vec![DoorState::Locked],
    };
    assert!(open_door(&locked, &world, 0).is_none());

    let already_open = State {
        actor_pos: 3,
        door_states: vec![DoorState::Open],
    };
    assert!(open_door(&already_open, &world, 0).is_none());
}

#[test]
fn close_door_only_when_open_and_adjacent() {
    let world = two_group_world();
    let at_door = State {
        actor_pos: 4,
        door_states: vec![DoorState::Open],
    };
    let n = close_door(&at_door, &world, 0).expect("open door, at side b");
    assert_eq!(n.state.door_states[0], DoorState::Closed);
    assert!(matches!(n.action, Action::CloseDoor { door: 0 }));

    let closed = State {
        actor_pos: 4,
        door_states: vec![DoorState::Closed],
    };
    assert!(close_door(&closed, &world, 0).is_none());
}

#[test]
fn traverse_door_swaps_sides() {
    let world = two_group_world();
    let side_a = State {
        actor_pos: 3,
        door_states: vec![DoorState::Open],
    };
    let n = traverse_door(&side_a, &world, 0).expect("open door");
    assert_eq!(n.state.actor_pos, 4);
    assert!(matches!(n.action, Action::TraverseDoor { door: 0 }));

    let side_b = State {
        actor_pos: 4,
        door_states: vec![DoorState::Open],
    };
    let back = traverse_door(&side_b, &world, 0).expect("open door");
    assert_eq!(back.state.actor_pos, 3);

    let closed = State {
        actor_pos: 3,
        door_states: vec![DoorState::Closed],
    };
    assert!(traverse_door(&closed, &world, 0).is_none());
}

#[test]
fn get_neighbors_enumerates_legal_transitions() {
    let world = two_group_world();
    let state = State {
        actor_pos: 3,
        door_states: vec![DoorState::Closed],
    };
    let ns = get_neighbors(&state, &world);
    // moves to 0, 1, 2 plus opening the door
    assert_eq!(ns.len(), 4);
    assert!(ns
        .iter()
        .any(|n| matches!(n.action, Action::OpenDoor { door: 0 })));
    assert!(ns.iter().all(|n| n.cost == 1));
}

#[test]
fn scenario_wf_rejects_bad_indices() {
    assert!(scenario_wf(&two_group_scenario(vec![Objective::ActorPos(5)])));

    let mut bad_side = two_group_scenario(vec![]);
    bad_side.world.door_side_b = vec![9];
    assert!(!scenario_wf(&bad_side));

    let bad_objective = two_group_scenario(vec![Objective::ActorPos(8)]);
    assert!(!scenario_wf(&bad_objective));

    let bad_door_objective = two_group_scenario(vec![Objective::DoorState(1, DoorState::Open)]);
    assert!(!scenario_wf(&bad_door_objective));

    let mut bad_actor = two_group_scenario(vec![]);
    bad_actor.state.actor_pos = 8;
    assert!(!scenario_wf(&bad_actor));

    let mut bad_doors = two_group_scenario(vec![]);
    bad_doors.state.door_states = vec![];
    assert!(!scenario_wf(&bad_doors));
}
