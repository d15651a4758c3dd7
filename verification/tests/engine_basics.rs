use rustplan::a_star::{a_star, reconstruct_path, Neighbor};
use rustplan::doors::{Action, DoorDomain, Objective, State, World};

fn line_world() -> World {
    World {
        pos_move_groups: vec![0, 0, 0],
        door_side_a: vec![],
        door_side_b: vec![],
    }
}

#[test]
fn neighbor_new_keeps_fields() {
    let n = Neighbor::new(
        State {
            actor_pos: 1,
            door_states: vec![],
        },
        7,
        Action::Move { to: 1 },
    );
    assert_eq!(n.state.actor_pos, 1);
    assert_eq!(n.cost, 7);
    assert!(matches!(n.action, Action::Move { to: 1 }));
}

#[test]
fn a_star_direct_on_door_domain() {
    let dom = DoorDomain {
        world: line_world(),
        objectives: vec![Objective::ActorPos(2)],
    };
    let start = State {
        actor_pos: 0,
        door_states: vec![],
    };
    let path = a_star(&dom, &start).expect("position 2 is reachable");
    assert_eq!(path.len(), 1);
    assert_eq!(path[0].0, start);
    assert!(matches!(path[0].1, Action::Move { to: 2 }));
}

#[test]
fn a_star_exhausts_on_unreachable_goal() {
    // position 2 sits in another movement group and no door leads there
    let dom = DoorDomain {
        world: World {
            pos_move_groups: vec![0, 0, 1],
            door_side_a: vec![],
            door_side_b: vec![],
        },
        objectives: vec![Objective::ActorPos(2)],
    };
    let start = State {
        actor_pos: 0,
        door_states: vec![],
    };
    assert!(a_star(&dom, &start).is_err());
}

#[test]
fn reconstruct_path_walks_predecessors() {
    let dom = DoorDomain {
        world: line_world(),
        objectives: vec![],
    };
    let s0 = State {
        actor_pos: 0,
        door_states: vec![],
    };
    let s1 = State {
        actor_pos: 1,
        door_states: vec![],
    };
    let s2 = State {
        actor_pos: 2,
        door_states: vec![],
    };
    let cf = vec![
        (s1.clone(), s0.clone(), Action::Move { to: 1 }),
        (s2.clone(), s1.clone(), Action::Move { to: 2 }),
    ];
    let path = reconstruct_path(&dom, &cf, &s0, &s2);
    assert_eq!(path.len(), 2);
    assert_eq!(path[0].0, s0);
    assert!(matches!(path[0].1, Action::Move { to: 1 }));
    assert_eq!(path[1].0, s1);
    assert!(matches!(path[1].1, Action::Move { to: 2 }));

    let empty = reconstruct_path(&dom, &vec![], &s0, &s0);
    assert!(empty.is_empty());
}
