//! Scenario handling: a world, an initial state and objectives, run
//! through the engine to produce a plan report.
use vstd::prelude::*;

use crate::a_star::{a_star, lemma_plan_refutes_unreachable, no_reachable_goal, pairs_view,
    plan_connects};
use crate::doors::{Action, DoorDomain, Objective, State, StateView, World};

verus! {

/// A world description, an initial state, and the objectives to satisfy.
#[derive(Debug, Clone)]
pub struct Scenario {
    pub world: World,
    pub state: State,
    pub objectives: Vec<Objective>,
}

/// An ordered list of actions plus a success flag; on failure the list is
/// empty and `success` is false.
#[derive(Debug, Clone)]
pub struct PlannerResult {
    pub actions: Vec<Action>,
    pub success: bool,
}

/// The domain a scenario describes.
pub open spec fn scenario_domain(s: Scenario) -> DoorDomain {
    DoorDomain { world: s.world, objectives: s.objectives }
}

/// Structural validity of a scenario: all indices in range.
pub open spec fn spec_scenario_wf(s: Scenario) -> bool {
    &&& s.world.wf()
    &&& forall|i: int|
        0 <= i < s.objectives@.len() ==> crate::doors::objective_wf(
            s.world,
            #[trigger] s.objectives@[i],
        )
    &&& s.state@.actor_pos < s.world.npos()
    &&& s.state@.door_states.len() == s.world.ndoors()
}

/// Check the structural invariants of a scenario: door sides in range,
/// objective indices in range, initial state consistent with the world.
pub fn scenario_wf(s: &Scenario) -> (r: bool)
    ensures
        r == spec_scenario_wf(*s),
{
    let npos = s.world.pos_move_groups.len();
    let ndoors = s.world.door_side_a.len();
    if s.world.door_side_b.len() != ndoors {
        return false;
    }
    let mut i: usize = 0;
    while i < ndoors
        invariant
            0 <= i <= s.world.door_side_a@.len(),
            npos == s.world.npos(),
            ndoors == s.world.ndoors(),
            s.world.door_side_b@.len() == s.world.ndoors(),
            forall|k: int| 0 <= k < i ==> (#[trigger] s.world.door_side_a@[k]) < s.world.npos(),
            forall|k: int| 0 <= k < i ==> (#[trigger] s.world.door_side_b@[k]) < s.world.npos(),
        decreases s.world.door_side_a@.len() - i,
    {
        if s.world.door_side_a[i] >= npos || s.world.door_side_b[i] >= npos {
            return false;
        }
        i = i + 1;
    }
    proof {
        assert(i >= s.world.ndoors());
        assert(s.world.wf());
    }
    let mut k: usize = 0;
    while k < s.objectives.len()
        invariant
            0 <= k <= s.objectives@.len(),
            npos == s.world.npos(),
            ndoors == s.world.ndoors(),
            s.world.wf(),
            forall|j: int|
                0 <= j < k ==> crate::doors::objective_wf(s.world, #[trigger] s.objectives@[j]),
        decreases s.objectives@.len() - k,
    {
        let ok = match s.objectives[k] {
            Objective::ActorPos(p) => p < npos,
            Objective::DoorState(di, _ds) => di < ndoors,
        };
        if !ok {
            return false;
        }
        k = k + 1;
    }
    if s.state.actor_pos >= npos {
        return false;
    }
    if s.state.door_states.len() != ndoors {
        return false;
    }
    true
}

/// Run a search for the scenario's objectives and report the actions.
///
/// `success` is true exactly when some action sequence reaches a state
/// meeting all objectives; the reported actions are then such a sequence,
/// and they are empty exactly when the initial state already qualifies.
pub fn run_scenario(scenario: Scenario) -> (r: PlannerResult)
    requires
        spec_scenario_wf(scenario),
    ensures
        r.success == !no_reachable_goal(scenario_domain(scenario), scenario.state@),
        r.success ==> exists|pairs: Seq<(StateView, Action)>, goal: StateView|
            {
                &&& #[trigger] plan_connects(scenario_domain(scenario), scenario.state@, pairs, goal)
                &&& pairs.len() == r.actions@.len()
                &&& forall|i: int| 0 <= i < pairs.len() ==> (#[trigger] pairs[i]).1 == r.actions@[i]
            },
        !r.success ==> r.actions@.len() == 0,
        unmet_zero_start(scenario) ==> (r.success && r.actions@.len() == 0),
    {
    let ghost dom_g = scenario_domain(scenario);
    let s0 = scenario.state;
    let dom = DoorDomain { world: scenario.world, objectives: scenario.objectives };
    proof {
        assert(dom == dom_g);
    }
    let result = a_star(&dom, &s0);
    match result {
        Ok(path) => {
            let mut actions: Vec<Action> = Vec::new();
            let mut i: usize = 0;
            while i < path.len()
                invariant
                    0 <= i <= path@.len(),
                    actions@.len() == i,
                    forall|k: int| 0 <= k < i ==> (#[trigger] actions@[k]) == path@[k].1,
                decreases path@.len() - i,
            {
                actions.push(path[i].1);
                i = i + 1;
            }
            proof {
                let pv = pairs_view::<DoorDomain>(path@);
                let goal = choose|goal: StateView|
                    #[trigger] plan_connects(dom_g, s0@, pv, goal);
                lemma_plan_refutes_unreachable::<DoorDomain>(dom_g, s0@, pv, goal);
                assert forall|k: int| 0 <= k < pv.len() implies (#[trigger] pv[k]).1
                    == actions@[k] by {
                    assert(pv[k].1 == path@[k].1@);
                };
            }
            PlannerResult { actions, success: true }
        },
        Err(_e) => {
            PlannerResult { actions: Vec::new(), success: false }
        },
    }
}

/// The initial state already meets every objective.
pub open spec fn unmet_zero_start(s: Scenario) -> bool {
    crate::doors::unmet_count(s.objectives@, s.state@) == 0
}

} // verus!
