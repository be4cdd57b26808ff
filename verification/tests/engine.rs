use astar_planner::astar::AStar;
use astar_planner::grid::{GridControl, GridModel, GridSampler, GridState};
use astar_planner::model::{PathFindingErr, PathResult, Trajectory};
use astar_planner::weighted::{WeightedModel, WeightedSampler};

fn gs(x: i32, y: i32) -> GridState {
    GridState { x, y }
}

fn open_grid() -> GridModel {
    GridModel { obstacles: Vec::new() }
}

fn expect_final<M: astar_planner::model::Model>(r: PathResult<M>) -> Trajectory<M> {
    match r {
        PathResult::Final(t) => t,
        PathResult::Intermediate(_) => panic!("expected Final, got Intermediate"),
        PathResult::Failure(_) => panic!("expected Final, got Failure"),
    }
}

fn assert_unit_steps(t: &Trajectory<GridModel>) {
    for w in t.trajectory.windows(2) {
        let a = w[0].0;
        let b = w[1].0;
        assert_eq!((a.x - b.x).abs() + (a.y - b.y).abs(), 1);
    }
}

#[test]
fn straight_line_on_open_grid() {
    let model = open_grid();
    let mut sampler = GridSampler {};
    let mut engine = AStar::new();
    let t = expect_final(engine.optimize(&model, &gs(0, 0), &gs(3, 0), &mut sampler));
    assert_eq!(t.cost, 3);
    assert_eq!(t.trajectory.len(), 4);
    assert_eq!(t.trajectory[0].0, gs(0, 0));
    assert_eq!(t.trajectory[0].1, GridControl::Stay);
    assert_eq!(t.trajectory[3].0, gs(3, 0));
    assert_unit_steps(&t);
}

#[test]
fn obstacle_forces_minimal_detour() {
    let model = GridModel { obstacles: vec![gs(1, 0)] };
    let mut sampler = GridSampler {};
    let mut engine = AStar::new();
    let t = expect_final(engine.optimize(&model, &gs(0, 0), &gs(3, 0), &mut sampler));
    assert_eq!(t.cost, 5);
    assert_eq!(t.trajectory.len(), 6);
    assert_eq!(t.trajectory[0].0, gs(0, 0));
    assert_eq!(t.trajectory[5].0, gs(3, 0));
    assert_unit_steps(&t);
    for (s, _) in &t.trajectory {
        assert_ne!(*s, gs(1, 0));
    }
}

#[test]
fn isolated_start_is_unreachable() {
    let model = GridModel { obstacles: vec![gs(1, 0), gs(-1, 0), gs(0, 1), gs(0, -1)] };
    let mut sampler = GridSampler {};
    let mut engine = AStar::new();
    match engine.optimize(&model, &gs(0, 0), &gs(3, 0), &mut sampler) {
        PathResult::Failure(PathFindingErr::Unreachable) => {}
        _ => panic!("expected Unreachable"),
    }
}

#[test]
fn incremental_reports_unreachable_when_exhausted() {
    // One edge away from the start the graph ends; the goal is elsewhere.
    let model = WeightedModel { edges: vec![(0, 1, 1)] };
    let mut sampler = WeightedSampler { candidates: vec![1] };
    let mut engine = AStar::new();
    match engine.next_trajectory(&model, &0, &5, &mut sampler) {
        PathResult::Intermediate(t) => assert_eq!(t.trajectory.last().unwrap().0, 0),
        _ => panic!("expected Intermediate at the start node"),
    }
    match engine.next_trajectory(&model, &0, &5, &mut sampler) {
        PathResult::Intermediate(t) => assert_eq!(t.trajectory.last().unwrap().0, 1),
        _ => panic!("expected Intermediate at the dead end"),
    }
    match engine.next_trajectory(&model, &0, &5, &mut sampler) {
        PathResult::Failure(PathFindingErr::Unreachable) => {}
        _ => panic!("expected Unreachable once the open set is exhausted"),
    }
}

#[test]
fn start_satisfying_goal_short_circuits() {
    let model = open_grid();
    let mut sampler = GridSampler {};
    let mut engine = AStar::new();
    let t = expect_final(engine.optimize(&model, &gs(2, 2), &gs(2, 2), &mut sampler));
    assert_eq!(t.cost, 0);
    assert_eq!(t.trajectory, vec![(gs(2, 2), GridControl::Stay)]);
}

#[test]
fn cheaper_late_arrival_supersedes_costlier_early_one() {
    // The costlier route 0 -> 1 -> 3 (cost 11) reaches cell 3 before the
    // cheaper route 0 -> 2 -> 3 (cost 5) does; the cheaper one must win.
    let model = WeightedModel { edges: vec![(0, 1, 1), (0, 2, 2), (1, 3, 10), (2, 3, 3)] };
    let mut sampler = WeightedSampler { candidates: vec![0, 1, 2, 3] };
    let mut engine = AStar::new();
    let t = expect_final(engine.optimize(&model, &0, &3, &mut sampler));
    assert_eq!(t.cost, 5);
    let states: Vec<u64> = t.trajectory.iter().map(|p| p.0).collect();
    assert_eq!(states, vec![0, 2, 3]);
}

#[test]
fn incremental_agrees_with_run_to_completion() {
    let obstacles = vec![gs(1, 0)];
    let model = GridModel { obstacles: obstacles.clone() };
    let mut sampler = GridSampler {};
    let mut engine = AStar::new();
    let complete = expect_final(engine.optimize(&model, &gs(0, 0), &gs(3, 0), &mut sampler));

    let model2 = GridModel { obstacles };
    let mut sampler2 = GridSampler {};
    let mut engine2 = AStar::new();
    let mut rounds: usize = 0;
    let stepped = loop {
        match engine2.next_trajectory(&model2, &gs(0, 0), &gs(3, 0), &mut sampler2) {
            PathResult::Final(t) => break t,
            PathResult::Intermediate(_) => {}
            PathResult::Failure(_) => panic!("unexpected Unreachable"),
        }
        rounds += 1;
        assert!(rounds < 10_000, "incremental search failed to converge");
    };
    assert_eq!(stepped.cost, complete.cost);
    assert_eq!(stepped.trajectory, complete.trajectory);
}

#[test]
fn clear_allows_reuse_for_an_unrelated_problem() {
    let mut engine = AStar::new();
    let mut sampler = GridSampler {};
    let first = open_grid();
    let t1 = expect_final(engine.optimize(&first, &gs(0, 0), &gs(3, 0), &mut sampler));
    assert_eq!(t1.cost, 3);
    engine.clear();
    let second = GridModel { obstacles: vec![gs(1, 0)] };
    let t2 = expect_final(engine.optimize(&second, &gs(0, 0), &gs(3, 0), &mut sampler));
    assert_eq!(t2.cost, 5);
}

#[test]
fn inspection_shows_open_nodes_and_discovered_cells() {
    let model = WeightedModel { edges: vec![(0, 1, 1), (0, 2, 2), (1, 3, 10), (2, 3, 3)] };
    let mut sampler = WeightedSampler { candidates: vec![0, 1, 2, 3] };
    let mut engine = AStar::new();
    match engine.next_trajectory(&model, &0, &3, &mut sampler) {
        PathResult::Intermediate(t) => assert_eq!(t.trajectory.last().unwrap().0, 0),
        _ => panic!("expected Intermediate after the first expansion"),
    }
    let open = engine.inspect_queue(&model);
    assert_eq!(open.len(), 2);
    assert!(open.contains(&(1, 1)));
    assert!(open.contains(&(2, 2)));
    let mut cells = engine.inspect_discovered();
    cells.sort();
    assert_eq!(cells, vec![1, 2]);
}

#[test]
fn fresh_engine_has_nothing_to_inspect() {
    let engine: AStar<GridModel> = AStar::new();
    let model = open_grid();
    assert!(engine.inspect_queue(&model).is_empty());
    assert!(engine.inspect_discovered().is_empty());
}

#[test]
fn negative_coordinates_plan_correctly() {
    let model = open_grid();
    let mut sampler = GridSampler {};
    let mut engine = AStar::new();
    let t = expect_final(engine.optimize(&model, &gs(-2, -2), &gs(1, -2), &mut sampler));
    assert_eq!(t.cost, 3);
    assert_eq!(t.trajectory.len(), 4);
    assert_eq!(t.trajectory[0].0, gs(-2, -2));
    assert_eq!(t.trajectory[3].0, gs(1, -2));
    assert_unit_steps(&t);
}

#[test]
fn cost_accumulation_saturates_instead_of_overflowing() {
    let model = WeightedModel { edges: vec![(0, 1, u64::MAX), (1, 2, u64::MAX)] };
    let mut sampler = WeightedSampler { candidates: vec![1, 2] };
    let mut engine = AStar::new();
    let t = expect_final(engine.optimize(&model, &0, &2, &mut sampler));
    assert_eq!(t.cost, u64::MAX);
    let states: Vec<u64> = t.trajectory.iter().map(|p| p.0).collect();
    assert_eq!(states, vec![0, 1, 2]);
}
