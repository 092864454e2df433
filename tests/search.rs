use balls::astar::{solve, solve_checked, Score, SolveStats, State};
use balls::graph::{Arc, GraphState};

fn arc(from: u32, to: u32, cost: i32) -> Arc {
    Arc { from, to, cost }
}

fn start(at: u32, arcs: &[Arc], goals: &[u32]) -> GraphState {
    GraphState { at, arcs: arcs.to_vec(), goals: goals.to_vec() }
}

fn zero(_s: &GraphState) -> Score {
    0
}

fn path_cost(path: &[Arc]) -> i64 {
    path.iter().map(|a| a.cost as i64).sum()
}

/// Least cost from `from` to any goal, by relaxing every arc until nothing changes.
fn least_cost(from: u32, arcs: &[Arc], goals: &[u32], nodes: u32) -> Option<i64> {
    let mut dist: Vec<Option<i64>> = vec![None; nodes as usize];
    dist[from as usize] = Some(0);
    for _ in 0..nodes {
        for a in arcs {
            if a.cost < 0 {
                continue;
            }
            if let Some(d) = dist[a.from as usize] {
                let nd = d + a.cost as i64;
                if dist[a.to as usize].map_or(true, |old| nd < old) {
                    dist[a.to as usize] = Some(nd);
                }
            }
        }
    }
    goals.iter().filter_map(|g| dist[*g as usize]).min()
}

fn replay(start: &GraphState, path: &[Arc]) -> GraphState {
    let mut state = start.duplicate();
    for e in path {
        state = state.try_edge(e).expect("each edge of the path applies");
    }
    state
}

#[test]
fn four_states_with_zero_heuristic() {
    let arcs = [arc(0, 1, 1), arc(0, 2, 4), arc(1, 2, 1), arc(2, 3, 1)];
    let (path, stats) = solve(start(0, &arcs, &[3]), zero).expect("a path exists");
    assert_eq!(path, vec![arc(0, 1, 1), arc(1, 2, 1), arc(2, 3, 1)]);
    assert_eq!(path_cost(&path), 3);
    assert_eq!(stats.path_len, 3);
}

#[test]
fn start_already_a_goal() {
    let arcs = [arc(0, 1, 1)];
    let (path, stats) = solve(start(0, &arcs, &[0]), zero).expect("the start is a goal");
    assert!(path.is_empty());
    assert_eq!(path_cost(&path), 0);
    assert_eq!(stats.work_count, 1);
    assert_eq!(stats.path_len, 0);
    assert_eq!(stats.work_queue_len, 0);
}

#[test]
fn disconnected_goal_gives_none() {
    let arcs = [arc(0, 1, 1), arc(1, 0, 1), arc(2, 3, 1)];
    assert!(solve(start(0, &arcs, &[3]), zero).is_none());
}

#[test]
fn cycle_without_goal_terminates() {
    let arcs = [arc(0, 1, 1), arc(1, 2, 1), arc(2, 0, 1), arc(1, 1, 0)];
    assert!(solve(start(0, &arcs, &[7]), zero).is_none());
}

#[test]
fn negative_arcs_are_not_taken() {
    let arcs = [arc(0, 1, -1)];
    assert!(solve(start(0, &arcs, &[1]), zero).is_none());
}

fn sample_graphs() -> Vec<(Vec<Arc>, Vec<u32>, u32)> {
    vec![
        (vec![arc(0, 1, 1), arc(0, 2, 4), arc(1, 2, 1), arc(2, 3, 1)], vec![3], 4),
        (vec![arc(0, 1, 5), arc(0, 2, 1), arc(2, 1, 1), arc(1, 3, 1), arc(2, 3, 7)], vec![3], 4),
        (vec![arc(0, 1, 2), arc(1, 2, 2), arc(0, 3, 9), arc(2, 4, 0), arc(4, 3, 1)], vec![3, 5], 6),
        (vec![arc(0, 1, 0), arc(1, 0, 0), arc(1, 2, 3), arc(0, 2, 3), arc(2, 3, 2), arc(0, 3, 6)], vec![3], 4),
        (vec![arc(0, 1, 3), arc(0, 2, 1), arc(2, 4, 1), arc(1, 4, 1), arc(4, 5, 2), arc(1, 5, 2)], vec![5, 4], 6),
    ]
}

#[test]
fn zero_heuristic_finds_least_cost() {
    for (arcs, goals, nodes) in sample_graphs() {
        let expected = least_cost(0, &arcs, &goals, nodes);
        let found = solve(start(0, &arcs, &goals), zero).map(|(p, _)| path_cost(&p));
        assert_eq!(found, expected);
    }
}

#[test]
fn exact_heuristic_finds_least_cost() {
    for (arcs, goals, nodes) in sample_graphs() {
        let expected = least_cost(0, &arcs, &goals, nodes);
        let arcs2 = arcs.clone();
        let goals2 = goals.clone();
        // The least remaining cost is consistent and zero at goals.
        let h = move |s: &GraphState| least_cost(s.at, &arcs2, &goals2, nodes).unwrap_or(0) as Score;
        let found = solve(start(0, &arcs, &goals), h).map(|(p, _)| path_cost(&p));
        assert_eq!(found, expected);
    }
}

#[test]
fn returned_paths_replay_to_a_goal() {
    for (arcs, goals, _) in sample_graphs() {
        let s = start(0, &arcs, &goals);
        let (path, stats) = solve(s.duplicate(), zero).expect("a path exists");
        assert_eq!(stats.path_len, path.len());
        assert!(replay(&s, &path).is_solved());
    }
}

#[test]
fn work_count_bounded_by_states() {
    for (arcs, goals, nodes) in sample_graphs() {
        let (_, stats) = solve(start(0, &arcs, &goals), zero).expect("a path exists");
        assert!(stats.work_count >= 1);
        assert!(stats.work_count <= nodes as usize);
    }
}

#[test]
fn consistent_heuristic_pops_in_order() {
    for (arcs, goals, _) in sample_graphs() {
        let (r, monotone) = solve_checked(start(0, &arcs, &goals), zero);
        assert!(r.is_some());
        assert!(monotone);
    }
}

#[test]
fn inconsistent_heuristic_is_reported() {
    // From node 0 (score 10) one step of cost 1 reaches node 1 (score 0): the estimate drops.
    let arcs = [arc(0, 1, 1), arc(1, 2, 1)];
    let h = |s: &GraphState| if s.at == 0 { 10 } else { 0 };
    let (r, monotone) = solve_checked(start(0, &arcs, &[2]), h);
    assert!(r.is_some());
    assert!(!monotone);
}

#[test]
fn stats_report() {
    let stats = SolveStats { path_len: 10, work_count: 161, work_queue_len: 332 };
    assert_eq!(stats.to_string(), "Solved for 10 long path in 161 work steps. work queue len: 332");
}

#[test]
fn first_arrival_wins_even_when_a_cheaper_path_comes_later() {
    // The score of node 1 (4) is admissible but drops by more than the cost of the move to
    // node 2, so node 2 is taken first by its dearer path and never revisited.
    let arcs = [arc(0, 1, 1), arc(1, 2, 1), arc(0, 2, 3), arc(2, 3, 3)];
    let h = |s: &GraphState| if s.at == 1 { 4 } else { 0 };
    let (path, _) = solve(start(0, &arcs, &[3]), h).expect("a path exists");
    assert_eq!(path, vec![arc(0, 2, 3), arc(2, 3, 3)]);
    assert_eq!(path_cost(&path), 6);
    assert_eq!(least_cost(0, &arcs, &[3], 4), Some(5));
}
