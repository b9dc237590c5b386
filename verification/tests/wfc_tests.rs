use std::collections::HashMap;
use wfc::candidates::Candidate;
use wfc::matrix::UNCOLLAPSED;
use wfc::rules::{Rule, Ruleset};
use wfc::shared::{ErrorKind, ResolvedNeighbor};
use wfc::vec2i::{down, left, right, up, Vec2i};
use wfc::wfc::Wfc;

fn everywhere(field: i8, allowed: &[(i8, u32)]) -> Rule {
    let map: HashMap<i8, u32> = allowed.iter().copied().collect();
    Rule::new(field, map.clone(), map.clone(), map.clone(), map)
}

/// Two fields that must alternate in every direction.
fn alternating() -> Ruleset {
    Ruleset::new(vec![everywhere(1, &[(2, 1)]), everywhere(2, &[(1, 1)])]).unwrap()
}

/// Three fields, each allowed next to each, with different weights.
fn permissive() -> Ruleset {
    let all = [(0, 1), (1, 2), (2, 3)];
    Ruleset::new(vec![everywhere(0, &all), everywhere(1, &all), everywhere(2, &all)]).unwrap()
}

/// Field 1 permits only field 2 to its right, field 2 only field 1 to its
/// right, and neither permits anything in another direction.
fn rightwards_chain() -> Ruleset {
    Ruleset::new(vec![
        Rule::new(1, HashMap::new(), HashMap::from([(2, 1)]), HashMap::new(), HashMap::new()),
        Rule::new(2, HashMap::new(), HashMap::from([(1, 1)]), HashMap::new(), HashMap::new()),
    ])
    .unwrap()
}

fn assert_fully_collapsed(wfc: &Wfc, cols: usize, rows: usize) {
    let fields = wfc.ruleset().all_fields();
    for y in 0..rows {
        for x in 0..cols {
            let value = wfc.matrix().get(x, y);
            assert!(fields.contains(&value), "cell ({}, {}) holds {}", x, y, value);
        }
    }
}

/// Scans the grid: each collapsed cell next to a collapsed cell must be a key
/// of the mapping for that cell's field in the direction that leads to it.
fn assert_two_sided_consistency(wfc: &Wfc, cols: usize, rows: usize) {
    for y in 0..rows {
        for x in 0..cols {
            let here = wfc.matrix().get(x, y);
            if here == UNCOLLAPSED {
                continue;
            }
            for d in [up(), right(), down(), left()] {
                let n = Vec2i::new(x as i32, y as i32) + d;
                if !wfc.is_in_bounds(n) {
                    continue;
                }
                let there = wfc.matrix().get(n.x as usize, n.y as usize);
                if there == UNCOLLAPSED {
                    continue;
                }
                let allowed = wfc.ruleset().get_allowed_fields(here, d).unwrap();
                assert!(allowed.contains_key(&there), "({}, {}) -> {:?}", x, y, d);
                let back = wfc.ruleset().get_allowed_fields(there, d.inv()).unwrap();
                assert!(back.contains_key(&here), "({}, {}) <- {:?}", x, y, d);
            }
        }
    }
}

#[test]
fn test_new_solver_is_uncollapsed() {
    let wfc = Wfc::new(4, 3, permissive());
    assert_eq!(wfc.matrix().cols, 4);
    assert_eq!(wfc.matrix().rows, 3);
    assert_eq!(wfc.pending(), 0);
    for y in 0..3 {
        for x in 0..4 {
            assert_eq!(wfc.matrix().get(x, y), UNCOLLAPSED);
        }
    }
    assert_eq!(wfc.ruleset().all_fields(), vec![0, 1, 2]);
}

#[test]
fn test_is_in_bounds_corners_and_edges() {
    let wfc = Wfc::new(3, 2, permissive());
    for (x, y) in [(0, 0), (2, 0), (0, 1), (2, 1), (1, 1)] {
        assert!(wfc.is_in_bounds(Vec2i::new(x, y)));
    }
    for (x, y) in [(-1, 0), (0, -1), (3, 0), (0, 2), (3, 2), (-1, -1), (i32::MAX, 0), (0, i32::MIN)] {
        assert!(!wfc.is_in_bounds(Vec2i::new(x, y)));
    }
    let single = Wfc::new(1, 1, permissive());
    assert!(single.is_in_bounds(Vec2i::new(0, 0)));
    assert!(!single.is_in_bounds(Vec2i::new(1, 0)));
    assert!(!single.is_in_bounds(Vec2i::new(0, 1)));
    let empty = Wfc::new(0, 0, permissive());
    assert!(!empty.is_in_bounds(Vec2i::new(0, 0)));
}

#[test]
fn test_run_collapses_every_cell() {
    for (cols, rows) in [(1, 1), (1, 5), (5, 1), (2, 2), (7, 4), (12, 12)] {
        let mut wfc = Wfc::new(cols, rows, permissive());
        assert!(wfc.run().is_ok());
        assert_eq!(wfc.pending(), 0);
        assert_fully_collapsed(&wfc, cols, rows);
    }
}

#[test]
fn test_run_from_each_corner() {
    for seed in [(0, 0), (5, 0), (0, 3), (5, 3)] {
        let mut wfc = Wfc::new(6, 4, alternating());
        assert!(wfc.run_from(Vec2i::new(seed.0, seed.1)).is_ok());
        assert_eq!(wfc.pending(), 0);
        assert_fully_collapsed(&wfc, 6, 4);
        assert_two_sided_consistency(&wfc, 6, 4);
    }
}

#[test]
fn test_local_consistency_symmetric_ruleset() {
    for _ in 0..20 {
        let mut wfc = Wfc::new(5, 4, alternating());
        assert!(wfc.run().is_ok());
        assert_fully_collapsed(&wfc, 5, 4);
        assert_two_sided_consistency(&wfc, 5, 4);
        let first = wfc.matrix().get(0, 0);
        for y in 0..4 {
            for x in 0..5 {
                let expected = if (x + y) % 2 == 0 { first } else { 3 - first };
                assert_eq!(wfc.matrix().get(x, y), expected);
            }
        }
    }
}

#[test]
fn test_single_cell_determinism() {
    let mut seen = [false; 3];
    for _ in 0..200 {
        let rules = Ruleset::new(vec![
            everywhere(1, &[(1, 1), (2, 1)]),
            everywhere(2, &[(1, 1), (2, 1)]),
        ])
        .unwrap();
        let mut wfc = Wfc::new(1, 1, rules);
        assert!(wfc.run().is_ok());
        let value = wfc.matrix().get(0, 0);
        assert!(value == 1 || value == 2);
        seen[value as usize] = true;
        assert_eq!(wfc.pending(), 0);
    }
    assert!(seen[1] && seen[2]);
}

#[test]
fn test_single_cell_ignores_rules_without_neighbors() {
    let mut wfc = Wfc::new(1, 1, rightwards_chain());
    assert!(wfc.run().is_ok());
    let value = wfc.matrix().get(0, 0);
    assert!(value == 1 || value == 2);
}

#[test]
fn test_contradiction_detection() {
    let mut wfc = Wfc::new(3, 1, rightwards_chain());
    let err = wfc.run_from(Vec2i::new(1, 0)).unwrap_err();
    let middle = wfc.matrix().get(1, 0);
    assert!(middle == 1 || middle == 2);
    assert_eq!(wfc.matrix().get(2, 0), 3 - middle);
    assert_eq!(wfc.matrix().get(0, 0), UNCOLLAPSED);
    match err.kind {
        ErrorKind::Contradiction { position, neighbors } => {
            assert_eq!(position, Vec2i::new(0, 0));
            assert_eq!(neighbors, vec![ResolvedNeighbor { direction: right(), field: middle }]);
        },
        other => panic!("unexpected error: {:?}", other),
    }
}

#[test]
fn test_contradiction_from_the_far_end() {
    let mut wfc = Wfc::new(3, 1, rightwards_chain());
    let err = wfc.run_from(Vec2i::new(2, 0)).unwrap_err();
    let last = wfc.matrix().get(2, 0);
    match err.kind {
        ErrorKind::Contradiction { position, neighbors } => {
            assert_eq!(position, Vec2i::new(1, 0));
            assert_eq!(neighbors, vec![ResolvedNeighbor { direction: right(), field: last }]);
        },
        other => panic!("unexpected error: {:?}", other),
    }
    assert_eq!(wfc.matrix().get(1, 0), UNCOLLAPSED);
    assert_eq!(wfc.matrix().get(0, 0), UNCOLLAPSED);
}

#[test]
fn test_chain_solved_from_its_start() {
    let mut wfc = Wfc::new(3, 1, rightwards_chain());
    assert!(wfc.run_from(Vec2i::new(0, 0)).is_ok());
    let first = wfc.matrix().get(0, 0);
    assert!(first == 1 || first == 2);
    assert_eq!(wfc.matrix().get(1, 0), 3 - first);
    assert_eq!(wfc.matrix().get(2, 0), first);
}

#[test]
fn test_run_ends_in_success_or_contradiction() {
    let mut ok = 0;
    let mut failed = 0;
    for _ in 0..100 {
        let mut wfc = Wfc::new(3, 1, rightwards_chain());
        match wfc.run() {
            Ok(()) => {
                ok += 1;
                assert_fully_collapsed(&wfc, 3, 1);
            },
            Err(e) => {
                failed += 1;
                assert!(matches!(e.kind, ErrorKind::Contradiction { .. }));
            },
        }
    }
    assert_eq!(ok + failed, 100);
    assert!(failed > 0);
}

#[test]
fn test_empty_ruleset_contradicts_at_seed() {
    let mut wfc = Wfc::new(2, 2, Ruleset::new(Vec::new()).unwrap());
    let err = wfc.run_from(Vec2i::new(1, 1)).unwrap_err();
    match err.kind {
        ErrorKind::Contradiction { position, neighbors } => {
            assert_eq!(position, Vec2i::new(1, 1));
            assert!(neighbors.is_empty());
        },
        other => panic!("unexpected error: {:?}", other),
    }
}

#[test]
fn test_possible_states_without_neighbors() {
    let wfc = Wfc::new(3, 3, permissive());
    let states = wfc.get_possible_states(Vec2i::new(1, 1)).unwrap();
    assert_eq!(
        states,
        vec![
            Candidate { field: 0, weight: 1 },
            Candidate { field: 1, weight: 1 },
            Candidate { field: 2, weight: 1 },
        ]
    );
}

#[test]
fn test_possible_states_multiply_over_neighbors() {
    let rules = Ruleset::new(vec![
        Rule::new(
            1,
            HashMap::from([(1, 2), (2, 3)]),
            HashMap::from([(1, 5), (2, 7)]),
            HashMap::from([(1, 11), (2, 13)]),
            HashMap::from([(1, 17), (2, 19)]),
        ),
        Rule::new(
            2,
            HashMap::from([(2, 23)]),
            HashMap::from([(2, 29)]),
            HashMap::from([(1, 31), (2, 37)]),
            HashMap::from([(2, 41)]),
        ),
    ])
    .unwrap();
    let mut wfc = Wfc::new(3, 3, rules);
    let center = Vec2i::new(1, 1);
    // The cell above holds field 1: it speaks through its mapping for "down".
    wfc.commit(Vec2i::new(1, 0), 1);
    assert_eq!(
        wfc.get_possible_states(center).unwrap(),
        vec![Candidate { field: 1, weight: 11 }, Candidate { field: 2, weight: 13 }]
    );
    // The cell to the left holds field 2: it speaks through its mapping for "right".
    wfc.commit(Vec2i::new(0, 1), 2);
    assert_eq!(wfc.get_possible_states(center).unwrap(), vec![Candidate { field: 2, weight: 13 * 29 }]);
    // The cell below holds field 2: it speaks through its mapping for "up".
    wfc.commit(Vec2i::new(1, 2), 2);
    assert_eq!(
        wfc.get_possible_states(center).unwrap(),
        vec![Candidate { field: 2, weight: 13 * 29 * 23 }]
    );
    // The cell to the right holds field 1: it speaks through its mapping for "left".
    wfc.commit(Vec2i::new(2, 1), 1);
    assert_eq!(
        wfc.get_possible_states(center).unwrap(),
        vec![Candidate { field: 2, weight: 13 * 29 * 23 * 19 }]
    );
    assert_eq!(
        wfc.collect_resolved_neighbors(center),
        vec![
            ResolvedNeighbor { direction: up(), field: 1 },
            ResolvedNeighbor { direction: right(), field: 1 },
            ResolvedNeighbor { direction: down(), field: 2 },
            ResolvedNeighbor { direction: left(), field: 2 },
        ]
    );
}

#[test]
fn test_commit_enqueues_open_neighbors_in_order() {
    let mut wfc = Wfc::new(3, 3, permissive());
    wfc.commit(Vec2i::new(1, 1), 2);
    assert_eq!(wfc.matrix().get(1, 1), 2);
    assert_eq!(wfc.pending(), 4);
    wfc.commit(Vec2i::new(0, 0), 1);
    assert_eq!(wfc.pending(), 6);
    wfc.commit(Vec2i::new(1, 0), 0);
    assert_eq!(wfc.pending(), 7);
}

#[test]
fn test_eval_position_skips_outside_and_collapsed() {
    let mut wfc = Wfc::new(2, 2, permissive());
    for p in [Vec2i::new(-1, 0), Vec2i::new(2, 0), Vec2i::new(0, 2), Vec2i::new(0, -1)] {
        assert!(wfc.eval_position(p).is_ok());
        assert_eq!(wfc.pending(), 0);
    }
    for y in 0..2 {
        for x in 0..2 {
            assert_eq!(wfc.matrix().get(x, y), UNCOLLAPSED);
        }
    }
    assert!(wfc.eval_position(Vec2i::new(0, 0)).is_ok());
    let value = wfc.matrix().get(0, 0);
    assert!((0..=2).contains(&value));
    assert_eq!(wfc.pending(), 2);
    assert!(wfc.eval_position(Vec2i::new(0, 0)).is_ok());
    assert_eq!(wfc.matrix().get(0, 0), value);
    assert_eq!(wfc.pending(), 2);
}

#[test]
fn test_collapsed_cells_are_never_overwritten() {
    let mut wfc = Wfc::new(4, 4, permissive());
    wfc.commit(Vec2i::new(2, 2), 1);
    wfc.commit(Vec2i::new(0, 3), 2);
    assert!(wfc.run().is_ok());
    assert_eq!(wfc.matrix().get(2, 2), 1);
    assert_eq!(wfc.matrix().get(0, 3), 2);
    assert_fully_collapsed(&wfc, 4, 4);
}

#[test]
fn test_run_twice_changes_nothing() {
    let mut wfc = Wfc::new(3, 3, permissive());
    assert!(wfc.run().is_ok());
    let before = wfc.matrix().to_text();
    assert!(wfc.run().is_ok());
    assert_eq!(wfc.matrix().to_text(), before);
    assert_eq!(wfc.pending(), 0);
}

#[test]
fn test_one_sided_ruleset_is_consistent_one_way() {
    // Field 1 lets anything follow it, field 2 says nothing: a 2 can be placed
    // next to a 1, but no cell can be placed next to a 2.
    let mut one_way_only = 0;
    for _ in 0..50 {
        let rules = Ruleset::new(vec![
            everywhere(1, &[(1, 1), (2, 1)]),
            Rule::new(2, HashMap::new(), HashMap::new(), HashMap::new(), HashMap::new()),
        ])
        .unwrap();
        let mut wfc = Wfc::new(4, 1, rules);
        let _ = wfc.run();
        for x in 0..3usize {
            let a = wfc.matrix().get(x, 0);
            let b = wfc.matrix().get(x + 1, 0);
            if a == UNCOLLAPSED || b == UNCOLLAPSED {
                continue;
            }
            let forth = wfc.ruleset().get_allowed_fields(a, right()).unwrap().contains_key(&b);
            let back = wfc.ruleset().get_allowed_fields(b, left()).unwrap().contains_key(&a);
            assert!(forth || back);
            if forth != back {
                one_way_only += 1;
            }
        }
    }
    assert!(one_way_only > 0);
}

#[test]
fn test_step_without_pending_does_nothing() {
    let mut wfc = Wfc::new(2, 2, permissive());
    assert_eq!(wfc.step(), Ok(false));
    assert_eq!(wfc.pending(), 0);
    for y in 0..2 {
        for x in 0..2 {
            assert_eq!(wfc.matrix().get(x, y), UNCOLLAPSED);
        }
    }
}

#[test]
fn test_steps_take_the_oldest_coordinate_first() {
    let mut wfc = Wfc::new(3, 3, permissive());
    assert!(wfc.eval_position(Vec2i::new(1, 1)).is_ok());
    assert_eq!(wfc.pending(), 4);
    let order = [(1, 0), (2, 1), (1, 2), (0, 1)];
    for (n, &(x, y)) in order.iter().enumerate() {
        assert_eq!(wfc.matrix().get(x, y), UNCOLLAPSED);
        assert_eq!(wfc.step(), Ok(true));
        assert_ne!(wfc.matrix().get(x, y), UNCOLLAPSED);
        for &(later_x, later_y) in &order[n + 1..] {
            assert_eq!(wfc.matrix().get(later_x, later_y), UNCOLLAPSED);
        }
    }
    // Each edge cell made its two corners pending, after what was pending.
    assert_eq!(wfc.pending(), 8);
    for (x, y) in [(0, 0), (2, 0), (0, 2), (2, 2)] {
        assert_eq!(wfc.matrix().get(x, y), UNCOLLAPSED);
    }
    // The corners next to the first edge cell come first: right of it, then left.
    assert_eq!(wfc.step(), Ok(true));
    assert_ne!(wfc.matrix().get(2, 0), UNCOLLAPSED);
    assert_eq!(wfc.matrix().get(0, 0), UNCOLLAPSED);
    assert_eq!(wfc.step(), Ok(true));
    assert_ne!(wfc.matrix().get(0, 0), UNCOLLAPSED);
}

#[test]
fn test_steps_skip_repeated_coordinates() {
    let mut wfc = Wfc::new(2, 2, permissive());
    assert!(wfc.eval_position(Vec2i::new(0, 0)).is_ok());
    let mut steps = 0;
    while wfc.step().unwrap() {
        steps += 1;
        assert!(steps <= 16);
    }
    // Three cells were left; the corner opposite the seed was pending twice.
    assert_eq!(steps, 4);
    assert_fully_collapsed(&wfc, 2, 2);
}

#[test]
fn test_step_reports_contradiction() {
    let mut wfc = Wfc::new(2, 1, rightwards_chain());
    wfc.commit(Vec2i::new(1, 0), 1);
    assert_eq!(wfc.pending(), 1);
    let err = wfc.step().unwrap_err();
    assert_eq!(
        err.kind,
        ErrorKind::Contradiction {
            position: Vec2i::new(0, 0),
            neighbors: vec![ResolvedNeighbor { direction: right(), field: 1 }],
        }
    );
    assert_eq!(wfc.pending(), 0);
    assert_eq!(wfc.matrix().get(0, 0), UNCOLLAPSED);
}

#[test]
fn test_bounds_safety_on_small_and_thin_grids() {
    for (cols, rows) in [(1, 1), (1, 2), (2, 1), (1, 9), (9, 1), (2, 2), (3, 3)] {
        for seed_y in 0..rows {
            for seed_x in 0..cols {
                let mut wfc = Wfc::new(cols, rows, permissive());
                assert!(wfc.run_from(Vec2i::new(seed_x as i32, seed_y as i32)).is_ok());
                assert_eq!(wfc.pending(), 0);
                assert_eq!(wfc.matrix().data.len(), rows);
                assert!(wfc.matrix().data.iter().all(|row| row.len() == cols));
                assert_fully_collapsed(&wfc, cols, rows);
            }
        }
    }
}
