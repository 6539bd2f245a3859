use sat_solver::dimacs::build_clauses;
use sat_solver::solver::Solver;

/// True when `sigma` (bit v-1 = variable v) satisfies every clause.
fn brute_sat_one(clauses: &[Vec<i32>], n: usize, sigma: u32) -> bool {
    clauses.iter().all(|c| {
        c.iter().any(|&l| {
            let v = l.unsigned_abs() as usize;
            assert!(v >= 1 && v <= n);
            let val = sigma & (1 << (v - 1)) != 0;
            if l > 0 {
                val
            } else {
                !val
            }
        })
    })
}

/// Exhaustive satisfiability over all 2^n assignments.
fn brute_sat(clauses: &[Vec<i32>], n: usize) -> bool {
    (0u32..(1 << n)).any(|sigma| brute_sat_one(clauses, n, sigma))
}

fn solve_verdict(clauses: Vec<Vec<i32>>, n: usize) -> bool {
    let mut s = Solver::new(clauses, n);
    s.solve()
}

/// Reads the solver's assignment after a SAT verdict, don't-care as true.
fn model_mask(s: &Solver, n: usize) -> u32 {
    let mut mask: u32 = 0;
    for v in 1..=n {
        match s.val(v as i32) {
            Some(true) | None => mask |= 1 << (v - 1),
            Some(false) => {}
        }
    }
    mask
}

#[test]
fn unit_propagation_forces_both_variables() {
    let mut s = Solver::new(vec![vec![1], vec![-1, 2]], 2);
    assert!(s.solve());
    assert_eq!(s.val(1), Some(true));
    assert_eq!(s.val(2), Some(true));
}

#[test]
fn pure_literal_sets_variable_true() {
    let mut s = Solver::new(vec![vec![1, 2], vec![1, -2]], 2);
    assert!(s.solve());
    assert_eq!(s.val(1), Some(true));
}

#[test]
fn direct_conflict_is_unsat() {
    assert!(!solve_verdict(vec![vec![1], vec![-1]], 1));
}

#[test]
fn four_clause_exclusion_is_unsat() {
    assert!(!solve_verdict(
        vec![vec![1, 2], vec![-1, 2], vec![1, -2], vec![-1, -2]],
        2
    ));
}

#[test]
fn three_clause_mixed_is_sat_and_model_checks() {
    let clauses = vec![vec![1, 2, 3], vec![-1, -2], vec![2, -3]];
    let mut s = Solver::new(clauses.clone(), 3);
    assert!(s.solve());
    let mask = model_mask(&s, 3);
    assert!(brute_sat_one(&clauses, 3, mask));
}

#[test]
fn empty_clause_forces_unsat() {
    assert!(!solve_verdict(vec![vec![]], 1));
    assert!(!solve_verdict(vec![vec![1, 2], vec![]], 2));
    assert!(!solve_verdict(vec![vec![]], 0));
}

#[test]
fn tautology_never_changes_the_verdict() {
    let bases: Vec<(Vec<Vec<i32>>, usize)> = vec![
        (vec![vec![1], vec![-1]], 2),
        (vec![vec![1, 2], vec![-1, 2]], 2),
        (vec![vec![1, 2], vec![-1, 2], vec![1, -2], vec![-1, -2]], 2),
        (vec![], 2),
        (vec![vec![]], 2),
    ];
    for (base, n) in bases {
        let before = solve_verdict(base.clone(), n);
        let mut with_taut = base.clone();
        with_taut.push(vec![2, -2]);
        assert_eq!(before, solve_verdict(with_taut, n));
        let mut with_taut_front = vec![vec![1, -1]];
        with_taut_front.extend(base.iter().cloned());
        assert_eq!(before, solve_verdict(with_taut_front, n));
    }
}

#[test]
fn sat_model_satisfies_every_original_clause() {
    let cases: Vec<(Vec<Vec<i32>>, usize)> = vec![
        (vec![vec![1, 2], vec![-1, 3], vec![-2, -3], vec![1, 3]], 3),
        (vec![vec![-1], vec![1, 2, 3], vec![-2, 3]], 3),
        (vec![vec![1, -1], vec![2]], 2),
        (vec![vec![4], vec![-4, 1], vec![-1, 2, -3]], 4),
    ];
    for (clauses, n) in cases {
        let mut s = Solver::new(clauses.clone(), n);
        assert!(s.solve());
        let mask = model_mask(&s, n);
        assert!(brute_sat_one(&clauses, n, mask));
    }
}

#[test]
fn brute_force_cross_check_two_vars() {
    // Every formula of up to three clauses drawn from all clauses of one
    // or two distinct variables over {1, 2}.
    let lits = [1i32, -1, 2, -2];
    let mut pool: Vec<Vec<i32>> = Vec::new();
    for &a in &lits {
        pool.push(vec![a]);
        for &b in &lits {
            if b.unsigned_abs() != a.unsigned_abs() {
                pool.push(vec![a, b]);
            }
        }
    }
    for i in 0..pool.len() {
        for j in i..pool.len() {
            for k in j..pool.len() {
                let formula = vec![pool[i].clone(), pool[j].clone(), pool[k].clone()];
                let expected = brute_sat(&formula, 2);
                let mut s = Solver::new(formula.clone(), 2);
                let got = s.solve();
                assert_eq!(got, expected);
                if got {
                    assert!(brute_sat_one(&formula, 2, model_mask(&s, 2)));
                }
            }
        }
    }
}

#[test]
fn brute_force_cross_check_three_vars() {
    let selected: Vec<Vec<Vec<i32>>> = vec![
        vec![vec![1, 2, 3], vec![-1, -2, -3]],
        vec![vec![1], vec![-1, 2], vec![-2, 3], vec![-3, -1]],
        vec![vec![1, 2], vec![2, 3], vec![3, 1], vec![-1, -2], vec![-2, -3], vec![-3, -1]],
        vec![vec![-1, -2, -3], vec![1, -2], vec![2, -3], vec![3, -1]],
        vec![vec![1, 2, -3], vec![1, -2, 3], vec![-1, 2, 3], vec![-1, -2, -3]],
        vec![vec![3], vec![-3]],
        vec![vec![2, -2], vec![3], vec![-3, 1]],
    ];
    for formula in selected {
        let expected = brute_sat(&formula, 3);
        let mut s = Solver::new(formula.clone(), 3);
        let got = s.solve();
        assert_eq!(got, expected);
        if got {
            assert!(brute_sat_one(&formula, 3, model_mask(&s, 3)));
        }
    }
}

#[test]
fn preprocessing_drops_tautologies_and_sorts_by_length() {
    let s = Solver::new(
        vec![vec![1, 2, 3], vec![2, -2, 1], vec![3], vec![-1, 2]],
        3,
    );
    let lens: Vec<usize> = s.clauses.iter().map(|c| c.len()).collect();
    assert_eq!(lens, vec![1, 2, 3]);
    assert!(s.clauses.iter().all(|c| {
        !c.iter().any(|&l| c.contains(&-l))
    }));
}

#[test]
fn polarity_counts_cover_surviving_clauses() {
    let s = Solver::new(vec![vec![1, 2], vec![1, -2], vec![-3, 1]], 3);
    assert_eq!(s.positives[1], 3);
    assert_eq!(s.negatives[1], 0);
    assert_eq!(s.positives[2], 1);
    assert_eq!(s.negatives[2], 1);
    assert_eq!(s.negatives[3], 1);
    assert_eq!(s.literal_polarity[1], 1);
    assert_eq!(s.literal_polarity[2], 0);
    assert_eq!(s.literal_polarity[3], -1);
}

#[test]
fn value_queries_follow_literal_sign() {
    let mut s = Solver::new(vec![vec![-2]], 2);
    assert_eq!(s.val(1), None);
    assert!(s.solve());
    assert_eq!(s.val(2), Some(false));
    assert_eq!(s.val(-2), Some(true));
    assert_eq!(s.val(1), None);
}

#[test]
fn trail_assign_and_backtrack_restore_state() {
    let mut s = Solver::new(vec![vec![1, 2], vec![-1, 2]], 2);
    let snapshot = s.history.len();
    s.assign_lit(1);
    assert_eq!(s.val(1), Some(true));
    s.assign_lit(-1);
    assert_eq!(s.val(1), Some(true), "assigning is a no-op on an assigned variable");
    s.backtrack(snapshot);
    assert_eq!(s.val(1), None);
}

#[test]
fn propagate_rejects_only_false_literals() {
    let mut s = Solver::new(vec![vec![1, 2]], 2);
    assert!(s.propagate(-1));
    assert!(!s.propagate(1), "the literal is already false");
    assert!(s.propagate(-1), "the literal is already true");
    assert_eq!(s.val(1), Some(false));
}

#[test]
fn bcp_finds_units_and_conflicts() {
    let mut s = Solver::new(vec![vec![1], vec![-1, 2]], 2);
    assert!(s.bcp());
    assert_eq!(s.val(1), Some(true));
    assert_eq!(s.val(2), Some(true));

    let mut c = Solver::new(vec![vec![1], vec![-1]], 1);
    assert!(!c.bcp());
}

#[test]
fn heuristic_picks_most_constrained_variable() {
    let s = Solver::new(vec![vec![1, 3], vec![2, 3], vec![-3, 1]], 3);
    assert_eq!(s.pick_variable(), Some(3), "variable 3 scores over 1 and 2");
    let t = Solver::new(vec![vec![1, 2], vec![1, 3]], 3);
    assert_eq!(t.pick_variable(), Some(1));
    assert_eq!(t.pick_variable_two(), Some(1));
    let done = Solver::new(vec![], 0);
    assert_eq!(done.pick_variable(), None);
    assert_eq!(done.pick_variable_two(), None);
}

#[test]
fn token_grouping_builds_clauses() {
    let clauses = build_clauses(&vec![1, 2, 0, -3, 0, 4, 5]);
    assert_eq!(clauses, vec![vec![1, 2], vec![-3]]);
    let empty = build_clauses(&vec![0, 0, 0]);
    assert!(empty.is_empty());
    let none = build_clauses(&vec![]);
    assert!(none.is_empty());
    let trailing = build_clauses(&vec![7, 0, 8]);
    assert_eq!(trailing, vec![vec![7]], "an unterminated clause is discarded");
}
