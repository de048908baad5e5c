use satcore::problem::{Disjunction, Literal, Problem, Sign, Variable};
use satcore::solver::state::State;

const X: Variable = Variable(0);
const Y: Variable = Variable(1);
const Z: Variable = Variable(2);

fn pos(v: Variable) -> Literal {
    Literal(v, Sign::Pos)
}

fn neg(v: Variable) -> Literal {
    Literal(v, Sign::Neg)
}

fn clause(lits: &[Literal]) -> Disjunction {
    Disjunction::from_literals(lits.to_vec()).unwrap()
}

fn problem(clauses: &[&[Literal]]) -> Problem {
    Problem { disjunctions: clauses.iter().map(|c| clause(c)).collect() }
}

fn literals(d: &Disjunction) -> Vec<Literal> {
    d.iter().copied().collect()
}

fn counters(state: &State) -> Vec<(usize, usize)> {
    (0..state.len()).map(|i| (state.remaining_of(i), state.satisfied_of(i))).collect()
}

fn use_counts(state: &State, vars: &[Variable]) -> Vec<(usize, usize)> {
    vars.iter()
        .map(|&v| (state.use_count_of(v, Sign::Pos), state.use_count_of(v, Sign::Neg)))
        .collect()
}

fn count_remaining(state: &State, d: &Disjunction) -> usize {
    d.iter().filter(|l| !state.is_set(l.0)).count()
}

fn count_satisfied(state: &State, d: &Disjunction) -> usize {
    d.iter().filter(|l| state.sign_of(l.0) == Some(l.1)).count()
}

fn two_implications() -> Problem {
    problem(&[&[pos(X), pos(Y)], &[neg(X), pos(Y)], &[neg(Y)]])
}

#[test]
fn new_leaves_every_variable_unassigned() {
    let p = two_implications();
    let state = State::new(&p);
    assert!(!state.is_set(X));
    assert!(!state.is_set(Y));
    assert_eq!(state.sign_of(X), None);
    assert_eq!(state.sign_of(Y), None);
    assert_eq!(state.len(), 3);
}

#[test]
fn new_counts_every_clause_and_literal() {
    let p = two_implications();
    let state = State::new(&p);
    assert_eq!(counters(&state), vec![(2, 0), (2, 0), (1, 0)]);
    assert_eq!(use_counts(&state, &[X, Y]), vec![(1, 1), (2, 1)]);
}

#[test]
fn new_puts_every_variable_on_the_purity_worklist() {
    let p = two_implications();
    let mut state = State::new(&p);
    assert_eq!(state.get_and_clear_pures(), vec![X, Y]);
    assert!(state.get_and_clear_pures().is_empty());
}

#[test]
fn new_puts_every_clause_on_the_propagation_worklist() {
    let p = two_implications();
    let mut state = State::new(&p);
    let batch = state.get_and_clear_propagators();
    assert_eq!(batch.len(), 3);
    for (got, want) in batch.iter().zip(p.disjunctions.iter()) {
        assert!(std::ptr::eq(*got, want));
    }
    assert!(state.get_and_clear_propagators().is_empty());
}

#[test]
fn new_on_an_empty_problem() {
    let p = Problem { disjunctions: vec![] };
    let mut state = State::new(&p);
    assert_eq!(state.len(), 0);
    assert!(state.get_and_clear_pures().is_empty());
    assert!(state.get_and_clear_propagators().is_empty());
}

#[test]
fn scenario_unit_propagation_reaches_a_model() {
    let p = two_implications();
    let mut state = State::new(&p);
    assert_eq!(state.remaining_of(2), 1);
    assert_eq!(state.satisfied_of(2), 0);
    let batch = state.get_and_clear_propagators();
    assert!(batch.iter().any(|d| std::ptr::eq(*d, &p.disjunctions[2])));

    state.assign(Y, Sign::Neg);
    assert_eq!(counters(&state), vec![(1, 0), (1, 0), (0, 1)]);
    let batch = state.get_and_clear_propagators();
    assert_eq!(batch.len(), 2);
    assert!(std::ptr::eq(batch[0], &p.disjunctions[0]));
    assert!(std::ptr::eq(batch[1], &p.disjunctions[1]));
    assert_eq!(p.disjunctions[0][X], Sign::Pos);

    state.assign(X, Sign::Pos);
    assert_eq!(counters(&state), vec![(0, 1), (0, 0), (0, 1)]);
    assert_eq!(state.sign_of(X), Some(Sign::Pos));
    assert_eq!(state.sign_of(Y), Some(Sign::Neg));
    assert!(!state.is_falsified(0));
    assert!(state.is_falsified(1));
    assert!(!state.is_falsified(2));
}

#[test]
fn scenario_satisfiable_variant_has_no_falsified_clause() {
    let p = problem(&[&[pos(X), pos(Y)], &[pos(X), neg(Y)], &[neg(Y)]]);
    let mut state = State::new(&p);
    assert_eq!(state.remaining_of(2), 1);
    let batch = state.get_and_clear_propagators();
    assert!(std::ptr::eq(batch[2], &p.disjunctions[2]));
    state.assign(Y, Sign::Neg);
    let batch = state.get_and_clear_propagators();
    assert_eq!(batch.len(), 1);
    assert!(std::ptr::eq(batch[0], &p.disjunctions[0]));
    assert_eq!(counters(&state), vec![(1, 0), (1, 1), (0, 1)]);
    state.assign(X, Sign::Pos);
    assert_eq!(counters(&state), vec![(0, 1), (0, 2), (0, 1)]);
    for i in 0..state.len() {
        assert!(!state.is_falsified(i));
        assert_eq!(state.remaining_of(i), 0);
        assert!(state.satisfied_of(i) >= 1);
    }
}

#[test]
fn scenario_conflict_is_visible_in_the_counters() {
    let p = problem(&[&[pos(X)], &[neg(X)]]);
    let mut state = State::new(&p);
    state.assign(X, Sign::Pos);
    assert_eq!(state.remaining_of(1), 0);
    assert_eq!(state.satisfied_of(1), 0);
    assert!(state.is_falsified(1));
    assert_eq!(state.remaining_of(0), 0);
    assert_eq!(state.satisfied_of(0), 1);
    assert!(!state.is_falsified(0));
}

#[test]
fn counters_follow_the_assignment() {
    let p = problem(&[
        &[pos(X), neg(Y), pos(Z)],
        &[neg(X), neg(Z)],
        &[pos(Y)],
        &[neg(X), pos(Y), neg(Z)],
    ]);
    let mut state = State::new(&p);
    let steps: [(Variable, Option<Sign>); 7] = [
        (X, Some(Sign::Neg)),
        (Z, Some(Sign::Pos)),
        (Y, Some(Sign::Pos)),
        (Z, None),
        (X, None),
        (X, Some(Sign::Pos)),
        (Y, None),
    ];
    for (v, s) in steps {
        match s {
            Some(s) => state.assign(v, s),
            None => state.unassign(v),
        }
        for (i, d) in p.disjunctions.iter().enumerate() {
            assert_eq!(state.remaining_of(i), count_remaining(&state, d));
            assert_eq!(state.satisfied_of(i), count_satisfied(&state, d));
        }
    }
    assert_eq!(counters(&state), vec![(2, 1), (1, 0), (1, 0), (2, 0)]);
}

#[test]
fn assign_then_unassign_restores_every_counter() {
    let p = problem(&[
        &[pos(X), neg(Y), pos(Z)],
        &[neg(X), neg(Z)],
        &[pos(Y)],
        &[neg(X), pos(Y), neg(Z)],
    ]);
    let mut state = State::new(&p);
    state.assign(Z, Sign::Neg);
    let clauses_before = counters(&state);
    let uses_before = use_counts(&state, &[X, Y, Z]);
    for v in [X, Y] {
        for s in [Sign::Pos, Sign::Neg] {
            state.assign(v, s);
            state.unassign(v);
            assert_eq!(counters(&state), clauses_before);
            assert_eq!(use_counts(&state, &[X, Y, Z]), uses_before);
            assert_eq!(state.sign_of(v), None);
        }
    }
}

#[test]
fn unassign_in_any_order_restores_the_start() {
    let p = problem(&[&[pos(X), pos(Y)], &[neg(X), pos(Z)], &[neg(Y), neg(Z)]]);
    let mut state = State::new(&p);
    let clauses_before = counters(&state);
    let uses_before = use_counts(&state, &[X, Y, Z]);
    state.assign(X, Sign::Pos);
    state.assign(Y, Sign::Neg);
    state.assign(Z, Sign::Pos);
    state.unassign(X);
    state.unassign(Z);
    state.unassign(Y);
    assert_eq!(counters(&state), clauses_before);
    assert_eq!(use_counts(&state, &[X, Y, Z]), uses_before);
}

#[test]
fn a_clause_that_comes_down_to_one_variable_is_enqueued() {
    let p = problem(&[&[pos(X), pos(Y), pos(Z)], &[neg(X), pos(Y)]]);
    let mut state = State::new(&p);
    state.get_and_clear_propagators();
    state.assign(X, Sign::Neg);
    assert!(state.get_and_clear_propagators().is_empty());
    state.assign(Y, Sign::Neg);
    let batch = state.get_and_clear_propagators();
    assert_eq!(batch.len(), 1);
    assert!(std::ptr::eq(batch[0], &p.disjunctions[0]));
    assert_eq!(state.remaining_of(0), 1);
    assert_eq!(state.satisfied_of(0), 0);
    let forced: Vec<Literal> =
        batch[0].iter().copied().filter(|l| !state.is_set(l.0)).collect();
    assert_eq!(forced, vec![pos(Z)]);
    state.assign(Z, Sign::Pos);
    assert_eq!(state.satisfied_of(0), 1);
    state.unassign(Z);
    state.assign(Z, Sign::Neg);
    assert!(state.is_falsified(0));
}

#[test]
fn a_satisfying_assignment_does_not_enqueue_the_clause() {
    let p = problem(&[&[pos(X), pos(Y)]]);
    let mut state = State::new(&p);
    state.get_and_clear_propagators();
    state.assign(X, Sign::Pos);
    assert_eq!(counters(&state), vec![(1, 1)]);
    assert!(state.get_and_clear_propagators().is_empty());
}

#[test]
fn unassign_enqueues_nothing() {
    let p = problem(&[&[pos(X), pos(Y)]]);
    let mut state = State::new(&p);
    state.assign(X, Sign::Neg);
    state.assign(Y, Sign::Neg);
    state.get_and_clear_propagators();
    state.get_and_clear_pures();
    state.unassign(Y);
    assert_eq!(counters(&state), vec![(1, 0)]);
    assert!(state.get_and_clear_propagators().is_empty());
    assert!(state.get_and_clear_pures().is_empty());
}

#[test]
fn a_use_count_that_drops_to_zero_enqueues_the_variable() {
    let p = problem(&[&[pos(X), pos(Y)], &[pos(X), neg(Z)], &[neg(Y), pos(Z)]]);
    let mut state = State::new(&p);
    state.get_and_clear_pures();
    assert_eq!(use_counts(&state, &[X, Y, Z]), vec![(2, 0), (1, 1), (1, 1)]);
    state.assign(X, Sign::Pos);
    assert_eq!(use_counts(&state, &[X, Y, Z]), vec![(0, 0), (0, 1), (1, 0)]);
    assert_eq!(state.get_and_clear_pures(), vec![Y, X, Z]);
    assert_eq!(state.use_count_of(Y, Sign::Pos), 0);
    assert!(!state.is_set(Y));
    state.assign(Y, Sign::Neg);
    for i in 0..state.len() {
        assert!(!state.is_falsified(i));
    }
    assert_eq!(state.get_and_clear_pures(), vec![Y, Z]);
}

#[test]
fn a_clause_needed_elsewhere_releases_nothing() {
    let p = problem(&[&[pos(X), pos(Y)], &[pos(Y), pos(Z)]]);
    let mut state = State::new(&p);
    state.get_and_clear_pures();
    state.assign(X, Sign::Pos);
    assert_eq!(state.get_and_clear_pures(), vec![X]);
    assert_eq!(use_counts(&state, &[X, Y, Z]), vec![(0, 0), (1, 0), (1, 0)]);
}

#[test]
fn a_second_true_literal_releases_nothing() {
    let p = problem(&[&[pos(X), pos(Y)]]);
    let mut state = State::new(&p);
    state.assign(X, Sign::Pos);
    state.get_and_clear_pures();
    state.assign(Y, Sign::Pos);
    assert_eq!(counters(&state), vec![(0, 2)]);
    assert!(state.get_and_clear_pures().is_empty());
    state.unassign(X);
    assert_eq!(counters(&state), vec![(1, 1)]);
    assert_eq!(use_counts(&state, &[X, Y]), vec![(0, 0), (0, 0)]);
    state.unassign(Y);
    assert_eq!(counters(&state), vec![(2, 0)]);
    assert_eq!(use_counts(&state, &[X, Y]), vec![(1, 0), (1, 0)]);
}

#[test]
fn add_disjunction_enqueues_the_clause_and_counts_it() {
    let p = problem(&[&[pos(X), pos(Y)], &[neg(Y), pos(Z)]]);
    let learnt = clause(&[neg(X), neg(Z)]);
    let mut state = State::new(&p);
    state.get_and_clear_propagators();
    state.get_and_clear_pures();
    state.add_disjunction(&learnt);
    assert_eq!(state.len(), 3);
    assert_eq!(counters(&state), vec![(2, 0), (2, 0), (2, 0)]);
    assert_eq!(use_counts(&state, &[X, Y, Z]), vec![(1, 1), (1, 1), (1, 1)]);
    let batch = state.get_and_clear_propagators();
    assert_eq!(batch.len(), 1);
    assert!(std::ptr::eq(batch[0], &learnt));
    assert!(state.get_and_clear_pures().is_empty());
    state.assign(X, Sign::Pos);
    assert_eq!(counters(&state), vec![(1, 1), (2, 0), (1, 0)]);
    let batch = state.get_and_clear_propagators();
    assert_eq!(batch.len(), 1);
    assert_eq!(literals(batch[0]), vec![neg(X), neg(Z)]);
}

#[test]
fn add_disjunction_under_an_assignment_counts_from_it() {
    let p = problem(&[&[pos(X), pos(Y), pos(Z)]]);
    let falsified = clause(&[neg(X), pos(Y)]);
    let satisfied = clause(&[pos(X), neg(Z)]);
    let mut state = State::new(&p);
    state.assign(X, Sign::Pos);
    state.assign(Y, Sign::Neg);
    state.add_disjunction(&falsified);
    state.add_disjunction(&satisfied);
    assert_eq!(counters(&state), vec![(1, 1), (0, 0), (1, 1)]);
    assert!(state.is_falsified(1));
    assert_eq!(use_counts(&state, &[X, Y, Z]), vec![(0, 1), (1, 0), (0, 0)]);
    state.unassign(Y);
    state.unassign(X);
    assert_eq!(counters(&state), vec![(3, 0), (2, 0), (2, 0)]);
    assert_eq!(use_counts(&state, &[X, Y, Z]), vec![(2, 1), (2, 0), (1, 1)]);
}

#[test]
fn the_order_of_insertion_does_not_change_the_counters() {
    let a = clause(&[pos(X), neg(Y)]);
    let b = clause(&[pos(Y), pos(Z)]);
    let c = clause(&[neg(X), neg(Z), pos(Y)]);
    let seed = problem(&[&[pos(X), pos(Y), pos(Z)]]);
    let orders: [[&Disjunction; 3]; 3] = [[&a, &b, &c], [&c, &a, &b], [&b, &c, &a]];
    let mut seen: Vec<Vec<(Vec<Literal>, (usize, usize))>> = Vec::new();
    let mut uses: Vec<Vec<(usize, usize)>> = Vec::new();
    for order in orders {
        let mut state = State::new(&seed);
        state.assign(Y, Sign::Pos);
        for d in order {
            state.add_disjunction(d);
        }
        state.assign(X, Sign::Neg);
        let mut by_clause: Vec<(Vec<Literal>, (usize, usize))> = (0..3)
            .map(|i| {
                let at = 1 + i;
                (literals(order[i]), (state.remaining_of(at), state.satisfied_of(at)))
            })
            .collect();
        by_clause.sort_by_key(|(ls, _)| ls.len() * 10 + (ls[0].0).0);
        seen.push(by_clause);
        uses.push(use_counts(&state, &[X, Y, Z]));
    }
    assert_eq!(seen[0], seen[1]);
    assert_eq!(seen[0], seen[2]);
    assert_eq!(uses[0], uses[1]);
    assert_eq!(uses[0], uses[2]);
    assert_eq!(
        seen[0],
        vec![
            (vec![pos(X), neg(Y)], (0, 0)),
            (vec![pos(Y), pos(Z)], (1, 1)),
            (vec![neg(X), neg(Z), pos(Y)], (1, 2)),
        ]
    );
}

#[test]
fn draining_a_worklist_leaves_the_counters_alone() {
    let p = two_implications();
    let mut state = State::new(&p);
    state.assign(Y, Sign::Neg);
    let clauses_before = counters(&state);
    let uses_before = use_counts(&state, &[X, Y]);
    assert_eq!(state.get_and_clear_pures(), vec![X, Y, Y]);
    assert_eq!(state.get_and_clear_propagators().len(), 5);
    assert_eq!(counters(&state), clauses_before);
    assert_eq!(use_counts(&state, &[X, Y]), uses_before);
    assert_eq!(state.sign_of(Y), Some(Sign::Neg));
}
