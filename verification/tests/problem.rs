use satcore::problem::{Disjunction, Literal, Problem, Sign, SignMap, Variable};
use satcore::solver::wrapped::WrappedProblem;
use std::ops::{Index, IndexMut};

fn lit(v: usize, s: Sign) -> Literal {
    Literal(Variable(v), s)
}

fn clause(lits: &[Literal]) -> Disjunction {
    Disjunction::from_literals(lits.to_vec()).unwrap()
}

fn literals(d: &Disjunction) -> Vec<Literal> {
    d.iter().copied().collect()
}

#[test]
fn sign_not_is_an_involution() {
    assert_eq!(!Sign::Pos, Sign::Neg);
    assert_eq!(!Sign::Neg, Sign::Pos);
    assert_eq!(!!Sign::Pos, Sign::Pos);
    assert_eq!(!!Sign::Neg, Sign::Neg);
}

#[test]
fn from_literals_keeps_the_order_given() {
    let d = clause(&[lit(3, Sign::Neg), lit(1, Sign::Pos), lit(2, Sign::Pos)]);
    assert_eq!(d.len(), 3);
    assert_eq!(
        literals(&d),
        vec![lit(3, Sign::Neg), lit(1, Sign::Pos), lit(2, Sign::Pos)]
    );
}

#[test]
fn from_literals_counts_a_repeated_literal_once() {
    let d = clause(&[
        lit(1, Sign::Pos),
        lit(2, Sign::Neg),
        lit(1, Sign::Pos),
        lit(2, Sign::Neg),
        lit(5, Sign::Pos),
    ]);
    assert_eq!(d.len(), 3);
    assert_eq!(
        literals(&d),
        vec![lit(1, Sign::Pos), lit(2, Sign::Neg), lit(5, Sign::Pos)]
    );
}

#[test]
fn from_literals_refuses_both_polarities_of_a_variable() {
    assert!(Disjunction::from_literals(vec![lit(1, Sign::Pos), lit(1, Sign::Neg)]).is_none());
    assert!(Disjunction::from_literals(vec![
        lit(4, Sign::Neg),
        lit(2, Sign::Pos),
        lit(7, Sign::Pos),
        lit(4, Sign::Pos),
    ])
    .is_none());
}

#[test]
fn from_literals_accepts_the_empty_clause() {
    let d = clause(&[]);
    assert_eq!(d.len(), 0);
    assert_eq!(d.iter().count(), 0);
}

#[test]
fn iter_yields_each_variable_once() {
    let d = clause(&[lit(9, Sign::Pos), lit(8, Sign::Neg), lit(9, Sign::Pos)]);
    let vars: Vec<usize> = d.iter().map(|l| (l.0).0).collect();
    assert_eq!(vars, vec![9, 8]);
    assert_eq!(d.iter().count(), d.len());
}

#[test]
fn index_gives_the_polarity_of_a_variable() {
    let d = clause(&[lit(3, Sign::Neg), lit(1, Sign::Pos), lit(2, Sign::Pos)]);
    assert_eq!(d[Variable(3)], Sign::Neg);
    assert_eq!(d[Variable(1)], Sign::Pos);
    assert_eq!(*d.index(Variable(2)), Sign::Pos);
}

#[test]
fn vars_lists_each_variable_once_in_order_of_first_occurrence() {
    let problem = Problem {
        disjunctions: vec![
            clause(&[lit(5, Sign::Pos), lit(2, Sign::Neg)]),
            clause(&[lit(2, Sign::Pos), lit(7, Sign::Neg), lit(5, Sign::Neg)]),
            clause(&[]),
            clause(&[lit(1, Sign::Pos)]),
        ],
    };
    assert_eq!(
        problem.vars(),
        vec![Variable(5), Variable(2), Variable(7), Variable(1)]
    );
}

#[test]
fn vars_of_an_empty_problem_is_empty() {
    let problem = Problem { disjunctions: vec![] };
    assert!(problem.vars().is_empty());
}

#[test]
fn sign_map_holds_what_init_returns() {
    let m = SignMap::new(|s| match s {
        Sign::Pos => 10usize,
        Sign::Neg => 20usize,
    });
    assert_eq!(m[Sign::Pos], 10);
    assert_eq!(m[Sign::Neg], 20);
    assert_eq!(*m.index(Sign::Neg), 20);
}

#[test]
fn sign_map_index_mut_changes_one_entry() {
    let mut m = SignMap::new(|_s| 0usize);
    m[Sign::Pos] += 3;
    *m.index_mut(Sign::Neg) = 8;
    assert_eq!(m[Sign::Pos], 3);
    assert_eq!(m[Sign::Neg], 8);
    m[Sign::Neg] -= 1;
    assert_eq!(m[Sign::Pos], 3);
    assert_eq!(m[Sign::Neg], 7);
}

#[test]
fn wrapped_problem_lists_the_formula_before_learnt_clauses() {
    let wrapped = WrappedProblem {
        problem: Problem {
            disjunctions: vec![
                clause(&[lit(1, Sign::Pos), lit(2, Sign::Pos)]),
                clause(&[lit(2, Sign::Neg)]),
            ],
        },
        learnt_disjunctions: vec![
            clause(&[lit(1, Sign::Neg)]),
            clause(&[lit(3, Sign::Pos), lit(1, Sign::Pos)]),
        ],
    };
    let all = wrapped.disjunctions();
    assert_eq!(all.len(), 4);
    assert!(std::ptr::eq(all[0], &wrapped.problem.disjunctions[0]));
    assert!(std::ptr::eq(all[1], &wrapped.problem.disjunctions[1]));
    assert!(std::ptr::eq(all[2], &wrapped.learnt_disjunctions[0]));
    assert!(std::ptr::eq(all[3], &wrapped.learnt_disjunctions[1]));
    let again = wrapped.disjunctions();
    assert_eq!(again.len(), 4);
    assert_eq!(literals(again[3]), vec![lit(3, Sign::Pos), lit(1, Sign::Pos)]);
}

#[test]
fn wrapped_problem_without_learnt_clauses_is_the_problem() {
    let wrapped = WrappedProblem {
        problem: Problem { disjunctions: vec![clause(&[lit(4, Sign::Neg)])] },
        learnt_disjunctions: vec![],
    };
    let all = wrapped.disjunctions();
    assert_eq!(all.len(), 1);
    assert_eq!(literals(all[0]), vec![lit(4, Sign::Neg)]);
}
