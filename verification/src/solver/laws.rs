//! What holds of the engine across calls: assignments can be taken back,
//! new unit clauses and pure candidates reach their worklists, and the order
//! in which clauses were added does not show in the counters.
use crate::problem::{mentions, one_sign_per_variable, Literal, Sign, Variable};
use crate::solver::model::{
    active, count_below, exposed, falsified, last_uses, lemma_count_agree, lemma_count_single,
    lemma_count_zero, lemma_update_clause, needed_at, needed_during, open_at, released,
    remaining_count, satisfied_count, unit, use_count, uses_during, value_of, Assignment,
    Bookkeeping,
};
use crate::solver::state::State;
use vstd::prelude::*;
use vstd::seq_lib::to_multiset_remove;

verus! {

/// A positive count has a last witness.
proof fn lemma_last_witness(n: int, p: spec_fn(int) -> bool) -> (m: int)
    requires
        count_below(n, p) > 0,
    ensures
        0 <= m < n,
        p(m),
        forall|i: int| m < i < n ==> !#[trigger] p(i),
    decreases n,
{
    if p(n - 1) {
        n - 1
    } else {
        lemma_last_witness(n - 1, p)
    }
}

/// A predicate that holds below `n` at `k` alone is counted once.
proof fn lemma_count_only(n: int, p: spec_fn(int) -> bool, k: int)
    requires
        0 <= k < n,
        p(k),
        forall|i: int| 0 <= i < n && i != k ==> !#[trigger] p(i),
    ensures
        count_below(n, p) == 1,
    decreases n,
{
    if k == n - 1 {
        lemma_count_zero(n - 1, p);
    } else {
        lemma_count_only(n - 1, p, k);
    }
}

/// A literal of `c` that `uses` counts once has its variable in `last_uses`.
proof fn lemma_last_uses_contains(
    c: Seq<Literal>,
    upto: int,
    uses: spec_fn(Literal) -> nat,
    k: int,
)
    requires
        0 <= k < upto <= c.len(),
        uses(c[k]) == 1,
    ensures
        last_uses(c, upto, uses).contains(c[k].0),
    decreases upto,
{
    let all = last_uses(c, upto, uses);
    let before = last_uses(c, upto - 1, uses);
    if k == upto - 1 {
        assert(all[before.len() as int] == c[k].0);
    } else {
        lemma_last_uses_contains(c, upto - 1, uses, k);
        let j = choose|j: int| 0 <= j < before.len() && before[j] == c[k].0;
        assert(all[j] == c[k].0);
    }
}

/// What the first `lo` clauses release, the first `hi` release too.
proof fn lemma_released_grows(
    cs: Seq<Seq<Literal>>,
    a: Assignment,
    v: Variable,
    s: Sign,
    lo: int,
    hi: int,
    x: Variable,
)
    requires
        lo <= hi,
        released(cs, a, v, s, lo).contains(x),
    ensures
        released(cs, a, v, s, hi).contains(x),
    decreases hi - lo,
{
    if lo < hi {
        lemma_released_grows(cs, a, v, s, lo, hi - 1, x);
        let before = released(cs, a, v, s, hi - 1);
        let all = released(cs, a, v, s, hi);
        let j = choose|j: int| 0 <= j < before.len() && before[j] == x;
        assert(all[j] == x);
    }
}

/// A clause among the first `n` that holds the opposite literal and had two
/// unassigned variables is among the exposed ones.
proof fn lemma_exposed_contains(
    cs: Seq<Seq<Literal>>,
    a: Assignment,
    v: Variable,
    s: Sign,
    n: int,
    i: int,
)
    requires
        0 <= i < n,
        cs[i].contains(Literal(v, s.flip())),
        remaining_count(cs[i], a) == 2,
    ensures
        exposed(cs, a, v, s, n).contains(cs[i]),
    decreases n,
{
    let all = exposed(cs, a, v, s, n);
    let before = exposed(cs, a, v, s, n - 1);
    if i == n - 1 {
        assert(all[before.len() as int] == cs[i]);
    } else {
        lemma_exposed_contains(cs, a, v, s, n - 1, i);
        let j = choose|j: int| 0 <= j < before.len() && before[j] == cs[i];
        assert(all[j] == cs[i]);
    }
}

/// Taking an element out of a sequence of clauses takes its share out of the
/// use count.
proof fn lemma_use_count_remove(cs: Seq<Seq<Literal>>, a: Assignment, l: Literal, k: int)
    requires
        0 <= k < cs.len(),
    ensures
        use_count(cs, a, l) == use_count(cs.remove(k), a, l) + if active(cs[k], a) && cs[k].contains(
            l,
        ) {
            1nat
        } else {
            0nat
        },
    decreases cs.len(),
{
    let n = cs.len() as int;
    let rest = cs.remove(k);
    if k == n - 1 {
        lemma_count_agree(n - 1, needed_at(cs, a, l), needed_at(rest, a, l));
    } else {
        let front = cs.drop_last();
        lemma_use_count_remove(front, a, l, k);
        assert(front.remove(k) =~= rest.drop_last());
        lemma_count_agree(n - 1, needed_at(cs, a, l), needed_at(front, a, l));
        lemma_count_agree(n - 2, needed_at(rest, a, l), needed_at(rest.drop_last(), a, l));
    }
}

/// Assigning a variable and taking the assignment back restores every
/// counter: the true and the unassigned count of every clause, and the use
/// count of every literal.
pub proof fn law_assign_unassign_round_trip(before: &State, after: &State, v: Variable, s: Sign)
    requires
        before.wf(),
        after.wf(),
        before@.known(v),
        before@.assignment[v] is None,
        after@ == before@.assign(v, s).unassign(v),
    ensures
        after@.clauses == before@.clauses,
        after@.assignment == before@.assignment,
        forall|i: int|
            0 <= i < before@.clauses.len() ==> #[trigger] after.satisfied(i) == before.satisfied(i),
        forall|i: int|
            0 <= i < before@.clauses.len() ==> #[trigger] after.remaining(i) == before.remaining(i),
        forall|l: Literal| before@.known(l.0) ==> #[trigger] after.use_count(l) == before.use_count(l),
{
}

/// A clause that an assignment brings down to one unassigned variable while
/// none of its literals is true stands on the propagation worklist afterwards.
pub proof fn law_new_unit_is_enqueued(b: Bookkeeping, v: Variable, s: Sign, i: int)
    requires
        b.valid(),
        b.known(v),
        b.assignment[v] is None,
        0 <= i < b.clauses.len(),
        remaining_count(b.clauses[i], b.assignment) != 1,
        unit(b.clauses[i], b.assignment.insert(v, Some(s))),
    ensures
        b.assign(v, s).propagators.contains(b.clauses[i]),
{
    let c = b.clauses[i];
    let a = b.assignment;
    let n = b.clauses.len() as int;
    lemma_update_clause(c, a, v, Some(s));
    lemma_exposed_contains(b.clauses, a, v, s, n, i);
    let added = exposed(b.clauses, a, v, s, n);
    let j = choose|j: int| 0 <= j < added.len() && added[j] == c;
    assert((b.propagators + added)[b.propagators.len() + j] == c);
}

/// A clause added to the engine stands on the propagation worklist
/// afterwards, whatever its counts.
pub proof fn law_added_clause_is_enqueued(b: Bookkeeping, c: Seq<Literal>)
    ensures
        b.with_clause(c).propagators.contains(c),
{
    assert(b.propagators.push(c)[b.propagators.len() as int] == c);
}

/// A unit clause has exactly one literal over an unassigned variable.
/// Giving that variable the polarity of the literal makes the clause true;
/// giving it the opposite polarity falsifies the clause. The result is the
/// position of that literal.
pub proof fn law_unit_clause_forces_its_literal(c: Seq<Literal>, a: Assignment) -> (k: int)
    requires
        one_sign_per_variable(c),
        unit(c, a),
    ensures
        0 <= k < c.len(),
        value_of(a, c[k].0) is None,
        forall|j: int| 0 <= j < c.len() && value_of(a, (#[trigger] c[j]).0) is None ==> j == k,
        satisfied_count(c, a.insert(c[k].0, Some(c[k].1))) == 1,
        falsified(c, a.insert(c[k].0, Some(c[k].1.flip()))),
{
    let n = c.len() as int;
    let k = lemma_last_witness(n, open_at(c, a));
    lemma_count_single(n, open_at(c, a), k);
    assert forall|j: int| 0 <= j < c.len() && value_of(a, (#[trigger] c[j]).0) is None implies j
        == k by {
        assert(open_at(c, a)(j));
    }
    lemma_update_clause(c, a, c[k].0, Some(c[k].1));
    lemma_update_clause(c, a, c[k].0, Some(c[k].1.flip()));
    k
}

/// A literal whose use count an assignment brings to zero has its variable
/// on the purity worklist afterwards.
pub proof fn law_released_variable_is_enqueued(b: Bookkeeping, v: Variable, s: Sign, l: Literal)
    requires
        b.valid(),
        b.known(v),
        b.assignment[v] is None,
        use_count(b.clauses, b.assignment, l) > 0,
        use_count(b.clauses, b.assignment.insert(v, Some(s)), l) == 0,
    ensures
        b.assign(v, s).pures.contains(l.0),
{
    let cs = b.clauses;
    let a = b.assignment;
    let a1 = a.insert(v, Some(s));
    let n = cs.len() as int;
    let m = lemma_last_witness(n, needed_at(cs, a, l));
    lemma_count_zero(n, needed_at(cs, a1, l));
    let during = needed_during(cs, a, a1, m, l);
    assert forall|i: int| 0 <= i < n && i != m implies !#[trigger] during(i) by {
        if i < m {
            assert(!needed_at(cs, a1, l)(i));
        } else {
            assert(!needed_at(cs, a, l)(i));
        }
    }
    lemma_count_only(n, during, m);
    let c = cs[m];
    assert(!needed_at(cs, a1, l)(m));
    lemma_update_clause(c, a, v, Some(s));
    let p = choose|p: int| 0 <= p < c.len() && c[p] == l;
    lemma_last_uses_contains(c, c.len() as int, uses_during(cs, a, a1, m), p);
    let here = last_uses(c, c.len() as int, uses_during(cs, a, a1, m));
    let upto = released(cs, a, v, s, m + 1);
    let j = choose|j: int| 0 <= j < here.len() && here[j] == l.0;
    assert(upto[released(cs, a, v, s, m).len() + j] == l.0);
    lemma_released_grows(cs, a, v, s, m + 1, n, l.0);
    let added = released(cs, a, v, s, n);
    let q = choose|q: int| 0 <= q < added.len() && added[q] == l.0;
    assert((b.pures + added)[b.pures.len() + q] == l.0);
}

/// Where no active clause holds the literal of an unassigned variable `v`
/// with the polarity `s`, giving `v` the opposite polarity falsifies no
/// clause that was not falsified before, and makes every active clause that
/// mentions `v` true.
pub proof fn law_pure_assignment_falsifies_nothing(b: Bookkeeping, v: Variable, s: Sign, i: int)
    requires
        b.valid(),
        b.known(v),
        b.assignment[v] is None,
        use_count(b.clauses, b.assignment, Literal(v, s)) == 0,
        0 <= i < b.clauses.len(),
    ensures
        falsified(b.clauses[i], b.assignment.insert(v, Some(s.flip()))) ==> falsified(
            b.clauses[i],
            b.assignment,
        ),
        active(b.clauses[i], b.assignment) && mentions(b.clauses[i], v) ==> !active(
            b.clauses[i],
            b.assignment.insert(v, Some(s.flip())),
        ),
{
    let c = b.clauses[i];
    let a = b.assignment;
    let n = b.clauses.len() as int;
    lemma_update_clause(c, a, v, Some(s.flip()));
    lemma_count_zero(n, needed_at(b.clauses, a, Literal(v, s)));
    assert(!needed_at(b.clauses, a, Literal(v, s))(i));
}

/// The counters of a clause depend on the clause and the assignment alone:
/// two engines under one assignment keep the same counts for a clause that
/// both hold, wherever it stands in each.
pub proof fn law_clause_counters_ignore_insertion_order(
    first: &State,
    second: &State,
    i: int,
    j: int,
)
    requires
        first.wf(),
        second.wf(),
        first@.assignment == second@.assignment,
        0 <= i < first@.clauses.len(),
        0 <= j < second@.clauses.len(),
        first@.clauses[i] == second@.clauses[j],
    ensures
        first.satisfied(i) == second.satisfied(j),
        first.remaining(i) == second.remaining(j),
{
}

/// The use count of a literal depends on which clauses there are, not on the
/// order in which they were added.
pub proof fn law_use_counts_ignore_insertion_order(
    first: Seq<Seq<Literal>>,
    second: Seq<Seq<Literal>>,
    a: Assignment,
    l: Literal,
)
    requires
        first.to_multiset() == second.to_multiset(),
    ensures
        use_count(first, a, l) == use_count(second, a, l),
    decreases first.len(),
{
    first.to_multiset_ensures();
    second.to_multiset_ensures();
    if first.len() > 0 {
        let x = first.last();
        assert(second.to_multiset().count(x) > 0);
        let k = choose|k: int| 0 <= k < second.len() && second[k] == x;
        to_multiset_remove(first, first.len() - 1);
        law_use_counts_ignore_insertion_order(first.drop_last(), second.remove(k), a, l);
        lemma_use_count_remove(first, a, l, first.len() - 1);
        lemma_use_count_remove(second, a, l, k);
    }
}

} // verus!
