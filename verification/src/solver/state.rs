//! The engine: counters kept up to date while variables are assigned and
//! unassigned and clauses are added.
use crate::problem::{
    lemma_variables_of, mentions, one_sign_per_variable, Disjunction, Literal, Problem, Sign,
    SignMap, Variable,
};
use crate::solver::model::{
    active, count_below, exposed, falsified, last_uses, lemma_clause_counts_bound,
    lemma_count_agree, lemma_count_bound, lemma_count_positive, lemma_last_uses_agree,
    lemma_occurrences, lemma_skip_unmentioned, lemma_update_clause,
    lemma_use_count_bound, lemma_uses_during_advance, lemma_uses_during_ends,
    lemma_uses_during_skip, needed_at, needed_during, occurrences, open_at, released,
    remaining_count, satisfied_count, true_at, use_count, uses_during, Assignment, Bookkeeping,
};
use std::collections::HashMap;
use std::ops::IndexMut;
use vstd::prelude::*;

verus! {

broadcast use vstd::std_specs::hash::group_hash_axioms;

/// What the engine keeps for a variable: its polarity, if it has one, and
/// for each polarity the number of active clauses that hold the literal.
struct AssignInfo {
    sign: Option<Sign>,
    use_counts: SignMap<usize>,
}

impl Clone for AssignInfo {
    fn clone(&self) -> (r: Self)
        ensures
            r == *self,
    {
        *self
    }
}

impl Copy for AssignInfo {}

/// What the engine keeps for a clause: the clause, the number of its
/// variables that are unassigned, and the number of its literals that are true.
struct DisjunctionInfo<'problem> {
    disjunction: &'problem Disjunction,
    remaining: usize,
    satisfied: usize,
}

impl<'problem> Clone for DisjunctionInfo<'problem> {
    fn clone(&self) -> (r: Self)
        ensures
            r == *self,
    {
        *self
    }
}

impl<'problem> Copy for DisjunctionInfo<'problem> {}

/// The partial assignment that the table `assigned` holds.
spec fn assignment_of(assigned: Map<usize, AssignInfo>) -> Assignment {
    Map::new(|v: Variable| assigned.contains_key(v.0), |v: Variable| assigned[v.0].sign)
}

/// The use count that the table `assigned` holds for the literal `l`.
spec fn count_in(assigned: Map<usize, AssignInfo>, l: Literal) -> nat {
    assigned[l.0.0].use_counts[l.1] as nat
}

/// The clauses of the records `infos`.
spec fn clauses_of(infos: Seq<DisjunctionInfo>) -> Seq<Seq<Literal>> {
    Seq::new(infos.len(), |i: int| infos[i].disjunction@)
}

/// One of the first `m` literals of `c` is `l`.
spec fn held_before(c: Seq<Literal>, m: int, l: Literal) -> bool {
    exists|p: int| 0 <= p < m && c[p] == l
}

/// One of the first `m` literals of `c` is over `v`.
spec fn mentioned_before(c: Seq<Literal>, m: int, v: Variable) -> bool {
    exists|p: int| 0 <= p < m && #[trigger] c[p].0 == v
}

/// The list `now` is `was`, with `i` appended if `grown` holds.
spec fn grown_by(now: Seq<usize>, was: Seq<usize>, i: usize, grown: bool) -> bool {
    now == if grown {
        was.push(i)
    } else {
        was
    }
}

/// A clause added at the end is counted for its own literals if it is active,
/// and changes no other count.
proof fn lemma_use_count_push(cs: Seq<Seq<Literal>>, c: Seq<Literal>, a: Assignment, l: Literal)
    ensures
        use_count(cs.push(c), a, l) == use_count(cs, a, l) + if active(c, a) && c.contains(l) {
            1nat
        } else {
            0nat
        },
{
    let n = cs.len() as int;
    let more = cs.push(c);
    lemma_count_agree(n, needed_at(more, a, l), needed_at(cs, a, l));
}

/// For each literal, the use count that the table `assigned` holds for it.
spec fn counts_of(assigned: Map<usize, AssignInfo>) -> spec_fn(Literal) -> nat {
    |l: Literal| count_in(assigned, l)
}

/// The literals of each of the clauses `ds`.
spec fn views_of(ds: Seq<&Disjunction>) -> Seq<Seq<Literal>> {
    Seq::new(ds.len(), |i: int| ds[i]@)
}

/// The assignment `a` knows `v` and gives it no polarity.
spec fn value_of_none(a: Assignment, v: Variable) -> bool {
    a.contains_key(v) && a[v] is None
}

/// The first clause that the walk along `uses` has not reached after `j`
/// steps; `n`, the number of clauses, once it is through.
spec fn reached(uses: Seq<usize>, j: int, n: int) -> int {
    if j < uses.len() {
        uses[j] as int
    } else {
        n
    }
}

/// The clause `d` leaves the active set: the use count of each of its
/// literals goes down by one, and a variable whose count comes to zero is put
/// on the purity worklist.
fn release(assigned: &mut HashMap<usize, AssignInfo>, pures: &mut Vec<Variable>, d: &Disjunction)
    requires
        forall|k: int| 0 <= k < d@.len() ==> old(assigned)@.contains_key(#[trigger] d@[k].0.0),
        forall|k: int| 0 <= k < d@.len() ==> count_in(old(assigned)@, #[trigger] d@[k]) >= 1,
    ensures
        final(assigned)@.dom() == old(assigned)@.dom(),
        forall|k: usize| #[trigger]
            old(assigned)@.contains_key(k) ==> final(assigned)@[k].sign == old(assigned)@[k].sign,
        forall|l: Literal|
            old(assigned)@.contains_key(l.0.0) ==> #[trigger] count_in(final(assigned)@, l) + (if d@.contains(
                l,
            ) {
                1int
            } else {
                0int
            }) == count_in(old(assigned)@, l),
        final(pures)@ == old(pures)@ + last_uses(d@, d@.len() as int, counts_of(old(assigned)@)),
{
    let ghost c = d@;
    let ghost counts0 = assigned@;
    let ghost pures0 = pures@;
    let it = d.iter();
    for l in iter: it
        invariant
            iter.seq().unref() == c,
            iter.seq().len() == c.len(),
            one_sign_per_variable(c),
            forall|k: int| 0 <= k < c.len() ==> counts0.contains_key(#[trigger] c[k].0.0),
            forall|k: int| 0 <= k < c.len() ==> count_in(counts0, #[trigger] c[k]) >= 1,
            assigned@.dom() == counts0.dom(),
            forall|k: usize| #[trigger] counts0.contains_key(k) ==> assigned@[k].sign == counts0[k].sign,
            forall|x: Literal|
                counts0.contains_key(x.0.0) ==> #[trigger] count_in(assigned@, x) + (if held_before(
                    c,
                    iter.index(),
                    x,
                ) {
                    1int
                } else {
                    0int
                }) == count_in(counts0, x),
            pures@ == pures0 + last_uses(c, iter.index(), counts_of(counts0)),
    {
        let ghost m = iter.index();
        let ghost now = assigned@;
        proof {
            assert(count_in(now, *l) == count_in(counts0, *l));
        }
        let mut rec = *self::known(assigned, l.0.0);
        let count = rec.use_counts[l.1];
        *rec.use_counts.index_mut(l.1) = count - 1;
        assigned.insert(l.0.0, rec);
        if count == 1 {
            pures.push(l.0);
        }
        proof {
            assert forall|x: Literal| counts0.contains_key(x.0.0) implies #[trigger] count_in(
                assigned@,
                x,
            ) + (if held_before(c, m + 1, x) {
                1int
            } else {
                0int
            }) == count_in(counts0, x) by {
                assert(count_in(now, x) + (if held_before(c, m, x) {
                    1int
                } else {
                    0int
                }) == count_in(counts0, x));
            }
        }
    }
}

/// The clause `d` comes back into the active set: the use count of each of
/// its literals goes up by one.
fn restore(assigned: &mut HashMap<usize, AssignInfo>, d: &Disjunction)
    requires
        forall|k: int| 0 <= k < d@.len() ==> old(assigned)@.contains_key(#[trigger] d@[k].0.0),
        forall|k: int| 0 <= k < d@.len() ==> count_in(old(assigned)@, #[trigger] d@[k]) < usize::MAX,
    ensures
        final(assigned)@.dom() == old(assigned)@.dom(),
        forall|k: usize| #[trigger]
            old(assigned)@.contains_key(k) ==> final(assigned)@[k].sign == old(assigned)@[k].sign,
        forall|l: Literal|
            old(assigned)@.contains_key(l.0.0) ==> #[trigger] count_in(final(assigned)@, l)
                == count_in(old(assigned)@, l) + (if d@.contains(l) {
                1int
            } else {
                0int
            }),
{
    let ghost c = d@;
    let ghost counts0 = assigned@;
    let it = d.iter();
    for l in iter: it
        invariant
            iter.seq().unref() == c,
            iter.seq().len() == c.len(),
            one_sign_per_variable(c),
            forall|k: int| 0 <= k < c.len() ==> counts0.contains_key(#[trigger] c[k].0.0),
            forall|k: int| 0 <= k < c.len() ==> count_in(counts0, #[trigger] c[k]) < usize::MAX,
            assigned@.dom() == counts0.dom(),
            forall|k: usize| #[trigger] counts0.contains_key(k) ==> assigned@[k].sign == counts0[k].sign,
            forall|x: Literal|
                counts0.contains_key(x.0.0) ==> #[trigger] count_in(assigned@, x) == count_in(
                    counts0,
                    x,
                ) + (if held_before(c, iter.index(), x) {
                    1int
                } else {
                    0int
                }),
    {
        let ghost m = iter.index();
        let ghost now = assigned@;
        proof {
            assert(count_in(now, *l) == count_in(counts0, *l));
        }
        let mut rec = *self::known(assigned, l.0.0);
        let count = rec.use_counts[l.1];
        *rec.use_counts.index_mut(l.1) = count + 1;
        assigned.insert(l.0.0, rec);
        proof {
            assert forall|x: Literal| counts0.contains_key(x.0.0) implies #[trigger] count_in(
                assigned@,
                x,
            ) == count_in(counts0, x) + (if held_before(c, m + 1, x) {
                1int
            } else {
                0int
            }) by {
                assert(count_in(now, x) == count_in(counts0, x) + (if held_before(c, m, x) {
                    1int
                } else {
                    0int
                }));
            }
        }
    }
}

/// The record that the table holds for the variable numbered `k`.
fn known(assigned: &HashMap<usize, AssignInfo>, k: usize) -> (rec: &AssignInfo)
    requires
        assigned@.contains_key(k),
    ensures
        *rec == assigned@[k],
{
    assigned.get(&k).unwrap()
}

/// The incremental engine: the bookkeeping of a backtracking search over the
/// clauses that it was given.
pub struct State<'problem> {
    assigned: HashMap<usize, AssignInfo>,
    used_by: HashMap<usize, Vec<usize>>,
    disjunctions: Vec<DisjunctionInfo<'problem>>,
    unhandled_pure_vars: Vec<Variable>,
    unhandled_propagating_disjunctions: Vec<&'problem Disjunction>,
}

impl<'problem> View for State<'problem> {
    type V = Bookkeeping;

    closed spec fn view(&self) -> Bookkeeping {
        Bookkeeping {
            clauses: clauses_of(self.disjunctions@),
            assignment: assignment_of(self.assigned@),
            pures: self.unhandled_pure_vars@,
            propagators: views_of(self.unhandled_propagating_disjunctions@),
        }
    }
}

impl<'problem> DisjunctionInfo<'problem> {
    /// The record of `disjunction` under the present assignment of `state`.
    fn new(state: &State, disjunction: &'problem Disjunction) -> (info: Self)
        requires
            forall|k: int| 0 <= k < disjunction@.len() ==> state@.known(#[trigger] disjunction@[k].0),
        ensures
            info.disjunction == disjunction,
            info.remaining == remaining_count(disjunction@, state@.assignment),
            info.satisfied == satisfied_count(disjunction@, state@.assignment),
            one_sign_per_variable(disjunction@),
    {
        let ghost c = disjunction@;
        let ghost a = state@.assignment;
        let mut remaining: usize = 0;
        let mut satisfied: usize = 0;
        let it = disjunction.iter();
        for l in iter: it
            invariant
                iter.seq().unref() == c,
                c == disjunction@,
                a == state@.assignment,
                forall|k: int| 0 <= k < c.len() ==> state@.known(#[trigger] c[k].0),
                remaining == count_below(iter.index(), open_at(c, a)),
                satisfied == count_below(iter.index(), true_at(c, a)),
                remaining <= iter.index(),
                satisfied <= iter.index(),
                iter.seq().len() == c.len(),
                c.len() <= usize::MAX,
        {
            match state.sign_of(l.0) {
                None => {
                    remaining += 1;
                },
                Some(s) => {
                    if s == l.1 {
                        satisfied += 1;
                    }
                },
            }
        }
        DisjunctionInfo { disjunction, remaining, satisfied }
    }
}

impl<'problem> State<'problem> {
    /// The number of true literals that the engine keeps for clause `i`.
    pub closed spec fn satisfied(&self, i: int) -> nat {
        self.disjunctions@[i].satisfied as nat
    }

    /// The number of unassigned variables that the engine keeps for clause `i`.
    pub closed spec fn remaining(&self, i: int) -> nat {
        self.disjunctions@[i].remaining as nat
    }

    /// The number of active clauses that the engine keeps for the literal `l`.
    pub closed spec fn use_count(&self, l: Literal) -> nat {
        count_in(self.assigned@, l)
    }

    /// The clause indices that the engine keeps for the variable `v`.
    pub closed spec fn used_by(&self, v: Variable) -> Seq<int> {
        Seq::new(self.used_by@[v.0]@.len(), |j: int| self.used_by@[v.0]@[j] as int)
    }

    /// The two tables of the engine know the same variables.
    pub closed spec fn tables_agree(&self) -> bool {
        self.assigned@.dom() == self.used_by@.dom()
    }

    /// The invariant of the engine: every counter is what its definition says
    /// of the clauses and the present assignment.
    pub open spec fn wf(&self) -> bool {
        &&& self.tables_agree()
        &&& self@.valid()
        &&& forall|i: int|
            0 <= i < self@.clauses.len() ==> #[trigger] self.satisfied(i) == satisfied_count(
                self@.clauses[i],
                self@.assignment,
            )
        &&& forall|i: int|
            0 <= i < self@.clauses.len() ==> #[trigger] self.remaining(i) == remaining_count(
                self@.clauses[i],
                self@.assignment,
            )
        &&& forall|l: Literal|
            self@.known(l.0) ==> #[trigger] self.use_count(l) == use_count(
                self@.clauses,
                self@.assignment,
                l,
            )
        &&& forall|v: Variable|
            self@.known(v) ==> #[trigger] self.used_by(v) == occurrences(self@.clauses, v)
    }

    /// The engine for the clauses of `problem`: every variable unassigned and
    /// on the purity worklist, every clause on the propagation worklist.
    pub fn new(problem: &'problem Problem) -> (state: Self)
        ensures
            state.wf(),
            state@ == Bookkeeping::initial(problem@),
    {
        let vars = problem.vars();
        let ghost start = Bookkeeping::initial(problem@);
        let mut assigned: HashMap<usize, AssignInfo> = HashMap::new();
        let mut used_by: HashMap<usize, Vec<usize>> = HashMap::new();
        for v in iter: vars.iter()
            invariant
                iter.seq().unref() == vars@,
                assigned@.dom() == used_by@.dom(),
                forall|k: usize| #[trigger]
                    assigned@.contains_key(k) <==> exists|j: int|
                        0 <= j < iter.index() && vars@[j] == Variable(k),
                forall|k: usize| #[trigger]
                    assigned@.contains_key(k) ==> assigned@[k].sign is None
                        && assigned@[k].use_counts[Sign::Pos] == 0 && assigned@[k].use_counts[Sign::Neg]
                        == 0 && used_by@[k]@ == Seq::<usize>::empty(),
        {
            let ghost m = iter.index();
            assert(vars@[m] == *v);
            assigned.insert(
                v.0,
                AssignInfo {
                    sign: None,
                    use_counts: SignMap::new(|_sig: Sign| -> (zero: usize) ensures zero == 0 { 0 }),
                },
            );
            used_by.insert(v.0, Vec::new());
        }
        let ndisjuncts = problem.disjunctions.len();
        let mut res = State {
            assigned,
            used_by,
            disjunctions: Vec::with_capacity(ndisjuncts),
            unhandled_pure_vars: vars,
            unhandled_propagating_disjunctions: Vec::with_capacity(ndisjuncts),
        };
        proof {
            assert(res@.clauses =~= problem@.take(0));
            assert(res@.propagators =~= problem@.take(0));
            assert(res@.assignment =~= start.assignment);
            assert forall|v: Variable| res@.known(v) implies #[trigger] res.used_by(v) == occurrences(
                res@.clauses,
                v,
            ) by {}
        }
        for d in iter: problem.disjunctions.iter()
            invariant
                iter.seq().unref() == problem.disjunctions@,
                start == Bookkeeping::initial(problem@),
                res.wf(),
                res@ == (Bookkeeping {
                    clauses: problem@.take(iter.index()),
                    propagators: problem@.take(iter.index()),
                    ..start
                }),
        {
            let ghost m = iter.index();
            proof {
                assert(problem@[m] == d@);
                lemma_variables_of(problem@);
            }
            res.add_disjunction(d);
            proof {
                assert(problem@.take(m + 1) =~= problem@.take(m).push(d@));
            }
        }
        proof {
            assert(problem@.take(problem@.len() as int) =~= problem@);
        }
        res
    }

    /// The polarity of `v`, if it has one.
    pub fn sign_of(&self, v: Variable) -> (s: Option<Sign>)
        requires
            self@.known(v),
        ensures
            s == self@.assignment[v],
    {
        self::known(&self.assigned, v.0).sign
    }

    /// Whether `v` has a polarity.
    pub fn is_set(&self, v: Variable) -> (b: bool)
        requires
            self@.known(v),
        ensures
            b == self@.assignment[v].is_some(),
    {
        self.sign_of(v).is_some()
    }

    /// Takes the clause `disjunction` into the engine, as the last one, and
    /// puts it on the propagation worklist.
    pub fn add_disjunction(&mut self, disjunction: &'problem Disjunction)
        requires
            old(self).wf(),
            forall|k: int|
                0 <= k < disjunction@.len() ==> old(self)@.known(#[trigger] disjunction@[k].0),
        ensures
            final(self).wf(),
            final(self)@ == old(self)@.with_clause(disjunction@),
    {
        let ghost c = disjunction@;
        let ghost cs = self@.clauses;
        let ghost a = self@.assignment;
        let ghost assigned0 = self.assigned@;
        let ghost used0 = self.used_by@;
        let info = DisjunctionInfo::new(self, disjunction);
        let i = self.disjunctions.len();
        self.disjunctions.push(info);
        self.unhandled_propagating_disjunctions.push(disjunction);
        let fresh = info.satisfied == 0;
        proof {
            assert forall|l: Literal| assigned0.contains_key(l.0.0) implies #[trigger] count_in(
                assigned0,
                l,
            ) <= i by {
                assert(old(self).use_count(l) == use_count(cs, a, l));
                lemma_use_count_bound(cs, a, l);
            }
        }
        let it = disjunction.iter();
        for l in iter: it
            invariant
                iter.seq().unref() == c,
                iter.seq().len() == c.len(),
                one_sign_per_variable(c),
                forall|k: int| 0 <= k < c.len() ==> assigned0.contains_key(#[trigger] c[k].0.0),
                assigned0.dom() == used0.dom(),
                i < self.disjunctions.len(),
                fresh == active(c, a),
                self.disjunctions@ == old(self).disjunctions@.push(info),
                self.unhandled_pure_vars@ == old(self).unhandled_pure_vars@,
                self.unhandled_propagating_disjunctions@
                    == old(self).unhandled_propagating_disjunctions@.push(disjunction),
                self.assigned@.dom() == assigned0.dom(),
                self.used_by@.dom() == used0.dom(),
                forall|k: usize| #[trigger]
                    assigned0.contains_key(k) ==> self.assigned@[k].sign == assigned0[k].sign,
                forall|l: Literal|
                    assigned0.contains_key(l.0.0) ==> #[trigger] count_in(assigned0, l) <= i,
                forall|l: Literal|
                    assigned0.contains_key(l.0.0) ==> #[trigger] count_in(self.assigned@, l)
                        == count_in(assigned0, l) + if fresh && held_before(c, iter.index(), l) {
                        1nat
                    } else {
                        0nat
                    },
                forall|k: usize| #[trigger]
                    used0.contains_key(k) ==> grown_by(
                        self.used_by@[k]@,
                        used0[k]@,
                        i,
                        mentioned_before(c, iter.index(), Variable(k)),
                    ),
        {
            let ghost m = iter.index();
            let ghost counts = self.assigned@;
            let mut list = self.used_by.remove(&l.0.0).unwrap();
            list.push(i);
            self.used_by.insert(l.0.0, list);
            if fresh {
                let mut rec = *self::known(&self.assigned, l.0.0);
                let count = rec.use_counts[l.1];
                proof {
                    assert(count == count_in(counts, *l));
                }
                *rec.use_counts.index_mut(l.1) = count + 1;
                self.assigned.insert(l.0.0, rec);
            }
            proof {
                assert forall|x: Literal| assigned0.contains_key(x.0.0) implies #[trigger] count_in(
                    self.assigned@,
                    x,
                ) == count_in(assigned0, x) + if fresh && held_before(c, m + 1, x) {
                    1nat
                } else {
                    0nat
                } by {
                    assert(count_in(counts, x) == count_in(assigned0, x) + if fresh && held_before(
                        c,
                        m,
                        x,
                    ) {
                        1nat
                    } else {
                        0nat
                    });
                }
            }
        }
        proof {
            let more = cs.push(c);
            assert(self@.assignment =~= a);
            assert(self@.clauses =~= more);
            assert(self@.propagators =~= old(self)@.propagators.push(c));
            assert forall|n: int| 0 <= n < more.len() implies #[trigger] self.satisfied(n)
                == satisfied_count(more[n], a) by {
                if n < cs.len() {
                    assert(self.satisfied(n) == old(self).satisfied(n));
                }
            }
            assert forall|n: int| 0 <= n < more.len() implies #[trigger] self.remaining(n)
                == remaining_count(more[n], a) by {
                if n < cs.len() {
                    assert(self.remaining(n) == old(self).remaining(n));
                }
            }
            assert forall|x: Literal| self@.known(x.0) implies #[trigger] self.use_count(x)
                == use_count(more, a, x) by {
                assert(old(self).use_count(x) == use_count(cs, a, x));
                lemma_use_count_push(cs, c, a, x);
            }
            assert forall|v: Variable| self@.known(v) implies #[trigger] self.used_by(v)
                == occurrences(more, v) by {
                assert(old(self).used_by(v) == occurrences(cs, v));
                assert(more.drop_last() =~= cs);
            }
        }
    }

    /// Gives the unassigned variable `var` the polarity `sig`. Every clause
    /// that mentions `var` loses an unassigned variable; one that holds the
    /// literal gains a true literal and, if it had none, leaves the active
    /// set, which may release variables to the purity worklist; one that holds
    /// the opposite literal and comes down to a single unassigned variable is
    /// put on the propagation worklist.
    pub fn assign(&mut self, var: Variable, sig: Sign)
        requires
            old(self).wf(),
            old(self)@.known(var),
            old(self)@.assignment[var] is None,
        ensures
            final(self).wf(),
            final(self)@ == old(self)@.assign(var, sig),
    {
        let ghost cs = self@.clauses;
        let ghost a0 = self@.assignment;
        let ghost a1 = a0.insert(var, Some(sig));
        let ghost n = cs.len() as int;
        let ghost pures0 = self.unhandled_pure_vars@;
        let ghost props0 = views_of(self.unhandled_propagating_disjunctions@);
        let ghost counts0 = self.assigned@;
        let ghost lists0 = self.used_by@;
        let rec = *self::known(&self.assigned, var.0);
        self.assigned.insert(var.0, AssignInfo { sign: Some(sig), use_counts: rec.use_counts });
        let uses = self.used_by.get(&var.0).unwrap();
        let ghost occ = occurrences(cs, var);
        let ghost done = reached(uses@, 0, n);
        proof {
            assert(old(self).used_by(var) == occ);
            lemma_occurrences(cs, var);
            assert forall|i: int| 0 <= i < done implies !mentions(#[trigger] cs[i], var) by {
                if mentions(cs[i], var) {
                    let k = choose|k: int| 0 <= k < occ.len() && occ[k] == i;
                    if k > 0 {
                        assert(occ[0] < occ[k]);
                    }
                }
            }
            lemma_skip_unmentioned(cs, a0, var, sig, 0, done);
            assert forall|i: int| 0 <= i < n implies satisfied_count(
                #[trigger] cs[i],
                if i < done {
                    a1
                } else {
                    a0
                },
            ) == self.disjunctions@[i].satisfied && remaining_count(
                cs[i],
                if i < done {
                    a1
                } else {
                    a0
                },
            ) == self.disjunctions@[i].remaining by {
                assert(old(self).satisfied(i) == satisfied_count(cs[i], a0));
                assert(old(self).remaining(i) == remaining_count(cs[i], a0));
                if i < done {
                    lemma_update_clause(cs[i], a0, var, Some(sig));
                }
            }
            assert forall|l: Literal| counts0.contains_key(l.0.0) implies #[trigger] count_in(
                self.assigned@,
                l,
            ) == uses_during(cs, a0, a1, done)(l) by {
                assert(old(self).use_count(l) == use_count(cs, a0, l));
                lemma_uses_during_ends(cs, a0, a1, l);
                assert forall|i: int| 0 <= i < done implies active(#[trigger] cs[i], a0) == active(
                    cs[i],
                    a1,
                ) by {
                    lemma_update_clause(cs[i], a0, var, Some(sig));
                }
                lemma_uses_during_skip(cs, a0, a1, 0, done, l);
            }
        }
        let mut j: usize = 0;
        while j < uses.len()
            invariant
                0 <= j <= uses@.len(),
                done == reached(uses@, j as int, n),
                n == cs.len(),
                a1 == a0.insert(var, Some(sig)),
                value_of_none(a0, var),
                occ == occurrences(cs, var),
                uses@.len() == occ.len(),
                forall|k: int| 0 <= k < uses@.len() ==> uses@[k] as int == #[trigger] occ[k],
                forall|i: int|
                    0 <= i < n ==> one_sign_per_variable(#[trigger] cs[i]) && forall|k: int|
                        0 <= k < cs[i].len() ==> counts0.contains_key(#[trigger] cs[i][k].0.0),
                self.disjunctions@.len() == n,
                cs == clauses_of(self.disjunctions@),
                self.assigned@.dom() == counts0.dom(),
                self.used_by@ == lists0,
                assignment_of(self.assigned@) == a1,
                forall|i: int|
                    0 <= i < n ==> satisfied_count(
                        #[trigger] cs[i],
                        if i < done {
                            a1
                        } else {
                            a0
                        },
                    ) == self.disjunctions@[i].satisfied && remaining_count(
                        cs[i],
                        if i < done {
                            a1
                        } else {
                            a0
                        },
                    ) == self.disjunctions@[i].remaining,
                forall|l: Literal|
                    counts0.contains_key(l.0.0) ==> #[trigger] count_in(self.assigned@, l)
                        == uses_during(cs, a0, a1, done)(l),
                self.unhandled_pure_vars@ == pures0 + released(cs, a0, var, sig, done),
                views_of(self.unhandled_propagating_disjunctions@) == props0 + exposed(
                    cs,
                    a0,
                    var,
                    sig,
                    done,
                ),
            decreases uses@.len() - j,
        {
            let di = uses[j];
            let ghost next = reached(uses@, j + 1, n);
            let ghost c = cs[di as int];
            let ghost counts = self.assigned@;
            let ghost queued = views_of(self.unhandled_propagating_disjunctions@);
            proof {
                lemma_occurrences(cs, var);
                assert(di < next) by {
                    if j + 1 < uses@.len() {
                        assert(occ[j as int] < occ[j + 1]);
                    }
                }
                lemma_skip_unmentioned(cs, a0, var, sig, di + 1, next);
                lemma_update_clause(c, a0, var, Some(sig));
                lemma_clause_counts_bound(c, a1);
                assert forall|i: int| di < i < next implies satisfied_count(#[trigger] cs[i], a1)
                    == satisfied_count(cs[i], a0) && remaining_count(cs[i], a1) == remaining_count(
                    cs[i],
                    a0,
                ) by {
                    lemma_update_clause(cs[i], a0, var, Some(sig));
                }
            }
            let info = self.disjunctions[di];
            let d = info.disjunction;
            let held = d[var];
            if held == sig {
                self.disjunctions[di] = DisjunctionInfo {
                    disjunction: d,
                    remaining: info.remaining - 1,
                    satisfied: info.satisfied + 1,
                };
                if info.satisfied == 0 {
                    proof {
                        assert forall|k: int| 0 <= k < c.len() implies count_in(
                            counts,
                            #[trigger] c[k],
                        ) >= 1 by {
                            lemma_count_positive(
                                n,
                                needed_during(cs, a0, a1, done, c[k]),
                                di as int,
                            );
                        }
                    }
                    release(&mut self.assigned, &mut self.unhandled_pure_vars, d);
                    proof {
                        lemma_last_uses_agree(
                            c,
                            c.len() as int,
                            counts_of(counts),
                            uses_during(cs, a0, a1, done),
                        );
                    }
                }
            } else {
                self.disjunctions[di] = DisjunctionInfo {
                    disjunction: d,
                    remaining: info.remaining - 1,
                    satisfied: info.satisfied,
                };
                if info.remaining == 2 {
                    self.unhandled_propagating_disjunctions.push(d);
                    proof {
                        assert(views_of(self.unhandled_propagating_disjunctions@) =~= queued.push(c));
                    }
                }
            }
            proof {
                assert forall|l: Literal| counts0.contains_key(l.0.0) implies #[trigger] count_in(
                    self.assigned@,
                    l,
                ) == uses_during(cs, a0, a1, next)(l) by {
                    lemma_uses_during_advance(cs, a0, a1, di as int, next, l);
                }
            }
            j += 1;
            proof {
                done = next;
            }
        }
        proof {
            assert forall|l: Literal| self@.known(l.0) implies #[trigger] self.use_count(l)
                == use_count(cs, a1, l) by {
                lemma_uses_during_ends(cs, a0, a1, l);
            }
            assert forall|v: Variable| self@.known(v) implies #[trigger] self.used_by(v)
                == occurrences(cs, v) by {
                assert(old(self).used_by(v) == occurrences(cs, v));
            }
        }
    }

    /// Takes the polarity of the assigned variable `var` away, and undoes
    /// what its assignment did to the counters: every clause that mentions
    /// `var` regains an unassigned variable; one that held the true literal
    /// loses it and, if it has none left, comes back into the active set.
    /// The worklists stay as they are.
    pub fn unassign(&mut self, var: Variable)
        requires
            old(self).wf(),
            old(self)@.known(var),
            old(self)@.assignment[var] is Some,
        ensures
            final(self).wf(),
            final(self)@ == old(self)@.unassign(var),
    {
        let ghost cs = self@.clauses;
        let ghost a0 = self@.assignment;
        let ghost a1 = a0.insert(var, None);
        let ghost n = cs.len() as int;
        let ghost counts0 = self.assigned@;
        let ghost lists0 = self.used_by@;
        let rec = *self::known(&self.assigned, var.0);
        let sig = rec.sign.unwrap();
        self.assigned.insert(var.0, AssignInfo { sign: None, use_counts: rec.use_counts });
        let uses = self.used_by.get(&var.0).unwrap();
        let ghost occ = occurrences(cs, var);
        let ghost done = reached(uses@, 0, n);
        proof {
            assert(old(self).used_by(var) == occ);
            lemma_occurrences(cs, var);
            assert forall|i: int| 0 <= i < done implies !mentions(#[trigger] cs[i], var) by {
                if mentions(cs[i], var) {
                    let k = choose|k: int| 0 <= k < occ.len() && occ[k] == i;
                    if k > 0 {
                        assert(occ[0] < occ[k]);
                    }
                }
            }
            assert forall|i: int| 0 <= i < n implies satisfied_count(
                #[trigger] cs[i],
                if i < done {
                    a1
                } else {
                    a0
                },
            ) == self.disjunctions@[i].satisfied && remaining_count(
                cs[i],
                if i < done {
                    a1
                } else {
                    a0
                },
            ) == self.disjunctions@[i].remaining by {
                assert(old(self).satisfied(i) == satisfied_count(cs[i], a0));
                assert(old(self).remaining(i) == remaining_count(cs[i], a0));
                if i < done {
                    lemma_update_clause(cs[i], a0, var, None);
                }
            }
            assert forall|l: Literal| counts0.contains_key(l.0.0) implies #[trigger] count_in(
                self.assigned@,
                l,
            ) == uses_during(cs, a0, a1, done)(l) by {
                assert(old(self).use_count(l) == use_count(cs, a0, l));
                lemma_uses_during_ends(cs, a0, a1, l);
                assert forall|i: int| 0 <= i < done implies active(#[trigger] cs[i], a0) == active(
                    cs[i],
                    a1,
                ) by {
                    lemma_update_clause(cs[i], a0, var, None);
                }
                lemma_uses_during_skip(cs, a0, a1, 0, done, l);
            }
        }
        let mut j: usize = 0;
        while j < uses.len()
            invariant
                0 <= j <= uses@.len(),
                done == reached(uses@, j as int, n),
                n == cs.len(),
                a1 == a0.insert(var, None),
                a0.contains_key(var),
                a0[var] == Some(sig),
                occ == occurrences(cs, var),
                uses@.len() == occ.len(),
                forall|k: int| 0 <= k < uses@.len() ==> uses@[k] as int == #[trigger] occ[k],
                forall|i: int|
                    0 <= i < n ==> one_sign_per_variable(#[trigger] cs[i]) && forall|k: int|
                        0 <= k < cs[i].len() ==> counts0.contains_key(#[trigger] cs[i][k].0.0),
                self.disjunctions.len() == n,
                cs == clauses_of(self.disjunctions@),
                self.assigned@.dom() == counts0.dom(),
                self.used_by@ == lists0,
                self.unhandled_pure_vars@ == old(self).unhandled_pure_vars@,
                self.unhandled_propagating_disjunctions@
                    == old(self).unhandled_propagating_disjunctions@,
                assignment_of(self.assigned@) == a1,
                forall|i: int|
                    0 <= i < n ==> satisfied_count(
                        #[trigger] cs[i],
                        if i < done {
                            a1
                        } else {
                            a0
                        },
                    ) == self.disjunctions@[i].satisfied && remaining_count(
                        cs[i],
                        if i < done {
                            a1
                        } else {
                            a0
                        },
                    ) == self.disjunctions@[i].remaining,
                forall|l: Literal|
                    counts0.contains_key(l.0.0) ==> #[trigger] count_in(self.assigned@, l)
                        == uses_during(cs, a0, a1, done)(l),
            decreases uses@.len() - j,
        {
            let di = uses[j];
            let ghost next = reached(uses@, j + 1, n);
            let ghost c = cs[di as int];
            let ghost counts = self.assigned@;
            proof {
                lemma_occurrences(cs, var);
                assert(di < next) by {
                    if j + 1 < uses@.len() {
                        assert(occ[j as int] < occ[j + 1]);
                    }
                }
                lemma_update_clause(c, a0, var, None);
                lemma_clause_counts_bound(c, a1);
                assert forall|i: int| di < i < next implies satisfied_count(#[trigger] cs[i], a1)
                    == satisfied_count(cs[i], a0) && remaining_count(cs[i], a1) == remaining_count(
                    cs[i],
                    a0,
                ) by {
                    lemma_update_clause(cs[i], a0, var, None);
                }
            }
            let info = self.disjunctions[di];
            let d = info.disjunction;
            let held = d[var];
            if held == sig {
                self.disjunctions[di] = DisjunctionInfo {
                    disjunction: d,
                    remaining: info.remaining + 1,
                    satisfied: info.satisfied - 1,
                };
                if info.satisfied == 1 {
                    proof {
                        assert forall|k: int| 0 <= k < c.len() implies count_in(
                            counts,
                            #[trigger] c[k],
                        ) < usize::MAX by {
                            lemma_uses_during_advance(cs, a0, a1, di as int, next, c[k]);
                            lemma_count_bound(n, needed_during(cs, a0, a1, next, c[k]));
                        }
                    }
                    restore(&mut self.assigned, d);
                }
            } else {
                self.disjunctions[di] = DisjunctionInfo {
                    disjunction: d,
                    remaining: info.remaining + 1,
                    satisfied: info.satisfied,
                };
            }
            proof {
                assert forall|l: Literal| counts0.contains_key(l.0.0) implies #[trigger] count_in(
                    self.assigned@,
                    l,
                ) == uses_during(cs, a0, a1, next)(l) by {
                    lemma_uses_during_advance(cs, a0, a1, di as int, next, l);
                }
            }
            j += 1;
            proof {
                done = next;
            }
        }
        proof {
            assert forall|l: Literal| self@.known(l.0) implies #[trigger] self.use_count(l)
                == use_count(cs, a1, l) by {
                lemma_uses_during_ends(cs, a0, a1, l);
            }
            assert forall|v: Variable| self@.known(v) implies #[trigger] self.used_by(v)
                == occurrences(cs, v) by {
                assert(old(self).used_by(v) == occurrences(cs, v));
            }
        }
    }

    /// The number of unassigned variables of clause `index`.
    pub fn remaining_of(&self, index: usize) -> (r: usize)
        requires
            self.wf(),
            index < self@.clauses.len(),
        ensures
            r == self.remaining(index as int),
            r == remaining_count(self@.clauses[index as int], self@.assignment),
    {
        assert(self.remaining(index as int) == remaining_count(
            self@.clauses[index as int],
            self@.assignment,
        ));
        self.disjunctions[index].remaining
    }

    /// The number of true literals of clause `index`.
    pub fn satisfied_of(&self, index: usize) -> (r: usize)
        requires
            self.wf(),
            index < self@.clauses.len(),
        ensures
            r == self.satisfied(index as int),
            r == satisfied_count(self@.clauses[index as int], self@.assignment),
    {
        assert(self.satisfied(index as int) == satisfied_count(
            self@.clauses[index as int],
            self@.assignment,
        ));
        self.disjunctions[index].satisfied
    }

    /// Whether clause `index` is falsified: every variable assigned, no
    /// literal true.
    pub fn is_falsified(&self, index: usize) -> (b: bool)
        requires
            self.wf(),
            index < self@.clauses.len(),
        ensures
            b == falsified(self@.clauses[index as int], self@.assignment),
    {
        self.remaining_of(index) == 0 && self.satisfied_of(index) == 0
    }

    /// The number of active clauses that hold the literal of `v` with the
    /// polarity `s`.
    pub fn use_count_of(&self, v: Variable, s: Sign) -> (r: usize)
        requires
            self.wf(),
            self@.known(v),
        ensures
            r == self.use_count(Literal(v, s)),
            r == use_count(self@.clauses, self@.assignment, Literal(v, s)),
    {
        assert(self.use_count(Literal(v, s)) == use_count(
            self@.clauses,
            self@.assignment,
            Literal(v, s),
        ));
        self::known(&self.assigned, v.0).use_counts[s]
    }

    /// The number of clauses in the engine.
    pub fn len(&self) -> (n: usize)
        ensures
            n == self@.clauses.len(),
    {
        self.disjunctions.len()
    }

    /// Hands out the clauses that await propagation, and empties that worklist.
    pub fn get_and_clear_propagators(&mut self) -> (batch: Vec<&'problem Disjunction>)
        ensures
            Seq::new(batch@.len(), |i: int| batch@[i]@) == old(self)@.propagators,
            final(self)@ == (Bookkeeping { propagators: Seq::empty(), ..old(self)@ }),
            old(self).wf() ==> final(self).wf(),
    {
        let mut batch: Vec<&'problem Disjunction> = Vec::new();
        std::mem::swap(&mut self.unhandled_propagating_disjunctions, &mut batch);
        proof {
            assert(self@.propagators =~= Seq::empty());
            self.lemma_same_counters(*old(self));
        }
        batch
    }

    /// Hands out the variables that await a purity check, and empties that
    /// worklist.
    pub fn get_and_clear_pures(&mut self) -> (batch: Vec<Variable>)
        ensures
            batch@ == old(self)@.pures,
            final(self)@ == (Bookkeeping { pures: Seq::empty(), ..old(self)@ }),
            old(self).wf() ==> final(self).wf(),
    {
        let mut batch: Vec<Variable> = Vec::new();
        std::mem::swap(&mut self.unhandled_pure_vars, &mut batch);
        proof {
            self.lemma_same_counters(*old(self));
        }
        batch
    }

    /// A state that shares the tables and the clause records of a well-formed
    /// one is well-formed.
    proof fn lemma_same_counters(&self, other: Self)
        requires
            self.assigned == other.assigned,
            self.used_by == other.used_by,
            self.disjunctions == other.disjunctions,
        ensures
            other.wf() ==> self.wf(),
    {
        if other.wf() {
            assert forall|i: int| 0 <= i < self@.clauses.len() implies #[trigger] self.satisfied(i)
                == satisfied_count(self@.clauses[i], self@.assignment) by {
                assert(other.satisfied(i) == self.satisfied(i));
            }
            assert forall|i: int| 0 <= i < self@.clauses.len() implies #[trigger] self.remaining(i)
                == remaining_count(self@.clauses[i], self@.assignment) by {
                assert(other.remaining(i) == self.remaining(i));
            }
            assert forall|l: Literal| self@.known(l.0) implies #[trigger] self.use_count(l)
                == use_count(self@.clauses, self@.assignment, l) by {
                assert(other.use_count(l) == self.use_count(l));
            }
            assert forall|v: Variable| self@.known(v) implies #[trigger] self.used_by(v)
                == occurrences(self@.clauses, v) by {
                assert(other.used_by(v) == self.used_by(v));
            }
        }
    }
}

} // verus!
