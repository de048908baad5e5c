//! The mathematics of the bookkeeping: what the counters of the engine
//! mean, and what each operation does to the clauses, the assignment and the
//! two worklists.
use crate::problem::{mentions, one_sign_per_variable, variables_of, Literal, Sign, Variable};
use vstd::prelude::*;

verus! {

/// How many of the numbers `0 .. n` satisfy `p`.
pub open spec fn count_below(n: int, p: spec_fn(int) -> bool) -> nat
    decreases n,
{
    if n <= 0 {
        0
    } else {
        count_below(n - 1, p) + if p(n - 1) {
            1nat
        } else {
            0nat
        }
    }
}

/// At most `n` numbers below `n` satisfy anything.
pub proof fn lemma_count_bound(n: int, p: spec_fn(int) -> bool)
    requires
        0 <= n,
    ensures
        count_below(n, p) <= n,
    decreases n,
{
    if n > 0 {
        lemma_count_bound(n - 1, p);
    }
}

/// Predicates that agree below `n` are satisfied equally often there.
pub proof fn lemma_count_agree(n: int, p: spec_fn(int) -> bool, q: spec_fn(int) -> bool)
    requires
        forall|i: int| 0 <= i < n ==> #[trigger] p(i) == q(i),
    ensures
        count_below(n, p) == count_below(n, q),
    decreases n,
{
    if n > 0 {
        lemma_count_agree(n - 1, p, q);
    }
}

/// Predicates that differ below `n` at `k` alone, where only `p` holds, have
/// counts that differ by one.
pub proof fn lemma_count_differ(n: int, p: spec_fn(int) -> bool, q: spec_fn(int) -> bool, k: int)
    requires
        0 <= k < n,
        p(k) && !q(k),
        forall|i: int| 0 <= i < n && i != k ==> #[trigger] p(i) == q(i),
    ensures
        count_below(n, p) == count_below(n, q) + 1,
    decreases n,
{
    if k == n - 1 {
        lemma_count_agree(n - 1, p, q);
    } else {
        lemma_count_differ(n - 1, p, q, k);
    }
}

/// The count is zero exactly when nothing below `n` satisfies `p`.
pub proof fn lemma_count_zero(n: int, p: spec_fn(int) -> bool)
    ensures
        count_below(n, p) == 0 <==> forall|i: int| 0 <= i < n ==> !#[trigger] p(i),
    decreases n,
{
    if n > 0 {
        lemma_count_zero(n - 1, p);
    }
}

/// A count of one names its only witness: whatever below `n` satisfies `p` is `k`.
pub proof fn lemma_count_single(n: int, p: spec_fn(int) -> bool, k: int)
    requires
        0 <= k < n,
        p(k),
        count_below(n, p) == 1,
    ensures
        forall|i: int| 0 <= i < n && #[trigger] p(i) ==> i == k,
    decreases n,
{
    if k == n - 1 {
        lemma_count_zero(n - 1, p);
    } else {
        lemma_count_positive(n - 1, p, k);
        lemma_count_single(n - 1, p, k);
    }
}

/// A witness below `n` makes the count positive.
pub proof fn lemma_count_positive(n: int, p: spec_fn(int) -> bool, k: int)
    requires
        0 <= k < n,
        p(k),
    ensures
        count_below(n, p) >= 1,
    decreases n,
{
    if k < n - 1 {
        lemma_count_positive(n - 1, p, k);
    }
}

/// A partial assignment: what each known variable holds, a polarity or nothing.
pub type Assignment = Map<Variable, Option<Sign>>;

/// What `a` gives the variable `v`; nothing for a variable that `a` does not know.
pub open spec fn value_of(a: Assignment, v: Variable) -> Option<Sign> {
    if a.contains_key(v) {
        a[v]
    } else {
        None
    }
}

/// The positions of `c` whose literal is true under `a`.
pub open spec fn true_at(c: Seq<Literal>, a: Assignment) -> spec_fn(int) -> bool {
    |i: int| value_of(a, c[i].0) == Some(c[i].1)
}

/// The positions of `c` whose variable is unassigned under `a`.
pub open spec fn open_at(c: Seq<Literal>, a: Assignment) -> spec_fn(int) -> bool {
    |i: int| value_of(a, c[i].0) is None
}

/// The number of literals of `c` that are true under `a`.
pub open spec fn satisfied_count(c: Seq<Literal>, a: Assignment) -> nat {
    count_below(c.len() as int, true_at(c, a))
}

/// The number of variables of `c` that are unassigned under `a`.
pub open spec fn remaining_count(c: Seq<Literal>, a: Assignment) -> nat {
    count_below(c.len() as int, open_at(c, a))
}

/// `c` is active under `a`: none of its literals is true.
pub open spec fn active(c: Seq<Literal>, a: Assignment) -> bool {
    satisfied_count(c, a) == 0
}

/// `c` is unit under `a`: active, with one variable left.
pub open spec fn unit(c: Seq<Literal>, a: Assignment) -> bool {
    active(c, a) && remaining_count(c, a) == 1
}

/// `c` is falsified under `a`: active, with no variable left.
pub open spec fn falsified(c: Seq<Literal>, a: Assignment) -> bool {
    active(c, a) && remaining_count(c, a) == 0
}

/// The clauses of `cs` that need `l`: active under `a`, and holding `l`.
pub open spec fn needed_at(cs: Seq<Seq<Literal>>, a: Assignment, l: Literal) -> spec_fn(int) -> bool {
    |i: int| active(cs[i], a) && cs[i].contains(l)
}

/// The number of clauses of `cs` that are active under `a` and hold `l`.
pub open spec fn use_count(cs: Seq<Seq<Literal>>, a: Assignment, l: Literal) -> nat {
    count_below(cs.len() as int, needed_at(cs, a, l))
}

/// The indices of the clauses of `cs` that mention `v`, in rising order.
pub open spec fn occurrences(cs: Seq<Seq<Literal>>, v: Variable) -> Seq<int>
    decreases cs.len(),
{
    if cs.len() == 0 {
        Seq::empty()
    } else {
        let before = occurrences(cs.drop_last(), v);
        if mentions(cs.last(), v) {
            before.push(cs.len() - 1)
        } else {
            before
        }
    }
}

/// `occurrences` rises strictly and holds exactly the clauses that mention `v`.
pub proof fn lemma_occurrences(cs: Seq<Seq<Literal>>, v: Variable)
    ensures
        forall|j: int|
            0 <= j < occurrences(cs, v).len() ==> 0 <= #[trigger] occurrences(cs, v)[j] < cs.len()
                && mentions(cs[occurrences(cs, v)[j]], v),
        forall|j: int, k: int|
            0 <= j < k < occurrences(cs, v).len() ==> occurrences(cs, v)[j] < occurrences(cs, v)[k],
        forall|i: int|
            0 <= i < cs.len() && mentions(#[trigger] cs[i], v) ==> occurrences(cs, v).contains(i),
    decreases cs.len(),
{
    let occ = occurrences(cs, v);
    if cs.len() > 0 {
        let front = cs.drop_last();
        let before = occurrences(front, v);
        lemma_occurrences(front, v);
        assert forall|i: int| 0 <= i < cs.len() && mentions(#[trigger] cs[i], v) implies occ.contains(
            i,
        ) by {
            if i < front.len() {
                assert(front[i] == cs[i]);
                let j = choose|j: int| 0 <= j < before.len() && before[j] == i;
                assert(occ[j] == i);
            } else {
                assert(occ[occ.len() - 1] == i);
            }
        }
    }
}

/// What giving `v` the value `x` does to the two counts of a clause: nothing
/// where the clause does not mention `v`; where it holds `v` at `k`, each count
/// moves by what that one position adds or loses.
pub proof fn lemma_update_clause(c: Seq<Literal>, a: Assignment, v: Variable, x: Option<Sign>)
    requires
        one_sign_per_variable(c),
    ensures
        !mentions(c, v) ==> satisfied_count(c, a.insert(v, x)) == satisfied_count(c, a)
            && remaining_count(c, a.insert(v, x)) == remaining_count(c, a),
        forall|k: int|
            0 <= k < c.len() && (#[trigger] c[k]).0 == v ==> {
                &&& satisfied_count(c, a.insert(v, x)) + (if value_of(a, v) == Some(c[k].1) {
                    1int
                } else {
                    0int
                }) == satisfied_count(c, a) + (if x == Some(c[k].1) {
                    1int
                } else {
                    0int
                })
                &&& remaining_count(c, a.insert(v, x)) + (if value_of(a, v) is None {
                    1int
                } else {
                    0int
                }) == remaining_count(c, a) + (if x is None {
                    1int
                } else {
                    0int
                })
            },
{
    let b = a.insert(v, x);
    let n = c.len() as int;
    if !mentions(c, v) {
        lemma_count_agree(n, true_at(c, b), true_at(c, a));
        lemma_count_agree(n, open_at(c, b), open_at(c, a));
    }
    assert forall|k: int| 0 <= k < c.len() && (#[trigger] c[k]).0 == v implies {
        &&& satisfied_count(c, b) + (if value_of(a, v) == Some(c[k].1) {
            1int
        } else {
            0int
        }) == satisfied_count(c, a) + (if x == Some(c[k].1) {
            1int
        } else {
            0int
        })
        &&& remaining_count(c, b) + (if value_of(a, v) is None {
            1int
        } else {
            0int
        }) == remaining_count(c, a) + (if x is None {
            1int
        } else {
            0int
        })
    } by {
        let was_true = true_at(c, a)(k);
        let is_true = true_at(c, b)(k);
        if was_true == is_true {
            lemma_count_agree(n, true_at(c, b), true_at(c, a));
        } else if is_true {
            lemma_count_differ(n, true_at(c, b), true_at(c, a), k);
        } else {
            lemma_count_differ(n, true_at(c, a), true_at(c, b), k);
        }
        let was_open = open_at(c, a)(k);
        let is_open = open_at(c, b)(k);
        if was_open == is_open {
            lemma_count_agree(n, open_at(c, b), open_at(c, a));
        } else if is_open {
            lemma_count_differ(n, open_at(c, b), open_at(c, a), k);
        } else {
            lemma_count_differ(n, open_at(c, a), open_at(c, b), k);
        }
    }
}

/// The clauses of `cs` that need `l` while an assignment changes: the first
/// `done` clauses are judged under `after`, the others under `before`.
pub open spec fn needed_during(
    cs: Seq<Seq<Literal>>,
    before: Assignment,
    after: Assignment,
    done: int,
    l: Literal,
) -> spec_fn(int) -> bool {
    |i: int|
        active(
            cs[i],
            if i < done {
                after
            } else {
                before
            },
        ) && cs[i].contains(l)
}

/// For each literal, the number of clauses that need it while the first `done`
/// clauses are judged under `after` and the others under `before`.
pub open spec fn uses_during(
    cs: Seq<Seq<Literal>>,
    before: Assignment,
    after: Assignment,
    done: int,
) -> spec_fn(Literal) -> nat {
    |l: Literal| count_below(cs.len() as int, needed_during(cs, before, after, done, l))
}

/// The variables of those among the first `upto` literals of `c` that `uses`
/// counts once, in the order of `c`: the literals whose last user `c` is.
pub open spec fn last_uses(c: Seq<Literal>, upto: int, uses: spec_fn(Literal) -> nat) -> Seq<
    Variable,
>
    decreases upto,
{
    if upto <= 0 {
        Seq::empty()
    } else {
        let before = last_uses(c, upto - 1, uses);
        if uses(c[upto - 1]) == 1 {
            before.push(c[upto - 1].0)
        } else {
            before
        }
    }
}

/// The variables that become pure candidates when `v` is given `s`, as far as
/// the first `n` clauses cause it. A clause that holds the literal and was
/// active leaves the active set; each of its literals that no other clause
/// needs at that moment releases its variable.
pub open spec fn released(cs: Seq<Seq<Literal>>, a: Assignment, v: Variable, s: Sign, n: int) -> Seq<
    Variable,
>
    decreases n,
{
    if n <= 0 {
        Seq::empty()
    } else {
        let before = released(cs, a, v, s, n - 1);
        let c = cs[n - 1];
        if c.contains(Literal(v, s)) && active(c, a) {
            before + last_uses(
                c,
                c.len() as int,
                uses_during(cs, a, a.insert(v, Some(s)), n - 1),
            )
        } else {
            before
        }
    }
}

/// The clauses among the first `n` that come down to one unassigned variable
/// when `v` is given `s`: those that hold the opposite literal and had two
/// unassigned variables.
pub open spec fn exposed(cs: Seq<Seq<Literal>>, a: Assignment, v: Variable, s: Sign, n: int) -> Seq<
    Seq<Literal>,
>
    decreases n,
{
    if n <= 0 {
        Seq::empty()
    } else {
        let before = exposed(cs, a, v, s, n - 1);
        let c = cs[n - 1];
        if c.contains(Literal(v, s.flip())) && remaining_count(c, a) == 2 {
            before.push(c)
        } else {
            before
        }
    }
}

/// The use count of a literal is at most the number of clauses.
pub proof fn lemma_use_count_bound(cs: Seq<Seq<Literal>>, a: Assignment, l: Literal)
    ensures
        use_count(cs, a, l) <= cs.len(),
{
    lemma_count_bound(cs.len() as int, needed_at(cs, a, l));
}

/// Neither count of a clause exceeds its length.
pub proof fn lemma_clause_counts_bound(c: Seq<Literal>, a: Assignment)
    ensures
        satisfied_count(c, a) <= c.len(),
        remaining_count(c, a) <= c.len(),
{
    lemma_count_bound(c.len() as int, true_at(c, a));
    lemma_count_bound(c.len() as int, open_at(c, a));
}

/// While nothing is judged under the new assignment yet, the counts are
/// those of the old one; once everything is, those of the new one.
pub proof fn lemma_uses_during_ends(
    cs: Seq<Seq<Literal>>,
    before: Assignment,
    after: Assignment,
    l: Literal,
)
    ensures
        uses_during(cs, before, after, 0)(l) == use_count(cs, before, l),
        uses_during(cs, before, after, cs.len() as int)(l) == use_count(cs, after, l),
{
    let n = cs.len() as int;
    lemma_count_agree(n, needed_during(cs, before, after, 0, l), needed_at(cs, before, l));
    lemma_count_agree(n, needed_during(cs, before, after, n, l), needed_at(cs, after, l));
}

/// Moving the line between the clauses judged under `after` and those judged
/// under `before` from `lo` to `hi` changes the count of `l` by what clause
/// `lo` adds or loses, if the clauses between are as active under one
/// assignment as under the other.
pub proof fn lemma_uses_during_advance(
    cs: Seq<Seq<Literal>>,
    before: Assignment,
    after: Assignment,
    lo: int,
    hi: int,
    l: Literal,
)
    requires
        0 <= lo < hi <= cs.len(),
        forall|i: int| lo < i < hi ==> active(#[trigger] cs[i], before) == active(cs[i], after),
    ensures
        uses_during(cs, before, after, hi)(l) + (if active(cs[lo], before) && cs[lo].contains(l) {
            1int
        } else {
            0int
        }) == uses_during(cs, before, after, lo)(l) + (if active(cs[lo], after) && cs[lo].contains(
            l,
        ) {
            1int
        } else {
            0int
        }),
{
    let n = cs.len() as int;
    let p = needed_during(cs, before, after, hi, l);
    let q = needed_during(cs, before, after, lo, l);
    if p(lo) == q(lo) {
        lemma_count_agree(n, p, q);
    } else if p(lo) {
        lemma_count_differ(n, p, q, lo);
    } else {
        lemma_count_differ(n, q, p, lo);
    }
}

/// The same move over clauses that are all as active under one assignment as
/// under the other changes no count.
pub proof fn lemma_uses_during_skip(
    cs: Seq<Seq<Literal>>,
    before: Assignment,
    after: Assignment,
    lo: int,
    hi: int,
    l: Literal,
)
    requires
        0 <= lo <= hi <= cs.len(),
        forall|i: int| lo <= i < hi ==> active(#[trigger] cs[i], before) == active(cs[i], after),
    ensures
        uses_during(cs, before, after, hi)(l) == uses_during(cs, before, after, lo)(l),
{
    let n = cs.len() as int;
    let p = needed_during(cs, before, after, hi, l);
    let q = needed_during(cs, before, after, lo, l);
    lemma_count_agree(n, p, q);
}

/// `last_uses` looks at `uses` on the literals of `c` alone.
pub proof fn lemma_last_uses_agree(
    c: Seq<Literal>,
    upto: int,
    f: spec_fn(Literal) -> nat,
    g: spec_fn(Literal) -> nat,
)
    requires
        upto <= c.len(),
        forall|k: int| 0 <= k < upto ==> f(#[trigger] c[k]) == g(c[k]),
    ensures
        last_uses(c, upto, f) == last_uses(c, upto, g),
    decreases upto,
{
    if upto > 0 {
        lemma_last_uses_agree(c, upto - 1, f, g);
    }
}

/// Clauses that do not mention `v` release and expose nothing when `v` is
/// assigned.
pub proof fn lemma_skip_unmentioned(
    cs: Seq<Seq<Literal>>,
    a: Assignment,
    v: Variable,
    s: Sign,
    lo: int,
    hi: int,
)
    requires
        0 <= lo <= hi <= cs.len(),
        forall|i: int| lo <= i < hi ==> !mentions(#[trigger] cs[i], v),
    ensures
        released(cs, a, v, s, hi) == released(cs, a, v, s, lo),
        exposed(cs, a, v, s, hi) == exposed(cs, a, v, s, lo),
    decreases hi - lo,
{
    if lo < hi {
        lemma_skip_unmentioned(cs, a, v, s, lo, hi - 1);
    }
}

/// What the engine keeps, as mathematics: the clauses in the order in which
/// they were added, the partial assignment, and the two worklists. The
/// counters of the engine are functions of the first two.
pub struct Bookkeeping {
    pub clauses: Seq<Seq<Literal>>,
    pub assignment: Assignment,
    pub pures: Seq<Variable>,
    pub propagators: Seq<Seq<Literal>>,
}

impl Bookkeeping {
    /// The assignment knows `v`.
    pub open spec fn known(self, v: Variable) -> bool {
        self.assignment.contains_key(v)
    }

    /// Every clause holds each variable once, and only known variables.
    pub open spec fn valid(self) -> bool {
        forall|i: int|
            0 <= i < self.clauses.len() ==> one_sign_per_variable(#[trigger] self.clauses[i])
                && forall|k: int|
                0 <= k < self.clauses[i].len() ==> self.known(#[trigger] self.clauses[i][k].0)
    }

    /// The state built from the clauses `cs`: every variable unassigned and a
    /// pure candidate, every clause a candidate for propagation.
    pub open spec fn initial(cs: Seq<Seq<Literal>>) -> Bookkeeping {
        Bookkeeping {
            clauses: cs,
            assignment: Map::new(|v: Variable| variables_of(cs).contains(v), |v: Variable| None),
            pures: variables_of(cs),
            propagators: cs,
        }
    }

    /// The state after the clause `c` was added.
    pub open spec fn with_clause(self, c: Seq<Literal>) -> Bookkeeping {
        Bookkeeping {
            clauses: self.clauses.push(c),
            assignment: self.assignment,
            pures: self.pures,
            propagators: self.propagators.push(c),
        }
    }

    /// The state after `v` was given the polarity `s`.
    pub open spec fn assign(self, v: Variable, s: Sign) -> Bookkeeping {
        let n = self.clauses.len() as int;
        Bookkeeping {
            clauses: self.clauses,
            assignment: self.assignment.insert(v, Some(s)),
            pures: self.pures + released(self.clauses, self.assignment, v, s, n),
            propagators: self.propagators + exposed(self.clauses, self.assignment, v, s, n),
        }
    }

    /// The state after `v` lost its polarity.
    pub open spec fn unassign(self, v: Variable) -> Bookkeeping {
        Bookkeeping {
            clauses: self.clauses,
            assignment: self.assignment.insert(v, None),
            pures: self.pures,
            propagators: self.propagators,
        }
    }
}

} // verus!
