//! The formula: variables, polarities, literals, clauses, and the
//! sequence of clauses that a search starts from.
use std::collections::{HashMap, HashSet};
use std::ops::{Index, IndexMut, Not};
use vstd::prelude::*;
use vstd::std_specs::iter::IteratorSpec;
use vstd::std_specs::ops::NotSpecImpl;

verus! {

broadcast use vstd::std_specs::hash::group_hash_axioms;

/// A boolean unknown, named by a number.
#[derive(PartialEq, Eq, Structural, Hash, Clone, Copy, Debug)]
pub struct Variable(pub usize);

/// The polarity that a literal asserts of its variable.
#[derive(PartialEq, Eq, Structural, Clone, Copy, Debug)]
pub enum Sign {
    Pos,
    Neg,
}

/// A variable together with the polarity asserted of it.
#[derive(PartialEq, Eq, Structural, Clone, Copy, Debug)]
pub struct Literal(pub Variable, pub Sign);

impl Sign {
    /// The opposite polarity.
    pub open spec fn flip(self) -> Sign {
        match self {
            Sign::Pos => Sign::Neg,
            Sign::Neg => Sign::Pos,
        }
    }
}

impl Not for Sign {
    type Output = Sign;

    /// The opposite polarity.
    fn not(self) -> (r: Sign)
        ensures
            r == self.flip(),
    {
        match self {
            Sign::Pos => Sign::Neg,
            Sign::Neg => Sign::Pos,
        }
    }
}

impl NotSpecImpl for Sign {
    open spec fn obeys_not_spec() -> bool {
        true
    }

    open spec fn not_req(self) -> bool {
        true
    }

    open spec fn not_spec(self) -> Sign {
        self.flip()
    }
}

/// No variable stands in two literals of `c`.
pub open spec fn one_sign_per_variable(c: Seq<Literal>) -> bool {
    forall|i: int, j: int| 0 <= i < j < c.len() ==> c[i].0 != c[j].0
}

/// Some literal of `c` is over the variable `v`.
pub open spec fn mentions(c: Seq<Literal>, v: Variable) -> bool {
    exists|i: int| 0 <= i < c.len() && c[i].0 == v
}

/// Two literals of `ls` assert opposite polarities of one variable.
pub open spec fn contradictory(ls: Seq<Literal>) -> bool {
    exists|i: int, j: int|
        0 <= i < ls.len() && 0 <= j < ls.len() && ls[i].0 == ls[j].0 && ls[i].1 != ls[j].1
}

/// The literals of `ls` in the order of their first occurrence, each once.
pub open spec fn without_repeats(ls: Seq<Literal>) -> Seq<Literal>
    decreases ls.len(),
{
    if ls.len() == 0 {
        Seq::empty()
    } else {
        let kept = without_repeats(ls.drop_last());
        if kept.contains(ls.last()) {
            kept
        } else {
            kept.push(ls.last())
        }
    }
}

/// `without_repeats` keeps exactly the literals that occur, and none twice.
pub proof fn lemma_without_repeats(ls: Seq<Literal>)
    ensures
        without_repeats(ls).no_duplicates(),
        forall|l: Literal|
            #![trigger without_repeats(ls).contains(l)]
            #![trigger ls.contains(l)]
            without_repeats(ls).contains(l) <==> ls.contains(l),
        without_repeats(ls).len() <= ls.len(),
    decreases ls.len(),
{
    if ls.len() > 0 {
        let front = ls.drop_last();
        let kept = without_repeats(front);
        lemma_without_repeats(front);
        assert forall|l: Literal|
            #![trigger without_repeats(ls).contains(l)]
            #![trigger ls.contains(l)]
            without_repeats(ls).contains(l) <==> ls.contains(l) by {
            if ls.contains(l) {
                let i = choose|i: int| 0 <= i < ls.len() && ls[i] == l;
                if i < ls.len() - 1 {
                    assert(front[i] == l);
                    assert(kept.contains(l));
                    let k = choose|k: int| 0 <= k < kept.len() && kept[k] == l;
                    assert(without_repeats(ls)[k] == l);
                } else if !kept.contains(l) {
                    assert(without_repeats(ls)[kept.len() as int] == l);
                }
            }
            if without_repeats(ls).contains(l) {
                let k = choose|k: int| 0 <= k < without_repeats(ls).len() && without_repeats(ls)[k] == l;
                if k < kept.len() {
                    assert(kept.contains(l));
                }
            }
        }
    }
}

/// A clause: the disjunction of its literals, each variable under one polarity.
/// The literals are kept in the order in which they are enumerated, and the
/// polarity of each variable a second time under the number of the variable.
pub struct Disjunction {
    literals: Vec<Literal>,
    signs: HashMap<usize, Sign>,
}

/// What `Disjunction::iter` hands out.
pub type DisjunctionIter<'a> = std::slice::Iter<'a, Literal>;

impl View for Disjunction {
    type V = Seq<Literal>;

    /// The literals in the order in which the clause enumerates them.
    closed spec fn view(&self) -> Seq<Literal> {
        self.literals@
    }
}

impl Disjunction {
    #[verifier::type_invariant]
    closed spec fn inv(&self) -> bool {
        &&& one_sign_per_variable(self.literals@)
        &&& forall|k: usize| #[trigger]
            self.signs@.contains_key(k) ==> self.literals@.contains(
                Literal(Variable(k), self.signs@[k]),
            )
        &&& forall|j: int|
            0 <= j < self.literals@.len() ==> self.signs@.contains_key(
                (#[trigger] self.literals@[j]).0.0,
            ) && self.signs@[self.literals@[j].0.0] == self.literals@[j].1
    }

    /// Builds the clause over `literals`. A literal given more than once counts
    /// once; a variable given under both polarities is refused.
    pub fn from_literals(literals: Vec<Literal>) -> (r: Option<Disjunction>)
        ensures
            r is None <==> contradictory(literals@),
            r matches Some(d) ==> d@ == without_repeats(literals@) && one_sign_per_variable(d@),
    {
        let mut kept: Vec<Literal> = Vec::new();
        let mut seen: HashMap<usize, Sign> = HashMap::new();
        let mut i: usize = 0;
        while i < literals.len()
            invariant
                0 <= i <= literals.len(),
                kept@ == without_repeats(literals@.take(i as int)),
                !contradictory(literals@.take(i as int)),
                forall|k: usize| #[trigger]
                    seen@.contains_key(k) ==> kept@.contains(Literal(Variable(k), seen@[k])),
                forall|j: int|
                    0 <= j < kept@.len() ==> seen@.contains_key((#[trigger] kept@[j]).0.0)
                        && seen@[kept@[j].0.0] == kept@[j].1,
            decreases literals.len() - i,
        {
            let l = literals[i];
            let ghost front = literals@.take(i as int);
            let ghost next = literals@.take(i + 1);
            proof {
                assert(next.drop_last() =~= front);
                lemma_without_repeats(front);
            }
            match seen.get(&l.0.0) {
                Some(s) => {
                    if *s != l.1 {
                        return None;
                    }
                },
                None => {
                    seen.insert(l.0.0, l.1);
                    kept.push(l);
                    proof {
                        let before = without_repeats(front);
                        assert forall|k: usize| #[trigger] seen@.contains_key(k) implies kept@.contains(
                            Literal(Variable(k), seen@[k]),
                        ) by {
                            let x = Literal(Variable(k), seen@[k]);
                            if k == l.0.0 {
                                assert(kept@[before.len() as int] == x);
                            } else {
                                let m = choose|m: int| 0 <= m < before.len() && before[m] == x;
                                assert(kept@[m] == x);
                            }
                        }
                    }
                },
            }
            proof {
                if contradictory(next) {
                    let (a, b) = choose|a: int, b: int|
                        0 <= a < next.len() && 0 <= b < next.len() && next[a].0 == next[b].0
                            && next[a].1 != next[b].1;
                    if a >= i || b >= i {
                        let o = if a < i { a } else { b };
                        assert(front.contains(front[o]));
                    }
                }
            }
            i += 1;
        }
        proof {
            assert(literals@.take(i as int) =~= literals@);
            lemma_without_repeats(literals@);
        }
        Some(Disjunction { literals: kept, signs: seen })
    }

    /// The number of literals.
    pub fn len(&self) -> (n: usize)
        ensures
            n == self@.len(),
    {
        self.literals.len()
    }

    /// An iterator over the literals, each variable once.
    pub fn iter(&self) -> (it: DisjunctionIter<'_>)
        ensures
            it.remaining().unref() == self@,
            one_sign_per_variable(self@),
            self@.len() <= usize::MAX,
            IteratorSpec::decrease(&it) is Some,
            IteratorSpec::initial_value_relation(&it, &it),
    {
        proof {
            use_type_invariant(self);
        }
        let it = self.literals.as_slice().iter();
        assert(self.literals.len() == self@.len());
        it
    }
}

impl Index<Variable> for Disjunction {
    type Output = Sign;

    /// The polarity under which the clause holds `k`.
    fn index(&self, k: Variable) -> (s: &Sign)
        ensures
            self@.contains(Literal(k, *s)),
            one_sign_per_variable(self@),
            self@.len() <= usize::MAX,
    {
        proof {
            use_type_invariant(self);
            let j = choose|j: int| 0 <= j < self@.len() && self@[j].0 == k;
            assert(self.signs@.contains_key(self.literals@[j].0.0));
            assert(self.literals.len() == self@.len());
        }
        self.signs.get(&k.0).unwrap()
    }
}

impl vstd::std_specs::core::IndexSpecImpl<Variable> for Disjunction {
    open spec fn index_req(&self, index: &Variable) -> bool {
        mentions(self@, *index)
    }
}

/// The formula: its clauses in order.
pub struct Problem {
    pub disjunctions: Vec<Disjunction>,
}

impl View for Problem {
    type V = Seq<Seq<Literal>>;

    open spec fn view(&self) -> Seq<Seq<Literal>> {
        Seq::new(self.disjunctions@.len(), |i: int| self.disjunctions@[i]@)
    }
}

/// The variables of `c` that `found` lacks, appended to it in the order of `c`.
pub open spec fn with_variables_of(found: Seq<Variable>, c: Seq<Literal>) -> Seq<Variable>
    decreases c.len(),
{
    if c.len() == 0 {
        found
    } else {
        let before = with_variables_of(found, c.drop_last());
        if before.contains(c.last().0) {
            before
        } else {
            before.push(c.last().0)
        }
    }
}

/// The variables of the clauses `cs` in the order of their first occurrence,
/// each once.
pub open spec fn variables_of(cs: Seq<Seq<Literal>>) -> Seq<Variable>
    decreases cs.len(),
{
    if cs.len() == 0 {
        Seq::empty()
    } else {
        with_variables_of(variables_of(cs.drop_last()), cs.last())
    }
}

/// `with_variables_of` repeats no variable, and adds exactly those of `c`.
pub proof fn lemma_with_variables_of(found: Seq<Variable>, c: Seq<Literal>)
    requires
        found.no_duplicates(),
    ensures
        with_variables_of(found, c).no_duplicates(),
        forall|v: Variable| #[trigger]
            with_variables_of(found, c).contains(v) <==> found.contains(v) || mentions(c, v),
    decreases c.len(),
{
    let all = with_variables_of(found, c);
    if c.len() > 0 {
        let front = c.drop_last();
        let before = with_variables_of(found, front);
        lemma_with_variables_of(found, front);
        assert forall|v: Variable| #[trigger]
            all.contains(v) <==> found.contains(v) || mentions(c, v) by {
            if mentions(c, v) {
                let i = choose|i: int| 0 <= i < c.len() && c[i].0 == v;
                if i < front.len() {
                    assert(front[i].0 == v);
                }
            }
            if before.contains(v) {
                let k = choose|k: int| 0 <= k < before.len() && before[k] == v;
                assert(all[k] == v);
            }
            if v == c.last().0 && !before.contains(v) {
                assert(all[before.len() as int] == v);
            }
        }
    }
}

/// `variables_of` repeats no variable, and holds exactly those that a clause
/// of `cs` mentions.
pub proof fn lemma_variables_of(cs: Seq<Seq<Literal>>)
    ensures
        variables_of(cs).no_duplicates(),
        forall|v: Variable| #[trigger]
            variables_of(cs).contains(v) <==> exists|i: int|
                0 <= i < cs.len() && mentions(#[trigger] cs[i], v),
    decreases cs.len(),
{
    if cs.len() > 0 {
        let front = cs.drop_last();
        lemma_variables_of(front);
        lemma_with_variables_of(variables_of(front), cs.last());
        assert forall|v: Variable| #[trigger]
            variables_of(cs).contains(v) <==> exists|i: int|
                0 <= i < cs.len() && mentions(#[trigger] cs[i], v) by {
            if exists|i: int| 0 <= i < cs.len() && mentions(#[trigger] cs[i], v) {
                let i = choose|i: int| 0 <= i < cs.len() && mentions(#[trigger] cs[i], v);
                if i < front.len() {
                    assert(mentions(front[i], v));
                }
            }
        }
    }
}

impl Problem {
    /// Every variable that some clause mentions, each once, in the order of
    /// first occurrence.
    pub fn vars(&self) -> (vs: Vec<Variable>)
        ensures
            vs@ == variables_of(self@),
            vs@.no_duplicates(),
            forall|v: Variable| #[trigger]
                vs@.contains(v) <==> exists|i: int|
                    0 <= i < self@.len() && mentions(#[trigger] self@[i], v),
    {
        let mut vs: Vec<Variable> = Vec::new();
        let mut seen: HashSet<usize> = HashSet::new();
        let mut n: usize = 0;
        while n < self.disjunctions.len()
            invariant
                0 <= n <= self.disjunctions@.len(),
                vs@ == variables_of(self@.take(n as int)),
                forall|k: usize| #[trigger] seen@.contains(k) <==> vs@.contains(Variable(k)),
            decreases self.disjunctions@.len() - n,
        {
            let d = &self.disjunctions[n];
            let ghost base = vs@;
            let it = d.iter();
            for l in iter: it
                invariant
                    iter.seq().unref() == d@,
                    vs@ == with_variables_of(base, d@.take(iter.index())),
                    forall|k: usize| #[trigger] seen@.contains(k) <==> vs@.contains(Variable(k)),
            {
                let ghost m = iter.index();
                proof {
                    assert(d@.take(m + 1).drop_last() =~= d@.take(m));
                }
                if !seen.contains(&l.0.0) {
                    let ghost before = vs@;
                    seen.insert(l.0.0);
                    vs.push(l.0);
                    proof {
                        assert forall|k: usize| #[trigger]
                            seen@.contains(k) <==> vs@.contains(Variable(k)) by {
                            if before.contains(Variable(k)) {
                                let j = choose|j: int| 0 <= j < before.len() && before[j] == Variable(k);
                                assert(vs@[j] == Variable(k));
                            }
                            if k == l.0.0 {
                                assert(vs@[before.len() as int] == Variable(k));
                            }
                        }
                    }
                }
            }
            proof {
                assert(d@.take(d@.len() as int) =~= d@);
                assert(self@.take(n + 1).drop_last() =~= self@.take(n as int));
            }
            n += 1;
        }
        proof {
            assert(self@.take(n as int) =~= self@);
            lemma_variables_of(self@);
        }
        vs
    }
}

/// One value for each polarity.
#[derive(Debug)]
pub struct SignMap<V> {
    pos_val: V,
    neg_val: V,
}

impl<V> SignMap<V> {
    /// The value kept for the polarity `k`.
    pub closed spec fn spec_index(self, k: Sign) -> V {
        match k {
            Sign::Pos => self.pos_val,
            Sign::Neg => self.neg_val,
        }
    }

    /// The map that holds, for each polarity, what `init` returns for it.
    pub fn new<F: Fn(Sign) -> V>(init: F) -> (m: SignMap<V>)
        requires
            init.requires((Sign::Pos,)),
            init.requires((Sign::Neg,)),
        ensures
            init.ensures((Sign::Pos,), m[Sign::Pos]),
            init.ensures((Sign::Neg,), m[Sign::Neg]),
    {
        SignMap { pos_val: init(Sign::Pos), neg_val: init(Sign::Neg) }
    }
}

impl<V: Copy> Clone for SignMap<V> {
    fn clone(&self) -> (r: Self)
        ensures
            r == *self,
    {
        *self
    }
}

impl<V: Copy> Copy for SignMap<V> {}

impl<V> Index<Sign> for SignMap<V> {
    type Output = V;

    fn index(&self, k: Sign) -> (r: &V)
        ensures
            *r == self[k],
    {
        match k {
            Sign::Pos => &self.pos_val,
            Sign::Neg => &self.neg_val,
        }
    }
}

impl<V> vstd::std_specs::core::IndexSpecImpl<Sign> for SignMap<V> {
    open spec fn index_req(&self, index: &Sign) -> bool {
        true
    }
}

impl<V> IndexMut<Sign> for SignMap<V> {
    fn index_mut(&mut self, k: Sign) -> (r: &mut V)
        ensures
            *r == old(self)[k],
            final(self)[k] == *final(r),
            final(self)[k.flip()] == old(self)[k.flip()],
    {
        match k {
            Sign::Pos => &mut self.pos_val,
            Sign::Neg => &mut self.neg_val,
        }
    }
}

} // verus!
