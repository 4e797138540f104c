use vstd::prelude::*;

use crate::propositions::{
    and, atoms, contains_and, copy_proposition, eval, implication_free, is_cnf, is_disjunction,
    is_nnf, no_and_under_or, not, or, term, Proposition,
};

verus! {

/// A literal as the search sees it: the name of an atom and whether it is
/// negated.
pub type Literal = (Seq<char>, bool);

/// The literal with the same atom and the other polarity.
pub open spec fn negated(l: Literal) -> Literal {
    (l.0, !l.1)
}

/// The literal `l` is true when the atoms have the values `v`.
pub open spec fn literal_holds(l: Literal, v: spec_fn(Seq<char>) -> bool) -> bool {
    v(l.0) != l.1
}

/// The disjunction of the literals `c` is true under `v`.
pub open spec fn satisfied(c: Seq<Literal>, v: spec_fn(Seq<char>) -> bool) -> bool {
    exists|k: int| 0 <= k < c.len() && #[trigger] literal_holds(c[k], v)
}

/// A term or negated term that is part of a clause.
#[derive(Debug, Clone, Eq, Hash)]
pub enum ClausePart {
    Term(String),
    NegatedTerm(String),
}

impl View for ClausePart {
    type V = Literal;

    open spec fn view(&self) -> Literal {
        match self {
            ClausePart::Term(s) => (s@, false),
            ClausePart::NegatedTerm(s) => (s@, true),
        }
    }
}

impl PartialEq for ClausePart {
    fn eq(&self, other: &ClausePart) -> (r: bool) {
        match (self, other) {
            (ClausePart::Term(a), ClausePart::Term(b)) => *a == *b,
            (ClausePart::NegatedTerm(a), ClausePart::NegatedTerm(b)) => *a == *b,
            _ => false,
        }
    }
}

impl vstd::std_specs::cmp::PartialEqSpecImpl for ClausePart {
    open spec fn obeys_eq_spec() -> bool {
        true
    }

    open spec fn eq_spec(&self, other: &ClausePart) -> bool {
        self@ == other@
    }
}

/// The clause part with the same name and the other polarity.
pub open spec fn negation_of(p: ClausePart) -> ClausePart {
    match p {
        ClausePart::Term(s) => ClausePart::NegatedTerm(s),
        ClausePart::NegatedTerm(s) => ClausePart::Term(s),
    }
}

/// Negating a clause part twice gives the part back.
pub proof fn negation_is_involutive(p: ClausePart)
    ensures
        negation_of(negation_of(p)) == p,
        negated(negated(p@)) == p@,
        negation_of(p)@ == negated(p@),
{
}

impl ClausePart {
    /// Returns the negated version of the clause part.
    pub fn negate(&self) -> (r: ClausePart)
        ensures
            r == negation_of(*self),
            r@ == negated(self@),
    {
        match self {
            ClausePart::Term(a) => ClausePart::NegatedTerm(a.clone()),
            ClausePart::NegatedTerm(a) => ClausePart::Term(a.clone()),
        }
    }

    /// A copy of the clause part.
    pub fn duplicate(&self) -> (r: ClausePart)
        ensures
            r == *self,
            r@ == self@,
    {
        match self {
            ClausePart::Term(a) => ClausePart::Term(a.clone()),
            ClausePart::NegatedTerm(a) => ClausePart::NegatedTerm(a.clone()),
        }
    }
}

/// The literals of a sequence of clause parts.
pub open spec fn literals(parts: Seq<ClausePart>) -> Seq<Literal> {
    parts.map_values(|p: ClausePart| p@)
}

/// A proposition made up of the disjunction of possibly negated terms.
#[derive(Debug, Clone, PartialEq, Eq, Hash)]
pub struct Clause {
    pub parts: Vec<ClausePart>,
}

impl View for Clause {
    type V = Seq<Literal>;

    open spec fn view(&self) -> Seq<Literal> {
        literals(self.parts@)
    }
}

/// Stage one: `Implies(a, b)` becomes `Or(Not(a), b)` and `Iff(a, b)` the
/// conjunction of the implications both ways, everywhere in the formula.
pub open spec fn without_implications(f: Proposition) -> Proposition
    decreases f,
{
    match f {
        Proposition::Implies(a, b) => Proposition::Or(
            Box::new(Proposition::Not(Box::new(without_implications(*a)))),
            Box::new(without_implications(*b)),
        ),
        Proposition::Iff(a, b) => Proposition::And(
            Box::new(
                Proposition::Or(
                    Box::new(Proposition::Not(Box::new(without_implications(*a)))),
                    Box::new(without_implications(*b)),
                ),
            ),
            Box::new(
                Proposition::Or(
                    Box::new(Proposition::Not(Box::new(without_implications(*b)))),
                    Box::new(without_implications(*a)),
                ),
            ),
        ),
        Proposition::Or(a, b) => Proposition::Or(
            Box::new(without_implications(*a)),
            Box::new(without_implications(*b)),
        ),
        Proposition::And(a, b) => Proposition::And(
            Box::new(without_implications(*a)),
            Box::new(without_implications(*b)),
        ),
        Proposition::Not(a) => Proposition::Not(Box::new(without_implications(*a))),
        Proposition::Term(s) => Proposition::Term(s),
    }
}

/// Stage two: negations pushed down to the terms by De Morgan's laws, double
/// negations removed.
pub open spec fn negation_normal(f: Proposition) -> Proposition
    decreases f,
{
    match f {
        Proposition::Not(a) => negation_normal_of_not(*a),
        Proposition::Or(a, b) => Proposition::Or(
            Box::new(negation_normal(*a)),
            Box::new(negation_normal(*b)),
        ),
        Proposition::And(a, b) => Proposition::And(
            Box::new(negation_normal(*a)),
            Box::new(negation_normal(*b)),
        ),
        _ => f,
    }
}

/// Stage two applied to `Not(f)`.
pub open spec fn negation_normal_of_not(f: Proposition) -> Proposition
    decreases f,
{
    match f {
        Proposition::Not(b) => negation_normal(*b),
        Proposition::And(b, c) => Proposition::Or(
            Box::new(negation_normal_of_not(*b)),
            Box::new(negation_normal_of_not(*c)),
        ),
        Proposition::Or(b, c) => Proposition::And(
            Box::new(negation_normal_of_not(*b)),
            Box::new(negation_normal_of_not(*c)),
        ),
        _ => Proposition::Not(Box::new(f)),
    }
}

/// The disjunction of two formulas in conjunctive normal form, distributed
/// over their conjunctions, the left operand's first.
pub open spec fn distributed(a: Proposition, b: Proposition) -> Proposition
    decreases a, b,
{
    match a {
        Proposition::And(a1, a2) => Proposition::And(
            Box::new(distributed(*a1, b)),
            Box::new(distributed(*a2, b)),
        ),
        _ => match b {
            Proposition::And(b1, b2) => Proposition::And(
                Box::new(distributed(a, *b1)),
                Box::new(distributed(a, *b2)),
            ),
            _ => Proposition::Or(Box::new(a), Box::new(b)),
        },
    }
}

/// Stage three: disjunction distributed over conjunction until no `Or` has an
/// `And` below it.
pub open spec fn conjunctive_normal(f: Proposition) -> Proposition
    decreases f,
{
    match f {
        Proposition::And(a, b) => Proposition::And(
            Box::new(conjunctive_normal(*a)),
            Box::new(conjunctive_normal(*b)),
        ),
        Proposition::Or(a, b) => distributed(conjunctive_normal(*a), conjunctive_normal(*b)),
        _ => f,
    }
}

/// The operands of the conjunctions at the top of `f`, left to right.
pub open spec fn conjuncts(f: Proposition) -> Seq<Proposition>
    decreases f,
{
    match f {
        Proposition::And(a, b) => conjuncts(*a) + conjuncts(*b),
        _ => seq![f],
    }
}

/// The literals of a disjunction of literals, left to right.
pub open spec fn literals_of(f: Proposition) -> Seq<Literal>
    decreases f,
{
    match f {
        Proposition::Or(a, b) => literals_of(*a) + literals_of(*b),
        Proposition::Not(a) => match *a {
            Proposition::Term(s) => seq![(s@, true)],
            _ => Seq::empty(),
        },
        Proposition::Term(s) => seq![(s@, false)],
        _ => Seq::empty(),
    }
}

/// The whole pipeline: the literals of each clause of `f`.
pub open spec fn clause_literals(f: Proposition) -> Seq<Seq<Literal>> {
    conjuncts(conjunctive_normal(negation_normal(without_implications(f)))).map_values(
        |c: Proposition| literals_of(c),
    )
}

proof fn lemma_without_implications(f: Proposition)
    ensures
        implication_free(without_implications(f)),
        implication_free(f) ==> without_implications(f) == f,
        atoms(without_implications(f)) == atoms(f),
        forall|v: spec_fn(Seq<char>) -> bool| #[trigger]
            eval(without_implications(f), v) == eval(f, v),
    decreases f,
{
    reveal_with_fuel(implication_free, 4);
    reveal_with_fuel(eval, 4);
    reveal_with_fuel(atoms, 4);
    match f {
        Proposition::Or(a, b) | Proposition::And(a, b) | Proposition::Implies(a, b)
        | Proposition::Iff(a, b) => {
            lemma_without_implications(*a);
            lemma_without_implications(*b);
            assert(atoms(without_implications(f)) =~= atoms(f));
            assert forall|v: spec_fn(Seq<char>) -> bool| #[trigger]
                eval(without_implications(f), v) == eval(f, v) by {
                assert(eval(without_implications(*a), v) == eval(*a, v));
                assert(eval(without_implications(*b), v) == eval(*b, v));
            }
        },
        Proposition::Not(a) => {
            lemma_without_implications(*a);
            assert forall|v: spec_fn(Seq<char>) -> bool| #[trigger]
                eval(without_implications(f), v) == eval(f, v) by {
                assert(eval(without_implications(*a), v) == eval(*a, v));
            }
        },
        Proposition::Term(_) => {},
    }
}

proof fn lemma_negation_normal(f: Proposition)
    requires
        implication_free(f),
    ensures
        is_nnf(negation_normal(f)),
        atoms(negation_normal(f)) == atoms(f),
        forall|v: spec_fn(Seq<char>) -> bool| #[trigger] eval(negation_normal(f), v) == eval(f, v),
    decreases f,
{
    reveal_with_fuel(eval, 2);
    reveal_with_fuel(is_nnf, 2);
    match f {
        Proposition::Not(a) => {
            lemma_negation_normal_of_not(*a);
            assert forall|v: spec_fn(Seq<char>) -> bool| #[trigger]
                eval(negation_normal(f), v) == eval(f, v) by {
                assert(eval(negation_normal_of_not(*a), v) == !eval(*a, v));
            }
        },
        Proposition::Or(a, b) | Proposition::And(a, b) => {
            lemma_negation_normal(*a);
            lemma_negation_normal(*b);
            assert forall|v: spec_fn(Seq<char>) -> bool| #[trigger]
                eval(negation_normal(f), v) == eval(f, v) by {
                assert(eval(negation_normal(*a), v) == eval(*a, v));
                assert(eval(negation_normal(*b), v) == eval(*b, v));
            }
        },
        _ => {},
    }
}

proof fn lemma_negation_normal_of_not(f: Proposition)
    requires
        implication_free(f),
    ensures
        is_nnf(negation_normal_of_not(f)),
        atoms(negation_normal_of_not(f)) == atoms(f),
        forall|v: spec_fn(Seq<char>) -> bool| #[trigger]
            eval(negation_normal_of_not(f), v) == !eval(f, v),
    decreases f,
{
    reveal_with_fuel(eval, 2);
    reveal_with_fuel(is_nnf, 2);
    reveal_with_fuel(atoms, 2);
    match f {
        Proposition::Not(b) => {
            lemma_negation_normal(*b);
            assert forall|v: spec_fn(Seq<char>) -> bool| #[trigger]
                eval(negation_normal_of_not(f), v) == !eval(f, v) by {
                assert(eval(negation_normal(*b), v) == eval(*b, v));
            }
        },
        Proposition::And(b, c) | Proposition::Or(b, c) => {
            lemma_negation_normal_of_not(*b);
            lemma_negation_normal_of_not(*c);
            assert forall|v: spec_fn(Seq<char>) -> bool| #[trigger]
                eval(negation_normal_of_not(f), v) == !eval(f, v) by {
                assert(eval(negation_normal_of_not(*b), v) == !eval(*b, v));
                assert(eval(negation_normal_of_not(*c), v) == !eval(*c, v));
            }
        },
        _ => {},
    }
}

proof fn lemma_disjunction_has_no_and(f: Proposition)
    requires
        is_disjunction(f),
    ensures
        !contains_and(f),
    decreases f,
{
    reveal_with_fuel(contains_and, 2);
    if let Proposition::Or(a, b) = f {
        lemma_disjunction_has_no_and(*a);
        lemma_disjunction_has_no_and(*b);
    }
}

proof fn lemma_cnf_has_no_and_under_or(f: Proposition)
    requires
        is_cnf(f),
    ensures
        no_and_under_or(f),
    decreases f,
{
    reveal_with_fuel(no_and_under_or, 2);
    match f {
        Proposition::And(a, b) => {
            lemma_cnf_has_no_and_under_or(*a);
            lemma_cnf_has_no_and_under_or(*b);
        },
        Proposition::Or(a, b) => {
            reveal_with_fuel(is_disjunction, 2);
            assert(is_disjunction(*a) && is_disjunction(*b));
            lemma_disjunction_has_no_and(*a);
            lemma_disjunction_has_no_and(*b);
        },
        _ => {},
    }
}

proof fn lemma_distributed(a: Proposition, b: Proposition)
    requires
        is_cnf(a),
        is_cnf(b),
    ensures
        is_cnf(distributed(a, b)),
        atoms(distributed(a, b)) == atoms(a).union(atoms(b)),
        forall|v: spec_fn(Seq<char>) -> bool| #[trigger]
            eval(distributed(a, b), v) == (eval(a, v) || eval(b, v)),
    decreases a, b,
{
    reveal_with_fuel(eval, 2);
    reveal_with_fuel(is_cnf, 2);
    match a {
        Proposition::And(a1, a2) => {
            lemma_distributed(*a1, b);
            lemma_distributed(*a2, b);
            assert(atoms(distributed(a, b)) =~= atoms(a).union(atoms(b)));
            assert forall|v: spec_fn(Seq<char>) -> bool| #[trigger]
                eval(distributed(a, b), v) == (eval(a, v) || eval(b, v)) by {
                assert(eval(distributed(*a1, b), v) == (eval(*a1, v) || eval(b, v)));
                assert(eval(distributed(*a2, b), v) == (eval(*a2, v) || eval(b, v)));
            }
        },
        _ => match b {
            Proposition::And(b1, b2) => {
                lemma_distributed(a, *b1);
                lemma_distributed(a, *b2);
                assert(atoms(distributed(a, b)) =~= atoms(a).union(atoms(b)));
                assert forall|v: spec_fn(Seq<char>) -> bool| #[trigger]
                    eval(distributed(a, b), v) == (eval(a, v) || eval(b, v)) by {
                    assert(eval(distributed(a, *b1), v) == (eval(a, v) || eval(*b1, v)));
                    assert(eval(distributed(a, *b2), v) == (eval(a, v) || eval(*b2, v)));
                }
            },
            _ => {},
        },
    }
}

proof fn lemma_conjunctive_normal(f: Proposition)
    requires
        is_nnf(f),
    ensures
        is_cnf(conjunctive_normal(f)),
        atoms(conjunctive_normal(f)) == atoms(f),
        forall|v: spec_fn(Seq<char>) -> bool| #[trigger]
            eval(conjunctive_normal(f), v) == eval(f, v),
    decreases f,
{
    reveal_with_fuel(is_cnf, 2);
    reveal_with_fuel(is_disjunction, 2);
    match f {
        Proposition::And(a, b) => {
            lemma_conjunctive_normal(*a);
            lemma_conjunctive_normal(*b);
            assert forall|v: spec_fn(Seq<char>) -> bool| #[trigger]
                eval(conjunctive_normal(f), v) == eval(f, v) by {
                assert(eval(conjunctive_normal(*a), v) == eval(*a, v));
                assert(eval(conjunctive_normal(*b), v) == eval(*b, v));
            }
        },
        Proposition::Or(a, b) => {
            lemma_conjunctive_normal(*a);
            lemma_conjunctive_normal(*b);
            lemma_distributed(conjunctive_normal(*a), conjunctive_normal(*b));
            assert forall|v: spec_fn(Seq<char>) -> bool| #[trigger]
                eval(conjunctive_normal(f), v) == eval(f, v) by {
                assert(eval(conjunctive_normal(*a), v) == eval(*a, v));
                assert(eval(conjunctive_normal(*b), v) == eval(*b, v));
            }
        },
        _ => {},
    }
}

proof fn lemma_satisfied_concat(x: Seq<Literal>, y: Seq<Literal>, v: spec_fn(Seq<char>) -> bool)
    ensures
        satisfied(x + y, v) == (satisfied(x, v) || satisfied(y, v)),
{
    if satisfied(x, v) {
        let k = choose|k: int| 0 <= k < x.len() && #[trigger] literal_holds(x[k], v);
        assert(literal_holds((x + y)[k], v));
    }
    if satisfied(y, v) {
        let k = choose|k: int| 0 <= k < y.len() && #[trigger] literal_holds(y[k], v);
        assert(literal_holds((x + y)[x.len() + k], v));
    }
    if satisfied(x + y, v) {
        let k = choose|k: int| 0 <= k < (x + y).len() && #[trigger] literal_holds((x + y)[k], v);
        if k < x.len() {
            assert(literal_holds(x[k], v));
        } else {
            assert(literal_holds(y[k - x.len()], v));
        }
    }
}

proof fn lemma_literals_of(f: Proposition)
    requires
        is_disjunction(f),
    ensures
        literals_of(f).len() > 0,
        forall|k: int| 0 <= k < literals_of(f).len() ==> atoms(f).contains(#[trigger] literals_of(f)[k].0),
        forall|v: spec_fn(Seq<char>) -> bool| #[trigger] eval(f, v) == satisfied(literals_of(f), v),
    decreases f,
{
    reveal_with_fuel(eval, 2);
    reveal_with_fuel(is_disjunction, 2);
    reveal_with_fuel(atoms, 2);
    reveal_with_fuel(literals_of, 2);
    match f {
        Proposition::Or(a, b) => {
            lemma_literals_of(*a);
            lemma_literals_of(*b);
            let la = literals_of(*a);
            let lb = literals_of(*b);
            assert forall|k: int| 0 <= k < literals_of(f).len() implies atoms(f).contains(#[trigger] literals_of(f)[k].0) by {
                if k < la.len() {
                    assert(literals_of(f)[k] == la[k]);
                } else {
                    assert(literals_of(f)[k] == lb[k - la.len()]);
                }
            }
            assert forall|v: spec_fn(Seq<char>) -> bool| #[trigger] eval(f, v) == satisfied(literals_of(f), v) by {
                lemma_satisfied_concat(la, lb, v);
                assert(eval(*a, v) == satisfied(la, v));
                assert(eval(*b, v) == satisfied(lb, v));
            }
        },
        Proposition::Not(a) => {
            assert forall|v: spec_fn(Seq<char>) -> bool| #[trigger] eval(f, v) == satisfied(literals_of(f), v) by {
                assert(eval(*a, v) == v(literals_of(f)[0].0));
                if satisfied(literals_of(f), v) {
                    let k = choose|k: int| 0 <= k < literals_of(f).len() && #[trigger] literal_holds(literals_of(f)[k], v);
                    assert(k == 0);
                }
                if eval(f, v) {
                    assert(literal_holds(literals_of(f)[0], v));
                }
            }
        },
        _ => {
            assert forall|v: spec_fn(Seq<char>) -> bool| #[trigger] eval(f, v) == satisfied(literals_of(f), v) by {
                if satisfied(literals_of(f), v) {
                    let k = choose|k: int| 0 <= k < literals_of(f).len() && #[trigger] literal_holds(literals_of(f)[k], v);
                    assert(k == 0);
                }
                if eval(f, v) {
                    assert(literal_holds(literals_of(f)[0], v));
                }
            }
        },
    }
}

proof fn lemma_conjuncts(f: Proposition)
    requires
        is_cnf(f),
    ensures
        forall|i: int| 0 <= i < conjuncts(f).len() ==> is_disjunction(#[trigger] conjuncts(f)[i]),
        forall|i: int| 0 <= i < conjuncts(f).len() ==> atoms(#[trigger] conjuncts(f)[i]).subset_of(atoms(f)),
        forall|v: spec_fn(Seq<char>) -> bool| #[trigger] eval(f, v) == (forall|i: int|
            0 <= i < conjuncts(f).len() ==> eval(#[trigger] conjuncts(f)[i], v)),
    decreases f,
{
    reveal_with_fuel(eval, 2);
    match f {
        Proposition::And(a, b) => {
            lemma_conjuncts(*a);
            lemma_conjuncts(*b);
            let ca = conjuncts(*a);
            let cb = conjuncts(*b);
            assert forall|i: int| 0 <= i < conjuncts(f).len() implies is_disjunction(#[trigger] conjuncts(f)[i])
                && atoms(conjuncts(f)[i]).subset_of(atoms(f)) by {
                if i < ca.len() {
                    assert(conjuncts(f)[i] == ca[i]);
                } else {
                    assert(conjuncts(f)[i] == cb[i - ca.len()]);
                }
            }
            assert forall|v: spec_fn(Seq<char>) -> bool| #[trigger] eval(f, v) == (forall|i: int|
                0 <= i < conjuncts(f).len() ==> eval(#[trigger] conjuncts(f)[i], v)) by {
                assert(eval(*a, v) == (forall|i: int| 0 <= i < ca.len() ==> eval(#[trigger] ca[i], v)));
                assert(eval(*b, v) == (forall|i: int| 0 <= i < cb.len() ==> eval(#[trigger] cb[i], v)));
                if eval(f, v) {
                    assert forall|i: int| 0 <= i < conjuncts(f).len() implies eval(#[trigger] conjuncts(f)[i], v) by {
                        if i < ca.len() {
                            assert(conjuncts(f)[i] == ca[i]);
                        } else {
                            assert(conjuncts(f)[i] == cb[i - ca.len()]);
                        }
                    }
                }
                if forall|i: int| 0 <= i < conjuncts(f).len() ==> eval(#[trigger] conjuncts(f)[i], v) {
                    assert forall|i: int| 0 <= i < ca.len() implies eval(#[trigger] ca[i], v) by {
                        assert(conjuncts(f)[i] == ca[i]);
                    }
                    assert forall|i: int| 0 <= i < cb.len() implies eval(#[trigger] cb[i], v) by {
                        assert(conjuncts(f)[ca.len() + i] == cb[i]);
                    }
                }
            }
        },
        _ => {
            assert forall|v: spec_fn(Seq<char>) -> bool| #[trigger] eval(f, v) == (forall|i: int|
                0 <= i < conjuncts(f).len() ==> eval(#[trigger] conjuncts(f)[i], v)) by {
                assert(conjuncts(f)[0] == f);
            }
        },
    }
}

/// After stages one and two no `Not` stands above anything but a `Term`;
/// after stage three, moreover, no `Or` has an `And` below it.
pub proof fn pipeline_shapes(f: Proposition)
    ensures
        is_nnf(negation_normal(without_implications(f))),
        is_cnf(conjunctive_normal(negation_normal(without_implications(f)))),
        no_and_under_or(conjunctive_normal(negation_normal(without_implications(f)))),
{
    lemma_without_implications(f);
    lemma_negation_normal(without_implications(f));
    lemma_conjunctive_normal(negation_normal(without_implications(f)));
    lemma_cnf_has_no_and_under_or(conjunctive_normal(negation_normal(without_implications(f))));
}

/// Clausification keeps the meaning of a formula: under every valuation the
/// formula is true exactly when every clause it yields holds a true literal.
/// Every clause is non-empty and names only atoms of the formula.
pub proof fn clausification_is_faithful(f: Proposition)
    ensures
        forall|i: int| 0 <= i < clause_literals(f).len() ==> (#[trigger] clause_literals(f)[i]).len() > 0,
        forall|i: int, k: int| 0 <= i < clause_literals(f).len() && 0 <= k < clause_literals(f)[i].len()
            ==> atoms(f).contains((#[trigger] clause_literals(f)[i][k]).0),
        forall|v: spec_fn(Seq<char>) -> bool| #[trigger] eval(f, v) == (forall|i: int|
            0 <= i < clause_literals(f).len() ==> satisfied(#[trigger] clause_literals(f)[i], v)),
{
    let g = conjunctive_normal(negation_normal(without_implications(f)));
    lemma_without_implications(f);
    lemma_negation_normal(without_implications(f));
    lemma_conjunctive_normal(negation_normal(without_implications(f)));
    lemma_conjuncts(g);
    let cs = conjuncts(g);
    assert forall|i: int| 0 <= i < cs.len() implies clause_literals(f)[i] == literals_of(#[trigger] cs[i])
        && literals_of(cs[i]).len() > 0
        && (forall|k: int| 0 <= k < literals_of(cs[i]).len() ==> atoms(f).contains(#[trigger] literals_of(cs[i])[k].0))
        && (forall|v: spec_fn(Seq<char>) -> bool| #[trigger] eval(cs[i], v) == satisfied(literals_of(cs[i]), v)) by {
        lemma_literals_of(cs[i]);
    }
    assert forall|v: spec_fn(Seq<char>) -> bool| #[trigger] eval(f, v) == (forall|i: int|
        0 <= i < clause_literals(f).len() ==> satisfied(#[trigger] clause_literals(f)[i], v)) by {
        assert(eval(g, v) == eval(f, v));
        if eval(f, v) {
            assert forall|i: int| 0 <= i < clause_literals(f).len() implies satisfied(#[trigger] clause_literals(f)[i], v) by {
                assert(eval(cs[i], v));
            }
        } else {
            let i = choose|i: int| 0 <= i < cs.len() && !eval(#[trigger] cs[i], v);
            assert(!satisfied(clause_literals(f)[i], v));
        }
    }
}

impl Clause {
    /// Converts the given proposition into the corresponding clauses. One
    /// proposition may break down into several clauses.
    pub fn from_proposition(prop: Proposition) -> (r: Vec<Clause>)
        ensures
            r.len() == clause_literals(prop).len(),
            forall|i: int| 0 <= i < r.len() ==> (#[trigger] r[i])@ == clause_literals(prop)[i],
            forall|i: int| 0 <= i < r.len() ==> (#[trigger] r[i])@.len() > 0,
            forall|i: int, k: int| 0 <= i < r.len() && 0 <= k < r[i]@.len()
                ==> atoms(prop).contains((#[trigger] r[i]@[k]).0),
            forall|v: spec_fn(Seq<char>) -> bool| #[trigger] eval(prop, v) == (forall|i: int|
                0 <= i < r.len() ==> satisfied((#[trigger] r[i])@, v)),
    {
        let ghost f = prop;
        let mut all_parts = Self::break_into_clauses(prop);
        let mut r: Vec<Clause> = Vec::new();
        let ghost n = all_parts.len();
        let ghost cl = clause_literals(f);
        while all_parts.len() > 0
            invariant
                n == cl.len(),
                all_parts.len() + r.len() == n,
                forall|i: int| 0 <= i < r.len() ==> (#[trigger] r[i])@ == cl[i],
                forall|i: int| 0 <= i < all_parts.len() ==> literals((#[trigger] all_parts[i])@) == cl[r.len() + i],
            decreases all_parts.len(),
        {
            let parts = all_parts.remove(0);
            r.push(Clause { parts });
        }
        proof {
            clausification_is_faithful(f);
            assert forall|v: spec_fn(Seq<char>) -> bool| #[trigger] eval(f, v) == (forall|i: int|
                0 <= i < r.len() ==> satisfied((#[trigger] r[i])@, v)) by {
                if eval(f, v) {
                    assert forall|i: int| 0 <= i < r.len() implies satisfied((#[trigger] r[i])@, v) by {
                        assert(satisfied(cl[i], v));
                    }
                } else {
                    let i = choose|i: int| 0 <= i < cl.len() && !satisfied(#[trigger] cl[i], v);
                    assert(r[i]@ == cl[i]);
                }
            }
        }
        r
    }

    /// The parts of each clause of the given proposition.
    fn break_into_clauses(prop: Proposition) -> (r: Vec<Vec<ClausePart>>)
        ensures
            r.len() == clause_literals(prop).len(),
            forall|i: int| 0 <= i < r.len() ==> literals((#[trigger] r[i])@) == clause_literals(prop)[i],
    {
        let ghost f = prop;
        let no_implication = Self::eliminate_implication(prop);
        let red_negations = Self::reduce_negation(no_implication);
        let bubbled = Self::bubble_up_ands(red_negations);
        let ghost g = bubbled;
        proof {
            lemma_conjuncts(g);
        }
        let or_not_props = Self::split_on_ands(bubbled);
        let mut r: Vec<Vec<ClausePart>> = Vec::new();
        let mut i: usize = 0;
        while i < or_not_props.len()
            invariant
                or_not_props@ == conjuncts(g),
                g == conjunctive_normal(negation_normal(without_implications(f))),
                is_cnf(g),
                forall|j: int| 0 <= j < conjuncts(g).len() ==> is_disjunction(#[trigger] conjuncts(g)[j]),
                i <= or_not_props.len(),
                r.len() == i,
                forall|j: int| 0 <= j < i ==> literals((#[trigger] r[j])@) == clause_literals(f)[j],
            decreases or_not_props.len() - i,
        {
            assert(is_disjunction(conjuncts(g)[i as int]));
            let parts = Self::from_or_not_prop(&or_not_props[i]);
            r.push(parts);
            i = i + 1;
        }
        r
    }

    /// Rewrites implications and biconditionals with negation, disjunction
    /// and conjunction.
    pub fn eliminate_implication(prop: Proposition) -> (r: Proposition)
        ensures
            r == without_implications(prop),
            implication_free(r),
            implication_free(prop) ==> r == prop,
            atoms(r) == atoms(prop),
            forall|v: spec_fn(Seq<char>) -> bool| #[trigger] eval(r, v) == eval(prop, v),
        decreases prop,
    {
        proof {
            lemma_without_implications(prop);
        }
        match prop {
            Proposition::Implies(a, b) => {
                let a_simpl = Self::eliminate_implication(*a);
                let b_simpl = Self::eliminate_implication(*b);
                or(not(a_simpl), b_simpl)
            },
            Proposition::Iff(a, b) => {
                let a_simpl = Self::eliminate_implication(*a);
                let b_simpl = Self::eliminate_implication(*b);
                let a_copy = copy_proposition(&a_simpl);
                let b_copy = copy_proposition(&b_simpl);
                and(or(not(a_simpl), b_simpl), or(not(b_copy), a_copy))
            },
            Proposition::Or(a, b) => {
                let a_simpl = Self::eliminate_implication(*a);
                let b_simpl = Self::eliminate_implication(*b);
                or(a_simpl, b_simpl)
            },
            Proposition::And(a, b) => {
                let a_simpl = Self::eliminate_implication(*a);
                let b_simpl = Self::eliminate_implication(*b);
                and(a_simpl, b_simpl)
            },
            Proposition::Not(a) => not(Self::eliminate_implication(*a)),
            Proposition::Term(s) => term(s),
        }
    }

    /// Moves the negations inwards as far as they go, by removing double
    /// negations and by De Morgan's laws.
    pub fn reduce_negation(prop: Proposition) -> (r: Proposition)
        requires
            implication_free(prop),
        ensures
            r == negation_normal(prop),
            is_nnf(r),
            atoms(r) == atoms(prop),
            forall|v: spec_fn(Seq<char>) -> bool| #[trigger] eval(r, v) == eval(prop, v),
        decreases prop,
    {
        proof {
            lemma_negation_normal(prop);
        }
        match prop {
            Proposition::Not(a) => Self::reduce_negation_of_not(*a),
            Proposition::Or(a, b) => or(Self::reduce_negation(*a), Self::reduce_negation(*b)),
            Proposition::And(a, b) => and(Self::reduce_negation(*a), Self::reduce_negation(*b)),
            other => other,
        }
    }

    /// `reduce_negation` of the negation of `prop`.
    fn reduce_negation_of_not(prop: Proposition) -> (r: Proposition)
        requires
            implication_free(prop),
        ensures
            r == negation_normal_of_not(prop),
        decreases prop,
    {
        match prop {
            Proposition::Not(b) => Self::reduce_negation(*b),
            Proposition::And(b, c) => or(
                Self::reduce_negation_of_not(*b),
                Self::reduce_negation_of_not(*c),
            ),
            Proposition::Or(b, c) => and(
                Self::reduce_negation_of_not(*b),
                Self::reduce_negation_of_not(*c),
            ),
            other => not(other),
        }
    }

    /// Distributes disjunction over conjunction until the proposition is a
    /// conjunction of disjunctions of literals.
    pub fn bubble_up_ands(prop: Proposition) -> (r: Proposition)
        requires
            is_nnf(prop),
        ensures
            r == conjunctive_normal(prop),
            is_cnf(r),
            no_and_under_or(r),
            atoms(r) == atoms(prop),
            forall|v: spec_fn(Seq<char>) -> bool| #[trigger] eval(r, v) == eval(prop, v),
        decreases prop,
    {
        proof {
            lemma_conjunctive_normal(prop);
            lemma_cnf_has_no_and_under_or(conjunctive_normal(prop));
        }
        match prop {
            Proposition::And(a, b) => and(Self::bubble_up_ands(*a), Self::bubble_up_ands(*b)),
            Proposition::Or(a, b) => {
                let a_bubbled = Self::bubble_up_ands(*a);
                let b_bubbled = Self::bubble_up_ands(*b);
                Self::distribute(a_bubbled, b_bubbled)
            },
            other => other,
        }
    }

    /// The disjunction of two conjunctive normal forms, distributed.
    fn distribute(a: Proposition, b: Proposition) -> (r: Proposition)
        requires
            is_cnf(a),
            is_cnf(b),
        ensures
            r == distributed(a, b),
        decreases a, b,
    {
        match a {
            Proposition::And(a1, a2) => {
                let b_copy = copy_proposition(&b);
                and(Self::distribute(*a1, b), Self::distribute(*a2, b_copy))
            },
            a => match b {
                Proposition::And(b1, b2) => {
                    let a_copy = copy_proposition(&a);
                    and(Self::distribute(a, *b1), Self::distribute(a_copy, *b2))
                },
                b => or(a, b),
            },
        }
    }

    /// Splits the given proposition on its conjunctions.
    fn split_on_ands(prop: Proposition) -> (r: Vec<Proposition>)
        ensures
            r@ == conjuncts(prop),
        decreases prop,
    {
        match prop {
            Proposition::And(a, b) => {
                let mut a_parts = Self::split_on_ands(*a);
                let mut b_parts = Self::split_on_ands(*b);
                a_parts.append(&mut b_parts);
                a_parts
            },
            p => {
                let ghost q = p;
                let mut r: Vec<Proposition> = Vec::new();
                r.push(p);
                assert(r@ =~= seq![q]);
                r
            },
        }
    }

    /// The clause parts of a disjunction of literals.
    fn from_or_not_prop(prop: &Proposition) -> (r: Vec<ClausePart>)
        requires
            is_disjunction(*prop),
        ensures
            literals(r@) == literals_of(*prop),
        decreases prop,
    {
        match prop {
            Proposition::Or(a, b) => {
                let mut a_parts = Self::from_or_not_prop(a);
                let mut b_parts = Self::from_or_not_prop(b);
                let ghost x = a_parts@;
                let ghost y = b_parts@;
                a_parts.append(&mut b_parts);
                assert(literals(a_parts@) =~= literals(x) + literals(y));
                a_parts
            },
            Proposition::Not(inner) => {
                let mut r: Vec<ClausePart> = Vec::new();
                match &**inner {
                    Proposition::Term(a) => r.push(ClausePart::NegatedTerm(a.clone())),
                    _ => {},
                }
                assert(literals(r@) =~= literals_of(*prop));
                r
            },
            Proposition::Term(a) => {
                let mut r: Vec<ClausePart> = Vec::new();
                r.push(ClausePart::Term(a.clone()));
                assert(literals(r@) =~= literals_of(*prop));
                r
            },
            _ => Vec::new(),
        }
    }
}

} // verus!
