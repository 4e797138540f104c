use vstd::prelude::*;
use vstd::string::StringExecFns;

verus! {

/// A statement in propositional logic.
#[derive(Debug, PartialEq)]
pub enum Proposition {
    Or(Box<Proposition>, Box<Proposition>),
    And(Box<Proposition>, Box<Proposition>),
    Implies(Box<Proposition>, Box<Proposition>),
    Iff(Box<Proposition>, Box<Proposition>),
    Not(Box<Proposition>),
    Term(String),
}

/// Truth value of `f` when every atom `s` has the value `v(s)`.
pub open spec fn eval(f: Proposition, v: spec_fn(Seq<char>) -> bool) -> bool
    decreases f,
{
    match f {
        Proposition::Or(a, b) => eval(*a, v) || eval(*b, v),
        Proposition::And(a, b) => eval(*a, v) && eval(*b, v),
        Proposition::Implies(a, b) => !eval(*a, v) || eval(*b, v),
        Proposition::Iff(a, b) => eval(*a, v) == eval(*b, v),
        Proposition::Not(a) => !eval(*a, v),
        Proposition::Term(s) => v(s@),
    }
}

/// The names of the atoms that occur in `f`.
pub open spec fn atoms(f: Proposition) -> Set<Seq<char>>
    decreases f,
{
    match f {
        Proposition::Or(a, b) => atoms(*a).union(atoms(*b)),
        Proposition::And(a, b) => atoms(*a).union(atoms(*b)),
        Proposition::Implies(a, b) => atoms(*a).union(atoms(*b)),
        Proposition::Iff(a, b) => atoms(*a).union(atoms(*b)),
        Proposition::Not(a) => atoms(*a),
        Proposition::Term(s) => set![s@],
    }
}

/// `f` holds no `Implies` and no `Iff`.
pub open spec fn implication_free(f: Proposition) -> bool
    decreases f,
{
    match f {
        Proposition::Or(a, b) => implication_free(*a) && implication_free(*b),
        Proposition::And(a, b) => implication_free(*a) && implication_free(*b),
        Proposition::Implies(_, _) => false,
        Proposition::Iff(_, _) => false,
        Proposition::Not(a) => implication_free(*a),
        Proposition::Term(_) => true,
    }
}

/// `f` is a term or the negation of a term.
pub open spec fn is_literal(f: Proposition) -> bool {
    match f {
        Proposition::Term(_) => true,
        Proposition::Not(a) => (*a) is Term,
        _ => false,
    }
}

/// Negation normal form: built from literals by `And` and `Or` alone, so that
/// `Not` stands only directly around a `Term`.
pub open spec fn is_nnf(f: Proposition) -> bool
    decreases f,
{
    match f {
        Proposition::Or(a, b) => is_nnf(*a) && is_nnf(*b),
        Proposition::And(a, b) => is_nnf(*a) && is_nnf(*b),
        _ => is_literal(f),
    }
}

/// `f` holds an `And` node somewhere (itself included).
pub open spec fn contains_and(f: Proposition) -> bool
    decreases f,
{
    match f {
        Proposition::Or(a, b) => contains_and(*a) || contains_and(*b),
        Proposition::And(_, _) => true,
        Proposition::Implies(a, b) => contains_and(*a) || contains_and(*b),
        Proposition::Iff(a, b) => contains_and(*a) || contains_and(*b),
        Proposition::Not(a) => contains_and(*a),
        Proposition::Term(_) => false,
    }
}

/// `f` is a disjunction of literals.
pub open spec fn is_disjunction(f: Proposition) -> bool
    decreases f,
{
    match f {
        Proposition::Or(a, b) => is_disjunction(*a) && is_disjunction(*b),
        _ => is_literal(f),
    }
}

/// Conjunctive normal form: a conjunction of disjunctions of literals.
pub open spec fn is_cnf(f: Proposition) -> bool
    decreases f,
{
    match f {
        Proposition::And(a, b) => is_cnf(*a) && is_cnf(*b),
        _ => is_disjunction(f),
    }
}

/// Every `Or` node of `f` is free of `And` nodes below it.
pub open spec fn no_and_under_or(f: Proposition) -> bool
    decreases f,
{
    match f {
        Proposition::Or(a, b) => !contains_and(*a) && !contains_and(*b),
        Proposition::And(a, b) => no_and_under_or(*a) && no_and_under_or(*b),
        Proposition::Implies(a, b) => no_and_under_or(*a) && no_and_under_or(*b),
        Proposition::Iff(a, b) => no_and_under_or(*a) && no_and_under_or(*b),
        Proposition::Not(a) => no_and_under_or(*a),
        Proposition::Term(_) => true,
    }
}

/// Creates the disjunction of the two given propositions.
pub fn or(a: Proposition, b: Proposition) -> (r: Proposition)
    ensures
        r == Proposition::Or(Box::new(a), Box::new(b)),
{
    Proposition::Or(Box::new(a), Box::new(b))
}

/// Creates the conjunction of the two given propositions.
pub fn and(a: Proposition, b: Proposition) -> (r: Proposition)
    ensures
        r == Proposition::And(Box::new(a), Box::new(b)),
{
    Proposition::And(Box::new(a), Box::new(b))
}

/// Creates the implication with antecedent `a` and consequent `b`.
pub fn implies(a: Proposition, b: Proposition) -> (r: Proposition)
    ensures
        r == Proposition::Implies(Box::new(a), Box::new(b)),
{
    Proposition::Implies(Box::new(a), Box::new(b))
}

/// Creates the biconditional of the two given propositions.
pub fn iff(a: Proposition, b: Proposition) -> (r: Proposition)
    ensures
        r == Proposition::Iff(Box::new(a), Box::new(b)),
{
    Proposition::Iff(Box::new(a), Box::new(b))
}

/// Creates the negation of the given proposition.
pub fn not(prop: Proposition) -> (r: Proposition)
    ensures
        r == Proposition::Not(Box::new(prop)),
{
    Proposition::Not(Box::new(prop))
}

/// Creates a term from the given name.
pub fn term(value: String) -> (r: Proposition)
    ensures
        r == Proposition::Term(value),
{
    Proposition::Term(value)
}

impl Clone for Proposition {
    fn clone(&self) -> Self {
        copy_proposition(self)
    }
}

/// A copy of `p`, node for node.
pub fn copy_proposition(p: &Proposition) -> (r: Proposition)
    ensures
        r == *p,
    decreases p,
{
    match p {
        Proposition::Or(a, b) => or(copy_proposition(a), copy_proposition(b)),
        Proposition::And(a, b) => and(copy_proposition(a), copy_proposition(b)),
        Proposition::Implies(a, b) => implies(copy_proposition(a), copy_proposition(b)),
        Proposition::Iff(a, b) => iff(copy_proposition(a), copy_proposition(b)),
        Proposition::Not(a) => not(copy_proposition(a)),
        Proposition::Term(s) => term(s.clone()),
    }
}

/// The display form of `f`: binary operators infix and unparenthesised,
/// negation as `~(..)`, a term as its name.
pub open spec fn rendered(f: Proposition) -> Seq<char>
    decreases f,
{
    match f {
        Proposition::Or(a, b) => rendered(*a) + " \\/ "@ + rendered(*b),
        Proposition::And(a, b) => rendered(*a) + " /\\ "@ + rendered(*b),
        Proposition::Implies(a, b) => rendered(*a) + " -> "@ + rendered(*b),
        Proposition::Iff(a, b) => rendered(*a) + " <-> "@ + rendered(*b),
        Proposition::Not(a) => "~("@ + rendered(*a) + ")"@,
        Proposition::Term(s) => s@,
    }
}

impl Proposition {
    /// Displays the proposition with ASCII operators: `\/`, `/\`, `->`,
    /// `<->` and `~(..)`.
    pub fn render(&self) -> (r: String)
        ensures
            r@ == rendered(*self),
    {
        let mut out = String::new();
        self.render_into(&mut out);
        out
    }

    fn render_into(&self, out: &mut String)
        ensures
            final(out)@ == old(out)@ + rendered(*self),
        decreases self,
    {
        let ghost start = out@;
        match self {
            Proposition::Or(a, b) => {
                a.render_into(out);
                out.append(" \\/ ");
                b.render_into(out);
            },
            Proposition::And(a, b) => {
                a.render_into(out);
                out.append(" /\\ ");
                b.render_into(out);
            },
            Proposition::Implies(a, b) => {
                a.render_into(out);
                out.append(" -> ");
                b.render_into(out);
            },
            Proposition::Iff(a, b) => {
                a.render_into(out);
                out.append(" <-> ");
                b.render_into(out);
            },
            Proposition::Not(a) => {
                out.append("~(");
                a.render_into(out);
                out.append(")");
            },
            Proposition::Term(s) => {
                out.append(s.as_str());
            },
        }
        proof {
            assert(out@ =~= start + rendered(*self));
        }
    }
}

} // verus!
