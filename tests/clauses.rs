use resolution_prover::propositions;
use resolution_prover::{and, iff, not, or, term, Clause, ClausePart};

fn t(name: &str) -> resolution_prover::Proposition {
    term(name.to_string())
}

#[test]
fn eliminate_implication_implies() {
    let prop = propositions::implies(term("a".to_string()), term("b".to_string()));
    let expected = or(not(term("a".to_string())), term("b".to_string()));
    assert_eq!(Clause::eliminate_implication(prop), expected);
}

#[test]
fn eliminate_implication_iff() {
    let prop = iff(term("a".to_string()), term("b".to_string()));
    let expected = and(
        or(not(term("a".to_string())), term("b".to_string())),
        or(not(term("b".to_string())), term("a".to_string())),
    );
    assert_eq!(Clause::eliminate_implication(prop), expected);
}

#[test]
fn eliminate_implication_and() {
    let prop = and(term("a".to_string()), term("b".to_string()));
    let expected = and(term("a".to_string()), term("b".to_string()));
    assert_eq!(Clause::eliminate_implication(prop), expected);
}

#[test]
fn eliminate_implication_or() {
    let prop = or(term("a".to_string()), term("b".to_string()));
    let expected = or(term("a".to_string()), term("b".to_string()));
    assert_eq!(Clause::eliminate_implication(prop), expected);
}

#[test]
fn eliminate_implication_not() {
    let prop = not(term("b".to_string()));
    let expected = not(term("b".to_string()));
    assert_eq!(Clause::eliminate_implication(prop), expected);
}

#[test]
fn reduce_negation_term() {
    let prop = term("b".to_string());
    let expected = term("b".to_string());
    assert_eq!(Clause::reduce_negation(prop), expected);
}

#[test]
fn reduce_negation_double_negation() {
    let prop = not(not(term("b".to_string())));
    let expected = term("b".to_string());
    assert_eq!(Clause::reduce_negation(prop), expected);
}

#[test]
fn reduce_negation_not_and() {
    let prop = not(and(term("a".to_string()), term("b".to_string())));
    let expected = or(not(term("a".to_string())), not(term("b".to_string())));
    assert_eq!(Clause::reduce_negation(prop), expected);
}

#[test]
fn reduce_negation_not_or() {
    let prop = not(or(term("a".to_string()), term("b".to_string())));
    let expected = and(not(term("a".to_string())), not(term("b".to_string())));
    assert_eq!(Clause::reduce_negation(prop), expected);
}

#[test]
fn reduce_negation_nested_not_or_double_negation() {
    let prop = not(or(term("a".to_string()), not(not(term("b".to_string())))));
    let expected = and(not(term("a".to_string())), not(term("b".to_string())));
    assert_eq!(Clause::reduce_negation(prop), expected);
}

#[test]
fn reduce_negation_nested_not_or_or() {
    let prop = not(or(
        term("a".to_string()),
        or(term("b".to_string()), not(term("c".to_string()))),
    ));
    let expected = and(
        not(term("a".to_string())),
        and(not(term("b".to_string())), term("c".to_string())),
    );
    assert_eq!(Clause::reduce_negation(prop), expected);
}

#[test]
fn reduce_negation_nested_and_not_and() {
    let prop = and(
        not(and(term("a".to_string()), term("b".to_string()))),
        term("c".to_string()),
    );
    let expected = and(
        or(not(term("a".to_string())), not(term("b".to_string()))),
        term("c".to_string()),
    );
    assert_eq!(Clause::reduce_negation(prop), expected);
}

#[test]
fn reduce_negation_nested_or_not_and() {
    let prop = or(
        not(and(term("a".to_string()), term("b".to_string()))),
        term("c".to_string()),
    );
    let expected = or(
        or(not(term("a".to_string())), not(term("b".to_string()))),
        term("c".to_string()),
    );
    assert_eq!(Clause::reduce_negation(prop), expected);
}

#[test]
fn bubble_up_ands_term() {
    let prop = term("a".to_string());
    let expected = term("a".to_string());
    assert_eq!(Clause::bubble_up_ands(prop), expected);
}

#[test]
fn bubble_up_ands_or() {
    let prop = or(term("a".to_string()), term("b".to_string()));
    let expected = or(term("a".to_string()), term("b".to_string()));
    assert_eq!(Clause::bubble_up_ands(prop), expected);
}

#[test]
fn bubble_up_ands_or_and_left() {
    let prop = or(
        and(term("a".to_string()), term("b".to_string())),
        term("c".to_string()),
    );
    let expected = and(
        or(term("a".to_string()), term("c".to_string())),
        or(term("b".to_string()), term("c".to_string())),
    );
    assert_eq!(Clause::bubble_up_ands(prop), expected);
}

#[test]
fn bubble_up_ands_or_and_right() {
    let prop = or(
        term("a".to_string()),
        and(term("b".to_string()), term("c".to_string())),
    );
    let expected = and(
        or(term("a".to_string()), term("b".to_string())),
        or(term("a".to_string()), term("c".to_string())),
    );
    assert_eq!(Clause::bubble_up_ands(prop), expected);
}

#[test]
fn bubble_up_ands_not() {
    let prop = not(term("a".to_string()));
    let expected = not(term("a".to_string()));
    assert_eq!(Clause::bubble_up_ands(prop), expected);
}

fn pos(name: &str) -> ClausePart {
    ClausePart::Term(name.to_string())
}

fn neg(name: &str) -> ClausePart {
    ClausePart::NegatedTerm(name.to_string())
}

#[test]
fn negate_twice_gives_the_part_back() {
    let p = pos("p");
    let once = p.negate();
    assert_eq!(once, neg("p"));
    assert_eq!(once.negate(), p);
    let q = neg("q");
    assert_eq!(q.negate(), pos("q"));
    assert_eq!(q.negate().negate(), q);
}

#[test]
fn clause_parts_compare_by_name_and_polarity() {
    assert!(pos("a") == pos("a"));
    assert!(pos("a") != neg("a"));
    assert!(pos("a") != pos("b"));
}

#[test]
fn eliminate_implication_keeps_implication_free_formulas() {
    let make = || and(or(t("a"), not(t("b"))), not(and(t("c"), t("a"))));
    assert_eq!(Clause::eliminate_implication(make()), make());
}

#[test]
fn eliminate_implication_rewrites_nested_implications() {
    let prop = not(propositions::implies(t("a"), iff(t("b"), t("c"))));
    let expected = not(or(
        not(t("a")),
        and(or(not(t("b")), t("c")), or(not(t("c")), t("b"))),
    ));
    assert_eq!(Clause::eliminate_implication(prop), expected);
}

#[test]
fn reduce_negation_leaves_negation_on_terms_only() {
    let prop = not(and(t("a"), or(t("b"), not(t("c")))));
    let expected = or(not(t("a")), and(not(t("b")), t("c")));
    assert_eq!(Clause::reduce_negation(prop), expected);
}

#[test]
fn bubble_up_ands_distributes_until_no_and_under_or() {
    let prop = or(and(t("a"), t("b")), and(t("c"), t("d")));
    let expected = and(
        and(or(t("a"), t("c")), or(t("a"), t("d"))),
        and(or(t("b"), t("c")), or(t("b"), t("d"))),
    );
    assert_eq!(Clause::bubble_up_ands(prop), expected);
}

#[test]
fn from_proposition_single_term() {
    let expected = vec![Clause { parts: vec![pos("hello")] }];
    assert_eq!(Clause::from_proposition(t("hello")), expected);
}

#[test]
fn from_proposition_normalises_negations() {
    let prop = not(or(t("a"), or(t("b"), not(t("c")))));
    let expected = vec![
        Clause { parts: vec![neg("a")] },
        Clause { parts: vec![neg("b")] },
        Clause { parts: vec![pos("c")] },
    ];
    assert_eq!(Clause::from_proposition(prop), expected);
}

#[test]
fn from_proposition_distributes() {
    let prop = or(and(t("a"), t("b")), t("c"));
    let expected = vec![
        Clause { parts: vec![pos("a"), pos("c")] },
        Clause { parts: vec![pos("b"), pos("c")] },
    ];
    assert_eq!(Clause::from_proposition(prop), expected);
}

#[test]
fn from_proposition_nested_distribution_gives_four_clauses() {
    let prop = or(and(t("a"), t("b")), and(t("c"), t("d")));
    let expected = vec![
        Clause { parts: vec![pos("a"), pos("c")] },
        Clause { parts: vec![pos("a"), pos("d")] },
        Clause { parts: vec![pos("b"), pos("c")] },
        Clause { parts: vec![pos("b"), pos("d")] },
    ];
    assert_eq!(Clause::from_proposition(prop), expected);
}

#[test]
fn from_proposition_clauses_are_non_empty_and_use_input_atoms() {
    let prop = iff(propositions::implies(t("p"), t("q")), not(and(t("r"), t("p"))));
    let clauses = Clause::from_proposition(prop);
    assert!(!clauses.is_empty());
    for c in &clauses {
        assert!(!c.parts.is_empty());
        for p in &c.parts {
            let name = match p {
                ClausePart::Term(s) => s.as_str(),
                ClausePart::NegatedTerm(s) => s.as_str(),
            };
            assert!(name == "p" || name == "q" || name == "r");
        }
    }
}

#[test]
fn from_proposition_keeps_tautological_clauses() {
    let prop = or(t("a"), not(t("a")));
    let expected = vec![Clause { parts: vec![pos("a"), neg("a")] }];
    assert_eq!(Clause::from_proposition(prop), expected);
}
