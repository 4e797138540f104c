use resolution_prover::propositions;
use resolution_prover::resolution::combine;
use resolution_prover::{and, iff, not, or, resolve, term, Clause, ClausePart, Proposition};

fn t(name: &str) -> Proposition {
    term(name.to_string())
}

#[test]
fn resolve_trivial_false() {
    let assumptions = vec![term("a".to_string())];
    let goal = not(term("a".to_string()));
    assert_eq!(resolve(assumptions, goal), false);
}

#[test]
fn resolve_trivial_true() {
    let assumptions = vec![term("a".to_string())];
    let goal = term("a".to_string());
    assert_eq!(resolve(assumptions, goal), true);
}

#[test]
fn resolve_simple_true() {
    let assumptions = vec![
        term("p".to_string()),
        propositions::implies(
            and(term("p".to_string()), term("q".to_string())),
            term("r".to_string()),
        ),
        propositions::implies(
            or(term("s".to_string()), term("t".to_string())),
            term("q".to_string()),
        ),
        term("t".to_string()),
    ];
    let goal = term("r".to_string());
    assert_eq!(resolve(assumptions, goal), true);
}

#[test]
fn resolve_simple_false() {
    let assumptions = vec![
        term("p".to_string()),
        propositions::implies(
            and(term("p".to_string()), term("q".to_string())),
            term("r".to_string()),
        ),
        propositions::implies(
            or(term("s".to_string()), term("t".to_string())),
            term("q".to_string()),
        ),
    ];
    let goal = term("r".to_string());
    assert_eq!(resolve(assumptions, goal), false);
}

#[test]
fn resolve_taut_or_not() {
    let assumptions = vec![];
    let goal = or(term("p".to_string()), not(term("p".to_string())));
    assert_eq!(resolve(assumptions, goal), true);
}

#[test]
fn resolve_does_not_prove_a_conjunction_from_a_disjunction() {
    assert_eq!(resolve(vec![or(t("a"), t("b"))], and(t("a"), t("b"))), false);
}

#[test]
fn resolve_does_not_prove_an_unrelated_atom() {
    assert_eq!(resolve(vec![], t("a")), false);
    assert_eq!(resolve(vec![t("a")], t("b")), false);
}

#[test]
fn resolve_uses_biconditionals() {
    assert_eq!(resolve(vec![iff(t("p"), t("q")), t("p")], t("q")), true);
    assert_eq!(resolve(vec![iff(t("p"), t("q")), not(t("q"))], not(t("p"))), true);
    assert_eq!(resolve(vec![iff(t("p"), t("q"))], t("q")), false);
}

#[test]
fn resolve_chains_implications() {
    let assumptions = vec![
        propositions::implies(t("a"), t("b")),
        propositions::implies(t("b"), t("c")),
        t("a"),
    ];
    assert_eq!(resolve(assumptions, t("c")), true);
}

fn pos(name: &str) -> ClausePart {
    ClausePart::Term(name.to_string())
}

fn neg(name: &str) -> ClausePart {
    ClausePart::NegatedTerm(name.to_string())
}

fn sorted_names(c: &Clause) -> Vec<(bool, String)> {
    let mut v: Vec<(bool, String)> = c
        .parts
        .iter()
        .map(|p| match p {
            ClausePart::Term(s) => (false, s.clone()),
            ClausePart::NegatedTerm(s) => (true, s.clone()),
        })
        .collect();
    v.sort();
    v
}

#[test]
fn combine_of_a_literal_and_its_negation_is_empty() {
    let a = Clause { parts: vec![pos("p")] };
    let b = Clause { parts: vec![neg("p")] };
    assert!(combine(&a, &b, &pos("p")).parts.is_empty());
    assert!(combine(&b, &a, &neg("p")).parts.is_empty());
}

#[test]
fn combine_is_symmetric_up_to_order() {
    let a = Clause { parts: vec![pos("p"), pos("q"), neg("r")] };
    let b = Clause { parts: vec![neg("p"), pos("s"), pos("q")] };
    let ab = combine(&a, &b, &pos("p"));
    let ba = combine(&b, &a, &neg("p"));
    assert_eq!(sorted_names(&ab), sorted_names(&ba));
    assert_eq!(
        sorted_names(&ab),
        vec![
            (false, "q".to_string()),
            (false, "s".to_string()),
            (true, "r".to_string())
        ]
    );
}

#[test]
fn combine_removes_one_complementary_pair() {
    let a = Clause { parts: vec![pos("a"), pos("b")] };
    let b = Clause { parts: vec![neg("a"), neg("b")] };
    let r = combine(&a, &b, &pos("a"));
    assert_eq!(r, Clause { parts: vec![pos("b"), neg("b")] });
}

#[test]
fn render_uses_the_display_grammar() {
    assert_eq!(or(t("p"), t("q")).render(), "p \\/ q");
    assert_eq!(and(t("p"), t("q")).render(), "p /\\ q");
    assert_eq!(propositions::implies(t("p"), t("q")).render(), "p -> q");
    assert_eq!(iff(t("p"), t("q")).render(), "p <-> q");
    assert_eq!(not(t("p")).render(), "~(p)");
    assert_eq!(t("p").render(), "p");
    assert_eq!(and(t("hello"), not(t("hi"))).render(), "hello /\\ ~(hi)");
}

#[test]
fn combine_lists_parts_in_order_of_first_occurrence() {
    let a = Clause { parts: vec![pos("p"), pos("q"), neg("r"), pos("q")] };
    let b = Clause { parts: vec![neg("p"), pos("s"), pos("q"), pos("s")] };
    let r = combine(&a, &b, &pos("p"));
    assert_eq!(r, Clause { parts: vec![pos("q"), neg("r"), pos("s")] });
}

#[test]
fn resolve_handles_repeated_literals() {
    assert_eq!(resolve(vec![or(t("a"), t("a"))], t("a")), true);
    assert_eq!(resolve(vec![or(t("a"), t("a"))], t("b")), false);
    assert_eq!(resolve(vec![or(t("a"), t("b")), not(t("b"))], or(t("a"), t("a"))), true);
}
