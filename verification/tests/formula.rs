use logic_toolkit::formula::Formula;

fn p() -> Formula {
    Formula::var("P")
}

fn q() -> Formula {
    Formula::var("Q")
}

#[test]
fn constructors_build_the_named_variants() {
    assert!(matches!(Formula::var("P"), Formula::Var(ref n) if n == "P"));
    assert!(matches!(Formula::not(p()), Formula::Not(ref f) if **f == p()));
    assert!(matches!(Formula::and(p(), q()), Formula::And(ref l, ref r) if **l == p() && **r == q()));
    assert!(matches!(Formula::or(p(), q()), Formula::Or(ref l, ref r) if **l == p() && **r == q()));
    assert!(matches!(
        Formula::implies(p(), q()),
        Formula::Implies(ref l, ref r) if **l == p() && **r == q()
    ));
}

#[test]
fn equality_is_structural() {
    assert_eq!(Formula::and(p(), q()), Formula::and(p(), q()));
    assert_ne!(Formula::and(p(), q()), Formula::and(q(), p()));
    assert_ne!(Formula::and(p(), q()), Formula::or(p(), q()));
    assert_ne!(Formula::var("P"), Formula::var("p"));
    assert_ne!(Formula::not(p()), p());
    assert_eq!(
        Formula::implies(Formula::not(p()), Formula::or(p(), q())),
        Formula::implies(Formula::not(p()), Formula::or(p(), q()))
    );
}

#[test]
fn clone_gives_an_equal_formula() {
    let f = Formula::implies(Formula::not(p()), Formula::and(p(), Formula::or(q(), p())));
    assert_eq!(f.clone(), f);
}

#[test]
fn literals_are_variables_and_negated_variables() {
    assert!(p().is_literal());
    assert!(Formula::not(p()).is_literal());
    assert!(!Formula::not(Formula::not(p())).is_literal());
    assert!(!Formula::and(p(), q()).is_literal());
    assert!(!Formula::or(p(), q()).is_literal());
    assert!(!Formula::implies(p(), q()).is_literal());
    assert!(!Formula::not(Formula::and(p(), q())).is_literal());
}

#[test]
fn contradiction_is_negation_in_either_direction() {
    let np = Formula::not(p());
    assert!(p().is_contradiction_with(&np));
    assert!(np.is_contradiction_with(&p()));
    assert!(!p().is_contradiction_with(&p()));
    assert!(!p().is_contradiction_with(&q()));
    assert!(!p().is_contradiction_with(&Formula::not(q())));
    assert!(!np.is_contradiction_with(&Formula::not(p())));
}

#[test]
fn contradiction_holds_of_composite_formulas_too() {
    let f = Formula::and(p(), q());
    let nf = Formula::not(f.clone());
    assert!(f.is_contradiction_with(&nf));
    assert!(nf.is_contradiction_with(&f));
}

#[test]
fn contradiction_sees_a_negated_negation() {
    let np = Formula::not(p());
    let nnp = Formula::not(Formula::not(p()));
    assert!(np.is_contradiction_with(&nnp));
    assert!(nnp.is_contradiction_with(&np));
    assert!(!p().is_contradiction_with(&nnp));
}

#[test]
fn rendering_is_infix_with_parentheses() {
    assert_eq!(p().to_string(), "P");
    assert_eq!(Formula::not(p()).to_string(), "\u{ac}P");
    assert_eq!(Formula::and(p(), q()).to_string(), "(P \u{2227} Q)");
    assert_eq!(Formula::or(p(), q()).to_string(), "(P \u{2228} Q)");
    assert_eq!(Formula::implies(p(), q()).to_string(), "(P \u{2192} Q)");
    assert_eq!(
        Formula::implies(Formula::not(Formula::and(p(), q())), Formula::or(Formula::not(p()), q()))
            .to_string(),
        "(\u{ac}(P \u{2227} Q) \u{2192} (\u{ac}P \u{2228} Q))"
    );
}

#[test]
fn rendering_keeps_long_names() {
    assert_eq!(Formula::not(Formula::var("rain2")).to_string(), "\u{ac}rain2");
}
