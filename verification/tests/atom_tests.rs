use metta_core::atom::{Atom, GroundedValue, VariableAtom};

#[allow(non_snake_case)]
fn S(name: &str) -> Atom {
    Atom::sym(name)
}

#[allow(non_snake_case)]
fn E(children: &[Atom]) -> Atom {
    Atom::expr(children.to_vec())
}

#[allow(non_snake_case)]
fn V(name: &str) -> Atom {
    Atom::var(name)
}

#[test]
fn test_expr_symbol() {
    assert_eq!(Atom::sym("="), S("="));
    assert_eq!(Atom::sym("1"), S("1"));
    assert_eq!(Atom::sym("*"), S("*"));
    assert_eq!(Atom::sym("foo"), S("foo"));
}

#[test]
fn test_expr_variable() {
    assert_eq!(Atom::var("n"), V("n"));
    assert_eq!(Atom::var("self"), V("self"));
}

#[test]
fn test_expr_expression() {
    assert_eq!(
        Atom::expr(vec![
            Atom::sym("="),
            Atom::expr(vec![Atom::sym("fact"), Atom::var("n")]),
            Atom::expr(vec![
                Atom::sym("*"),
                Atom::var("n"),
                Atom::expr(vec![Atom::sym("-"), Atom::var("n"), Atom::sym("1")])
            ]),
        ]),
        E(&[
            S("="),
            E(&[S("fact"), V("n")]),
            E(&[S("*"), V("n"), E(&[S("-"), V("n"), S("1")])])
        ])
    );
}

#[test]
fn test_grounded() {
    assert_eq!(Atom::value(3), Atom::Grounded(GroundedValue::Int(3)));
}

#[test]
fn test_display_symbol() {
    assert_eq!(Atom::sym("test").to_text(), "test");
}

#[test]
fn test_display_variable() {
    assert_eq!(Atom::var("x").to_text(), "$x");
}

#[test]
fn test_display_expression() {
    assert_eq!(
        E(&[
            S("="),
            E(&[S("fact"), V("n")]),
            E(&[S("*"), V("n"), E(&[S("-"), V("n"), S("1")])])
        ])
        .to_text(),
        "(= (fact $n) (* $n (- $n 1)))"
    );
    assert_eq!(E(&[]).to_text(), "()");
}

#[test]
fn test_display_grounded() {
    assert_eq!(Atom::value(42).to_text(), "42");
}

#[test]
fn test_subexpression_iterator() {
    let expr = E(&[
        S("+"),
        E(&[S("*"), S("3"), E(&[S("+"), S("1"), V("n")])]),
        E(&[S("-"), S("4"), S("3")]),
    ]);

    let subs = expr.as_expr().unwrap().sub_expressions();

    assert_eq!(
        subs,
        vec![
            E(&[S("+"), S("1"), V("n")]),
            E(&[S("*"), S("3"), E(&[S("+"), S("1"), V("n")])]),
            E(&[S("-"), S("4"), S("3")]),
            E(&[
                S("+"),
                E(&[S("*"), S("3"), E(&[S("+"), S("1"), V("n")])]),
                E(&[S("-"), S("4"), S("3")]),
            ]),
        ]
    );
}

#[test]
fn test_subexpression_iterator_two_sub_expr() {
    let expr = E(&[S("*"), E(&[S("+"), S("3"), S("4")]), E(&[S("-"), S("5"), S("2")])]);

    let subs = expr.as_expr().unwrap().sub_expressions();

    assert_eq!(
        subs,
        vec![
            E(&[S("+"), S("3"), S("4")]),
            E(&[S("-"), S("5"), S("2")]),
            E(&[S("*"), E(&[S("+"), S("3"), S("4")]), E(&[S("-"), S("5"), S("2")])]),
        ]
    );
}

#[test]
fn display_negative_grounded_value() {
    assert_eq!(Atom::value(-5).to_text(), "-5");
    assert_eq!(Atom::value(0).to_text(), "0");
    assert_eq!(Atom::value(i64::MIN).to_text(), "-9223372036854775808");
}

#[test]
fn variable_equality_needs_name_and_id() {
    let a = VariableAtom::new("x");
    let b = a.make_unique(7);
    assert_eq!(b.name, "x");
    assert_ne!(Atom::Variable(a), Atom::Variable(b));
}
