use metta_core::atom::{Atom, VariableAtom};
use metta_core::matcher::{apply_bindings_to_atom, match_atoms, Bindings};
use metta_core::space::GroundingSpace;

#[allow(non_snake_case)]
fn S(name: &str) -> Atom {
    Atom::sym(name)
}

#[allow(non_snake_case)]
fn E(children: &[Atom]) -> Atom {
    Atom::expr(children.to_vec())
}

#[allow(non_snake_case)]
fn V(name: &str) -> Atom {
    Atom::var(name)
}

fn bind(pairs: &[(&str, Atom)]) -> Bindings {
    let mut b = Bindings::new();
    for (n, a) in pairs {
        b.insert(VariableAtom::new(n), a.clone());
    }
    b
}

#[test]
fn test_match_symbol() {
    let mut space = GroundingSpace::new();
    space.add(S("foo"));
    assert_eq!(space.query(&S("foo")), vec![bind(&[])]);
}

#[test]
fn test_match_variable() {
    let mut space = GroundingSpace::new();
    space.add(S("foo"));
    assert_eq!(space.query(&V("x")), vec![bind(&[("x", S("foo"))])]);
}

#[test]
fn test_match_expression() {
    let mut space = GroundingSpace::new();
    space.add(E(&[S("+"), S("a"), E(&[S("*"), S("b"), S("c")])]));
    assert_eq!(
        space.query(&E(&[S("+"), S("a"), E(&[S("*"), S("b"), S("c")])])),
        vec![bind(&[])]
    );
}

#[test]
fn test_match_expression_with_variables() {
    let mut space = GroundingSpace::new();
    space.add(E(&[S("+"), S("A"), E(&[S("*"), S("B"), S("C")])]));
    assert_eq!(
        space.query(&E(&[S("+"), V("a"), E(&[S("*"), V("b"), V("c")])])),
        vec![bind(&[("a", S("A")), ("b", S("B")), ("c", S("C"))])]
    );
}

#[test]
fn test_match_different_value_for_variable() {
    let mut space = GroundingSpace::new();
    space.add(E(&[S("+"), S("A"), E(&[S("*"), S("B"), S("C")])]));
    assert_eq!(
        space.query(&E(&[S("+"), V("a"), E(&[S("*"), V("a"), V("c")])])),
        vec![]
    );
}

#[test]
fn test_match_query_variable_has_priority() {
    let mut space = GroundingSpace::new();
    space.add(E(&[S("equals"), V("x"), V("x")]));
    assert_eq!(
        space.query(&E(&[S("equals"), V("y"), V("z")])),
        vec![bind(&[("y", V("x")), ("z", V("x"))])]
    );
}

#[test]
fn test_match_query_variable_via_data_variable() {
    let mut space = GroundingSpace::new();
    space.add(E(&[V("x"), V("x")]));
    assert_eq!(
        space.query(&E(&[V("y"), E(&[V("z")])])),
        vec![bind(&[("y", E(&[V("z")]))])]
    );
}

#[test]
fn space_remove_takes_first_occurrence() {
    let mut space = GroundingSpace::new();
    space.add(S("a"));
    space.add(S("a"));
    assert!(space.remove(&S("a")));
    assert!(space.remove(&S("a")));
    assert!(!space.remove(&S("a")));
    assert_eq!(space.query(&V("x")), vec![]);
}

#[test]
fn match_symmetry_on_ground_atoms() {
    let a = E(&[S("f"), S("A"), E(&[S("g"), S("B")])]);
    let b = E(&[S("f"), S("A"), E(&[S("g"), S("B")])]);
    let c = E(&[S("f"), S("A"), E(&[S("g"), S("C")])]);
    assert_eq!(match_atoms(&a, &b).len(), 1);
    assert_eq!(match_atoms(&b, &a).len(), 1);
    assert_eq!(match_atoms(&a, &c).len(), 0);
    assert_eq!(match_atoms(&c, &a).len(), 0);
}

#[test]
fn binding_closure_on_concrete_match() {
    let p = E(&[S("f"), V("x"), S("A")]);
    let q = E(&[S("f"), S("B"), V("y")]);
    let ms = match_atoms(&p, &q);
    assert_eq!(ms.len(), 1);
    let b = &ms[0];
    assert_eq!(apply_bindings_to_atom(&p, b), apply_bindings_to_atom(&q, b));
}

#[test]
fn merge_needs_agreement() {
    let a = bind(&[("x", S("A"))]);
    let b = bind(&[("x", S("B"))]);
    let c = bind(&[("y", S("B"))]);
    assert!(Bindings::merge(&a, &b).is_none());
    let merged = Bindings::merge(&a, &c).unwrap();
    let mut r = a.clone();
    r.insert(VariableAtom::new("y"), S("B"));
    assert_eq!(merged, r);
}

#[test]
fn alpha_renamed_rules_answer_queries_alike() {
    // the same rule, with its variable under the initial id and under a
    // fresh id
    let x0 = VariableAtom::new("x");
    let x9 = VariableAtom::new("x").make_unique(9);
    let rule = |x: &VariableAtom| {
        E(&[
            S("="),
            E(&[S("dup"), Atom::Variable(x.clone())]),
            E(&[Atom::Variable(x.clone()), Atom::Variable(x.clone())]),
        ])
    };
    let mut s1 = GroundingSpace::new();
    s1.add(rule(&x0));
    let mut s2 = GroundingSpace::new();
    s2.add(rule(&x9));

    // when the rule variable is resolved away, the answers are equal
    let pattern = E(&[S("="), E(&[S("dup"), S("A")]), V("r")]);
    let r1 = s1.query(&pattern);
    let r2 = s2.query(&pattern);
    assert_eq!(r1, vec![bind(&[("r", E(&[S("A"), S("A")]))])]);
    assert_eq!(r1, r2);

    // when it surfaces, the answers agree up to the variable's identity
    let open_pattern = E(&[S("="), E(&[S("dup"), V("y")]), V("r")]);
    let o1 = s1.query(&open_pattern);
    let o2 = s2.query(&open_pattern);
    assert_eq!(o1.len(), 1);
    assert_eq!(o2.len(), 1);
    assert_eq!(o1[0].pairs.len(), o2[0].pairs.len());
    for (p1, p2) in o1[0].pairs.iter().zip(o2[0].pairs.iter()) {
        assert_eq!(p1.0.name, p2.0.name);
        assert_eq!(p1.1.to_text(), p2.1.to_text());
    }
}

#[test]
fn resolve_follows_chains() {
    let mut b = Bindings::new();
    b.insert(VariableAtom::new("y"), V("x"));
    b.insert(VariableAtom::new("x"), S("A"));
    assert_eq!(b.resolve(&VariableAtom::new("y")), Some(S("A")));
    assert_eq!(b.resolve(&VariableAtom::new("z")), None);
}
