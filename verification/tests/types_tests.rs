use metta_core::atom::Atom;
use metta_core::runner::{metta_atom, metta_space};
use metta_core::space::GroundingSpace;
use metta_core::types::{
    atom_type_atom, atom_type_expression, atom_type_symbol, atom_type_undefined, check_type,
    get_atom_types, get_reducted_types, validate_atom,
};

#[allow(non_snake_case)]
fn S(name: &str) -> Atom {
    Atom::sym(name)
}

#[allow(non_snake_case)]
fn E(children: &[Atom]) -> Atom {
    Atom::expr(children.to_vec())
}

#[allow(non_snake_case)]
fn V(name: &str) -> Atom {
    Atom::var(name)
}

fn atom(text: &str) -> Atom {
    metta_atom(text).unwrap()
}

fn grammar_space() -> GroundingSpace {
    metta_space(
        "
        (: answer (-> Sent Sent))
        (:< Quest Sent)
        (:< (Aux Subj Verb Obj) Quest)
        (:< Pron Subj)
        (:< NG Subj)
        (:< Pron Obj)
        (:< NG Obj)
        (:< (Det Noun) NG)
        (: you Pron)
        (: do Aux)
        (: do Verb)
        (: like Verb)
        (: a Det)
        (: pizza Noun)
    ",
    )
}

#[test]
fn is_func_recognizes_arrow_heads() {
    assert!(metta_core::types::is_func(&atom("(-> A B)")));
    assert!(!metta_core::types::is_func(&atom("A")));
    assert!(!metta_core::types::is_func(&atom("(A B)")));
}

#[test]
fn get_arg_types_splits_function_types() {
    let (args, ret) = metta_core::types::get_arg_types(&atom("(-> A B C)"));
    assert_eq!(args, vec![S("A"), S("B")]);
    assert_eq!(ret, S("C"));
}

#[test]
fn test_check_type() {
    let space = metta_space(
        "
        (: do Verb)
        (: do Aux)
    ",
    );

    let aux = S("Aux");
    let verb = S("Verb");

    let nonsense = S("nonsense");
    assert!(check_type(&space, &nonsense, &atom_type_undefined()));
    assert!(check_type(&space, &nonsense, &aux));

    let _do = S("do");
    assert!(check_type(&space, &_do, &atom_type_undefined()));
    assert!(check_type(&space, &_do, &aux));
    assert!(check_type(&space, &_do, &verb));
    assert!(!check_type(&space, &_do, &S("Noun")));
}

#[test]
fn test_check_expr_type() {
    let space = metta_space(
        "
        (: i Pron)
        (: like Verb)
        (: music Noun)
        (: (do you like music) Quest)
        (:< (Pron Verb Noun) Statement)
    ",
    );

    let i_like_music = E(&[S("i"), S("like"), S("music")]);
    assert!(check_type(&space, &i_like_music, &atom_type_undefined()));
    assert!(check_type(&space, &i_like_music, &E(&[S("Pron"), S("Verb"), S("Noun")])));
    assert!(check_type(&space, &i_like_music, &S("Statement")));

    assert!(check_type(
        &space,
        &E(&[S("do"), S("you"), S("like"), S("music")]),
        &S("Quest")
    ));
}

#[test]
fn nested_type() {
    let space = metta_space(
        "
        (: a A)
        (:< A B)
        (:< B C)
        (:< C D)
    ",
    );

    assert!(check_type(&space, &atom("a"), &atom("D")));
}

#[test]
fn nested_loop_type() {
    let space = metta_space(
        "
        (:< B A)
        (: a A)
        (:< A B)
        (:< B C)
    ",
    );

    assert!(check_type(&space, &atom("a"), &atom("C")));
}

#[test]
fn test_validate_atom() {
    let space = grammar_space();
    let expr = E(&[
        S("answer"),
        E(&[S("do"), S("you"), S("like"), E(&[S("a"), S("pizza")])]),
    ]);

    assert!(validate_atom(&space, &expr));
}

#[test]
fn validate_symbol() {
    let space = GroundingSpace::new();
    assert!(validate_atom(&space, &S("a")));
}

#[test]
fn simple_types() {
    let space = metta_space(
        "
        (: blue Color)
        (: balloon Object)
    ",
    );

    assert!(check_type(&space, &atom("(blue balloon)"), &atom("(Color Object)")));
}

#[test]
fn arrow_type() {
    let space = metta_space("(: a (-> B A))");

    assert!(check_type(&space, &atom("a"), &atom("(-> B A)")));
}

#[test]
fn arrow_allows_specific_type() {
    let space = metta_space(
        "
        (: a (-> B A))
        (: b B)
        (: c C)
    ",
    );

    assert!(validate_atom(&space, &atom("(a b)")));
    assert!(check_type(&space, &atom("(a b)"), &atom_type_undefined()));
    assert!(!validate_atom(&space, &atom("(a c)")));
    assert!(!check_type(&space, &atom("(a c)"), &atom_type_undefined()));
}

#[test]
fn validate_basic_expr() {
    let space = GroundingSpace::new();
    assert!(validate_atom(&space, &Atom::value(5)));
    assert!(validate_atom(&space, &E(&[S("+"), Atom::value(3), Atom::value(5)])));
    assert!(validate_atom(&space, &E(&[S("="), E(&[S("f"), V("x")]), V("x")])));
}

#[test]
fn simple_dep_types() {
    let space = metta_space(
        "
        (: = (-> $t $t Prop))
        (: Entity Prop)
        (: Human (-> Entity Prop))
        (: Socrates Entity)
        (: (Human Socrates) Prop)
        (: Plato Entity)
        (: Mortal (-> Entity Prop))
        (: HumansAreMortal (-> (Human $t) (Mortal $t)))
        (: Time NotEntity)
        (: SocratesIsHuman (Human Socrates))
        (: SocratesIsMortal (Mortal Socrates))
    ",
    );
    let t = &atom("Prop");
    assert!(check_type(&space, &atom("(Human Socrates)"), t));
    assert!(check_type(&space, &atom("(Human Plato)"), t));
    assert!(!check_type(&space, &atom("(Human Time)"), t));
    assert!(!validate_atom(&space, &atom("(Human Time)")));
    assert!(!check_type(&space, &atom("(Human Time)"), &atom("((-> Entity Prop) NotEntity)")));
    assert!(check_type(&space, &atom("(= Socrates Socrates)"), t));
    assert!(check_type(&space, &atom("(= Socrates Plato)"), t));
    assert!(check_type(&space, &atom("(= Socrates Untyped)"), t));
    assert!(!check_type(&space, &atom("(= Socrates Time)"), t));

    assert!(validate_atom(&space, &atom("(HumansAreMortal SocratesIsHuman)")));
    assert!(!validate_atom(&space, &atom("(HumansAreMortal (Human Socrates))")));
    assert!(!validate_atom(&space, &atom("(HumansAreMortal (Human Plato))")));
    assert!(!validate_atom(&space, &atom("(HumansAreMortal (Human Time))")));
    assert!(!validate_atom(&space, &atom("(HumansAreMortal Human)")));
    assert!(!check_type(
        &space,
        &atom("(HumansAreMortal (Human Socrates))"),
        &atom("(Mortal Socrates)")
    ));
    assert!(check_type(
        &space,
        &atom("(HumansAreMortal SocratesIsHuman)"),
        &atom("(Mortal Socrates)")
    ));

    assert!(!validate_atom(&space, &atom("(= SocratesIsHuman (Human Socrates))")));
    assert!(!validate_atom(&space, &atom("(= SocratesIsHuman (Human Plato))")));
    assert!(!check_type(&space, &atom("(= SocratesIsHuman (Human Socrates))"), t));
    assert!(!validate_atom(&space, &atom("(= SocratesIsHuman (Human Time))")));
    assert!(validate_atom(
        &space,
        &atom("(= SocratesIsMortal (HumansAreMortal SocratesIsHuman))")
    ));
    assert!(validate_atom(&space, &atom("(= (Mortal Socrates) (Mortal Plato))")));
}

#[test]
fn dep_types_prop() {
    let space = metta_space(
        "
        (: Sam Entity)
        (: Frog (-> Entity Prop))
        (: Green (-> Entity Prop))
        (: Croaks (-> Entity Prop))
        (: GreenAndCroaksIsFrog (-> (Green $t) (Croaks $t) (Frog $t)))
        (: SamIsGreen (Green Sam))
        (: SamCroaks (Croaks Sam))
    ",
    );
    assert!(validate_atom(&space, &atom("(GreenAndCroaksIsFrog SamIsGreen SamCroaks)")));
    assert!(check_type(
        &space,
        &atom("(GreenAndCroaksIsFrog SamIsGreen SamCroaks)"),
        &atom("(Frog Sam)")
    ));
}

#[test]
fn arrow_allows_undefined_type() {
    let space = metta_space("(: a (-> B A))");

    assert!(validate_atom(&space, &atom("(a b)")));
}

#[test]
fn arrow_has_type_of_returned_value() {
    let space = metta_space(
        "
        (: a (-> B A))
        (: b B)
    ",
    );

    assert!(check_type(&space, &atom("(a b)"), &atom("A")));
}

#[test]
fn nested_arrow_type() {
    let space = metta_space(
        "
        (: a (-> B A))
        (: h (-> (-> B A) C))
    ",
    );

    assert!(validate_atom(&space, &atom("(h a)")));
}

#[test]
fn nested_return_type() {
    let space = metta_space(
        "
        (: a (-> B A))
        (: b B)
        (: h (-> A C))
    ",
    );

    assert!(validate_atom(&space, &atom("(h (a b))")));
}

#[test]
fn validate_non_functional_expression() {
    let space = metta_space(
        "
        (: a A)
        (: b B)
    ",
    );

    assert!(validate_atom(&space, &atom("(a b)")));
}

#[test]
fn check_type_non_functional_expression() {
    let space = metta_space(
        "
        (: a (-> C D))
        (: a A)
        (: b B)
    ",
    );

    assert!(check_type(&space, &atom("(a b)"), &atom("(A B)")));
}

#[test]
fn get_reducted_types_undefined_expression_type() {
    let space = metta_space("(: a A)");
    assert_eq!(get_reducted_types(&space, &atom("(a b)")), vec![atom("(A %Undefined%)")]);

    let space = metta_space("");
    assert_eq!(get_reducted_types(&space, &atom("(a b)")), vec![atom_type_undefined()]);

    let space = metta_space(
        "
        (: a (-> C D))
        (: b B)
    ",
    );
    assert_eq!(get_reducted_types(&space, &atom("(a b)")), vec![]);
}

#[test]
fn get_reducted_types_function_call() {
    let space = metta_space(
        "
        (: a (-> B C))
        (: b B)
    ",
    );
    assert_eq!(get_reducted_types(&space, &atom("(a b)")), vec![atom("C")]);
}

#[test]
fn get_reducted_types_tuple() {
    let space = metta_space(
        "
        (: a A)
        (: b B)
    ",
    );
    assert_eq!(get_reducted_types(&space, &atom("(a b)")), vec![atom("(A B)")]);
}

#[test]
fn get_reducted_types_function_call_and_tuple() {
    let space = metta_space(
        "
        (: a (-> B C))
        (: a A)
        (: b B)
    ",
    );
    assert_eq!(get_reducted_types(&space, &atom("(a b)")), vec![atom("(A B)"), atom("C")]);
}

#[test]
fn get_reducted_types_grounded_atom() {
    let space = GroundingSpace::new();
    assert_eq!(get_reducted_types(&space, &Atom::value(3)), vec![atom("i32")]);
}

#[test]
fn get_reducted_types_empty_expression() {
    let space = GroundingSpace::new();
    assert_eq!(get_reducted_types(&space, &E(&[])), vec![atom_type_undefined()]);
}

#[test]
fn get_atom_types_empty_expression_type() {
    let space = metta_space(
        "
        (: a (-> C D))
        (: b B)
    ",
    );
    assert_eq!(get_atom_types(&space, &atom("(a b)")), vec![]);
}

#[test]
fn check_type_parameterized_type_no_variable_bindings() {
    let space = metta_space(
        "
        (: Pair (-> $a $b Type))
        (: A (Pair $c $d))
    ",
    );

    assert!(check_type(&space, &atom("A"), &atom("(Pair $e $f)")));
    assert!(check_type(&space, &atom("A"), &atom("(Pair $f $f)")));
}

#[test]
fn check_type_dependent_type_symbol_param() {
    let space = metta_space(
        "
        (: === (-> $a $a Type))
        (: Refl (-> $x (=== $x $x)))

        (: TermSym A)
    ",
    );

    assert!(check_type(&space, &atom("(Refl TermSym)"), &atom("(=== A A)")));
    assert!(!check_type(&space, &atom("(Refl TermSym)"), &atom("(=== A B)")));
    assert!(!check_type(&space, &atom("(Refl TermSym)"), &atom("(=== 42 A)")));
    assert!(!check_type(&space, &atom("(Refl TermSym)"), &atom("(=== A 42)")));
    assert!(check_type(&space, &atom("(Refl TermSym)"), &atom("(=== $a A)")));
    assert!(check_type(&space, &atom("(Refl TermSym)"), &atom("(=== A $a)")));
    assert!(check_type(&space, &atom("(Refl TermSym)"), &atom("(=== $a $a)")));
    assert!(check_type(&space, &atom("(Refl TermSym)"), &atom("(=== $a $b)")));
}

#[test]
fn check_type_dependent_type_grounded_param() {
    let space = metta_space(
        "
        (: === (-> $a $a Type))
        (: Refl (-> $x (=== $x $x)))

        (: TermGnd 42)
    ",
    );

    assert!(check_type(&space, &atom("(Refl TermGnd)"), &atom("(=== 42 42)")));
    assert!(!check_type(&space, &atom("(Refl TermGnd)"), &atom("(=== 42 24)")));
    assert!(!check_type(&space, &atom("(Refl TermGnd)"), &atom("(=== 42 A)")));
    assert!(!check_type(&space, &atom("(Refl TermGnd)"), &atom("(=== A 42)")));
    assert!(check_type(&space, &atom("(Refl TermGnd)"), &atom("(=== $a 42)")));
    assert!(check_type(&space, &atom("(Refl TermGnd)"), &atom("(=== 42 $a)")));
    assert!(check_type(&space, &atom("(Refl TermGnd)"), &atom("(=== $a $a)")));
    assert!(check_type(&space, &atom("(Refl TermGnd)"), &atom("(=== $a $b)")));
}

#[test]
fn check_type_accept_meta_type() {
    let type_r = &atom("R");
    let space = metta_space(
        "
        (: R Type)
        (: A Type)
        (: B Type)
        (: a A)
        (: b B)

        (: aF (-> A R))
        (: atomF (-> Atom R))
        (: exprF (-> Expression R))
        (: gndF (-> Grounded R))
        (: symF (-> Symbol R))
        (: varF (-> Variable R))
    ",
    );

    assert!(check_type(&space, &atom("(aF a)"), type_r));
    assert!(!check_type(&space, &atom("(aF b)"), type_r));
    assert!(check_type(&space, &atom("(aF b)"), &atom_type_atom()));
    assert!(check_type(&space, &atom("(aF b)"), &atom_type_expression()));
    assert!(!check_type(&space, &atom("(aF b)"), &atom_type_symbol()));

    assert!(check_type(&space, &atom("(atomF a)"), type_r));
    assert!(check_type(&space, &atom("(atomF ())"), type_r));
    assert!(check_type(&space, &atom("(exprF ())"), type_r));
    assert!(!check_type(&space, &atom("(exprF a)"), type_r));
    assert!(check_type(&space, &atom("(gndF 1)"), type_r));
    assert!(!check_type(&space, &atom("(gndF a)"), type_r));
    assert!(check_type(&space, &atom("(symF a)"), type_r));
    assert!(!check_type(&space, &atom("(symF 1)"), type_r));
    assert!(check_type(&space, &atom("(varF $a)"), type_r));
    assert!(!check_type(&space, &atom("(varF a)"), type_r));
}

#[test]
fn check_type_return_meta_type() {
    let type_r = &atom("R");
    let space = metta_space(
        "
        (: R Type)
        (: A Type)
        (: B Type)
        (: a A)
        (: b B)

        (: atomR (-> A Atom))
        (: exprR (-> A Expression))
        (: gndR (-> A Grounded))
        (: symR (-> A Symbol))
        (: varR (-> A Variable))

        (: atomF (-> Atom R))
        (: exprF (-> Expression R))
        (: gndF (-> Grounded R))
        (: symF (-> Symbol R))
        (: varF (-> Variable R))
    ",
    );

    assert!(check_type(&space, &atom("(atomF (atomR a))"), type_r));
    assert!(check_type(&space, &atom("(atomF (exprR a))"), type_r));
    assert!(check_type(&space, &atom("(atomF (gndR a))"), type_r));
    assert!(check_type(&space, &atom("(atomF (symR a))"), type_r));
    assert!(check_type(&space, &atom("(atomF (varR a))"), type_r));

    assert!(check_type(&space, &atom("(exprF (exprR a))"), type_r));
    assert!(check_type(&space, &atom("(exprF (atomR a))"), type_r));

    assert!(check_type(&space, &atom("(gndF (gndR a))"), type_r));
    assert!(!check_type(&space, &atom("(gndF (atomR a))"), type_r));
    assert!(check_type(&space, &atom("(symF (symR a))"), type_r));
    assert!(!check_type(&space, &atom("(symF (atomR a))"), type_r));
    assert!(check_type(&space, &atom("(varF (varR a))"), type_r));
    assert!(!check_type(&space, &atom("(varF (atomR a))"), type_r));
}

#[test]
fn validate_atom_accept_meta_type() {
    let space = metta_space(
        "
        (: R Type)
        (: A Type)
        (: B Type)
        (: a A)
        (: b B)

        (: aF (-> A R))
        (: atomF (-> Atom R))
        (: exprF (-> Expression R))
        (: gndF (-> Grounded R))
        (: symF (-> Symbol R))
        (: varF (-> Variable R))
    ",
    );

    assert!(validate_atom(&space, &atom("(aF a)")));
    assert!(!validate_atom(&space, &atom("(aF b)")));

    assert!(validate_atom(&space, &atom("(atomF a)")));
    assert!(validate_atom(&space, &atom("(atomF ())")));
    assert!(validate_atom(&space, &atom("(exprF ())")));
    assert!(!validate_atom(&space, &atom("(exprF a)")));
    assert!(validate_atom(&space, &atom("(gndF 1)")));
    assert!(!validate_atom(&space, &atom("(gndF a)")));
    assert!(validate_atom(&space, &atom("(symF a)")));
    assert!(!validate_atom(&space, &atom("(symF 1)")));
    assert!(validate_atom(&space, &atom("(varF $a)")));
    assert!(!validate_atom(&space, &atom("(varF a)")));
}

#[test]
fn validate_atom_return_meta_type() {
    let space = metta_space(
        "
        (: R Type)
        (: A Type)
        (: B Type)
        (: a A)
        (: b B)

        (: atomR (-> A Atom))
        (: exprR (-> A Expression))
        (: gndR (-> A Grounded))
        (: symR (-> A Symbol))
        (: varR (-> A Variable))

        (: atomF (-> Atom R))
        (: exprF (-> Expression R))
        (: gndF (-> Grounded R))
        (: symF (-> Symbol R))
        (: varF (-> Variable R))
    ",
    );

    assert!(validate_atom(&space, &atom("(atomF (atomR a))")));
    assert!(validate_atom(&space, &atom("(atomF (exprR a))")));
    assert!(validate_atom(&space, &atom("(atomF (gndR a))")));
    assert!(validate_atom(&space, &atom("(atomF (symR a))")));
    assert!(validate_atom(&space, &atom("(atomF (varR a))")));

    assert!(validate_atom(&space, &atom("(exprF (exprR a))")));
    assert!(validate_atom(&space, &atom("(exprF (atomR a))")));

    assert!(validate_atom(&space, &atom("(gndF (gndR a))")));
    assert!(!validate_atom(&space, &atom("(gndF (atomR a))")));
    assert!(validate_atom(&space, &atom("(symF (symR a))")));
    assert!(!validate_atom(&space, &atom("(symF (atomR a))")));
    assert!(validate_atom(&space, &atom("(varF (varR a))")));
    assert!(!validate_atom(&space, &atom("(varF (atomR a))")));
}
