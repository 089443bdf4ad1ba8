use metta_core::atom::{Atom, VariableAtom};
use metta_core::interpreter::{interpret, interpret_init, interpret_step};
use metta_core::matcher::Bindings;
use metta_core::runner::{metta_atom, metta_space, new_metta_rust, Metta};
use metta_core::space::GroundingSpace;
use metta_core::text::{SExprParser, TokenCtor, Tokenizer};
use metta_core::types::get_type_bindings;

#[allow(non_snake_case)]
fn S(name: &str) -> Atom {
    Atom::sym(name)
}

fn atom(text: &str) -> Atom {
    metta_atom(text).unwrap()
}

#[test]
fn test_space() {
    let program = "
        (= (And T T) T)
        (= (frog $x)
            (And (croaks $x)
                 (eat_flies $x)))
        (= (croaks Fritz) T)
        (= (eat_flies Fritz) T)
        (= (green $x) (frog $x))
        !(green Fritz)
    ";

    let mut metta = new_metta_rust();
    let result = metta.run(&mut SExprParser::new(program));
    assert_eq!(result, Ok(vec![vec![Atom::sym("T")]]));
}

#[test]
fn scenario_well_typed_application() {
    let space = metta_space(
        "
        (: foo (-> A B))
        (: a A)
        (: b B)
    ",
    );
    assert!(metta_core::types::validate_atom(&space, &atom("(foo a)")));
    assert!(!metta_core::types::validate_atom(&space, &atom("(foo b)")));
}

#[test]
fn evaluate_rejects_ill_typed_atom_when_enabled() {
    let program = "
        (: foo (-> A B))
        (: a A)
        (: b B)
    ";
    let mut metta = new_metta_rust();
    let _ = metta.run(&mut SExprParser::new(program)).unwrap();
    metta.set_setting("type-check".to_string(), "auto".to_string());
    let result = metta.evaluate_atom(atom("(foo b)"));
    assert_eq!(result, Ok(vec![atom("(Error (foo b) BadType)")]));
    let ok = metta.evaluate_atom(atom("(foo a)"));
    assert_eq!(ok, Ok(vec![atom("(foo a)")]));
}

#[test]
fn step_api_reaches_return() {
    let space = metta_space("(= (f) T)");
    let mut step = interpret_init(&space, &atom("(f)"));
    let mut guard = 0;
    while step.has_next() {
        step = interpret_step(&space, step);
        guard += 1;
        assert!(guard < 100);
    }
    assert_eq!(step.get_result(), vec![S("T")]);
}

#[test]
fn interpret_collects_all_rewrites() {
    let space = metta_space(
        "
        (= (coin) heads)
        (= (coin) tails)
    ",
    );
    assert_eq!(interpret(&space, &atom("(coin)")), Ok(vec![S("heads"), S("tails")]));
}

#[test]
fn interpret_returns_normal_form_unchanged() {
    let space = GroundingSpace::new();
    assert_eq!(interpret(&space, &S("a")), Ok(vec![S("a")]));
    assert_eq!(interpret(&space, &atom("(a b)")), Ok(vec![atom("(a b)")]));
}

#[test]
fn parse_reports_syntax_errors() {
    let tokenizer = Tokenizer::new();
    let mut stray = SExprParser::new(")");
    assert!(stray.parse(&tokenizer).is_err());
    let mut unclosed = SExprParser::new("(a b");
    assert!(unclosed.parse(&tokenizer).is_err());
    let mut fine = SExprParser::new("  ; note\n foo");
    assert_eq!(fine.parse(&tokenizer), Ok(Some(S("foo"))));
    assert_eq!(fine.parse(&tokenizer), Ok(None));
}

#[test]
fn run_propagates_parse_errors() {
    let mut metta = new_metta_rust();
    let result = metta.run(&mut SExprParser::new("(a b"));
    assert!(result.is_err());
}

#[test]
fn tokenizer_rules_make_grounded_integers() {
    assert_eq!(metta_atom("42"), Some(Atom::value(42)));
    assert_eq!(metta_atom("-7"), Some(Atom::value(-7)));
    assert_eq!(metta_atom("4a2"), Some(S("4a2")));
    assert_eq!(metta_atom("-"), Some(S("-")));
}

#[test]
fn tokenizer_last_registration_wins() {
    let mut tokenizer = Tokenizer::new();
    tokenizer.register_token("^x$".to_string(), TokenCtor::IntValue);
    assert_eq!(tokenizer.find_token("x"), Some(TokenCtor::IntValue));
    assert_eq!(tokenizer.find_token("y"), None);
    let copy = tokenizer.clone();
    assert_eq!(copy.find_token("x"), Some(TokenCtor::IntValue));
}

#[test]
fn parse_display_round_trip() {
    let texts = ["foo", "$x", "(= (fact $n) (* $n (- $n one)))", "()", "(a (b c) $d)"];
    for text in texts {
        let a = atom(text);
        assert_eq!(metta_atom(&a.to_text()), Some(a));
    }
    let g = atom("(plus 2 -3)");
    assert_eq!(metta_atom(&g.to_text()), Some(g));
}

#[test]
fn settings_latest_value_wins() {
    let mut metta = Metta::new(GroundingSpace::new(), Tokenizer::new());
    assert_eq!(metta.get_setting("type-check"), None);
    metta.set_setting("type-check".to_string(), "off".to_string());
    metta.set_setting("type-check".to_string(), "auto".to_string());
    assert_eq!(metta.get_setting("type-check"), Some("auto".to_string()));
}

#[test]
fn get_type_bindings_returns_type_parameters() {
    let space = metta_space("(: a (List A))");
    let mut expected_binds = Bindings::new();
    expected_binds.insert(VariableAtom::new("t"), S("A"));
    assert_eq!(
        get_type_bindings(&space, &atom("a"), &atom("(List $t)")),
        vec![(atom("(List A)"), expected_binds)]
    );
}

#[test]
fn meta_type_universality_scenario() {
    let space = metta_space("(: a A)");
    let examples = [S("x"), Atom::var("v"), Atom::value(9), atom("(p q)")];
    for a in examples {
        assert!(metta_core::types::check_type(
            &space,
            &a,
            &metta_core::types::atom_type_atom()
        ));
    }
}
