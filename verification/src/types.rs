//! The type system: pure functions over a space and an atom.
//!
//! A type is itself an atom. `(: a T)` in the space asserts that `a` has
//! type `T`; `(:< S U)` asserts that `S` is a sub-type of `U` (transitive,
//! not reflexive); `(-> A .. R)` is a function type whose last child is the
//! return type. Five meta-types classify atoms by their kind (`Symbol`,
//! `Variable`, `Grounded`, `Expression`), `Atom` accepts every atom, and
//! the wildcard `%Undefined%` unifies with any concrete type.

use vstd::prelude::*;

use crate::atom::{
    clone_atom, eq_atoms, height_a, height_m, height_seq_m, lemma_child_height,
    lemma_height_seq_elem, lemma_models_of, models_of, Atom, AtomM, ExpressionAtom, GndM,
    GroundedValue, VarM, VariableAtom,
};
use crate::matcher::{
    apply_m, apply_with, lemma_pairs_model_push, lookup_m, match_atoms, max_id_m, max_var_id,
    rename_m, rename_offset, resolve_m, spec_match, spec_merge, BindsM, Bindings, MATCH_FUEL,
};
use crate::space::{
    binds_models_of, lemma_binds_models_of, query_base, spec_query, GroundingSpace,
};

verus! {

/// Bound on how many worklist elements a super-type closure processes.
/// Each element of a finite space contributes finitely many super-types,
/// so any closure a session can build finishes far below this bound.
pub const CLOSURE_FUEL: u64 = 1000000000;

// ------------------------------------------------------------------
// The distinguished type symbols
// ------------------------------------------------------------------

/// A symbol model with the given name.
pub open spec fn msym(name: Seq<char>) -> AtomM {
    AtomM::Sym { name }
}

pub open spec fn undefined_m() -> AtomM {
    msym("%Undefined%"@)
}

pub open spec fn type_sym_m() -> AtomM {
    msym("Type"@)
}

pub open spec fn atom_sym_m() -> AtomM {
    msym("Atom"@)
}

pub open spec fn symbol_sym_m() -> AtomM {
    msym("Symbol"@)
}

pub open spec fn variable_sym_m() -> AtomM {
    msym("Variable"@)
}

pub open spec fn grounded_sym_m() -> AtomM {
    msym("Grounded"@)
}

pub open spec fn expression_sym_m() -> AtomM {
    msym("Expression"@)
}

pub open spec fn arrow_m() -> AtomM {
    msym("->"@)
}

pub open spec fn has_type_m() -> AtomM {
    msym(":"@)
}

pub open spec fn sub_type_m() -> AtomM {
    msym(":<"@)
}

/// The `%Undefined%` wildcard type.
pub fn atom_type_undefined() -> (r: Atom)
    ensures
        r.model() == undefined_m(),
{
    Atom::sym("%Undefined%")
}

/// The type of types.
pub fn atom_type_type() -> (r: Atom)
    ensures
        r.model() == type_sym_m(),
{
    Atom::sym("Type")
}

/// The meta-type accepted by every atom.
pub fn atom_type_atom() -> (r: Atom)
    ensures
        r.model() == atom_sym_m(),
{
    Atom::sym("Atom")
}

/// The meta-type of symbol atoms.
pub fn atom_type_symbol() -> (r: Atom)
    ensures
        r.model() == symbol_sym_m(),
{
    Atom::sym("Symbol")
}

/// The meta-type of variable atoms.
pub fn atom_type_variable() -> (r: Atom)
    ensures
        r.model() == variable_sym_m(),
{
    Atom::sym("Variable")
}

/// The meta-type of grounded atoms.
pub fn atom_type_grounded() -> (r: Atom)
    ensures
        r.model() == grounded_sym_m(),
{
    Atom::sym("Grounded")
}

/// The meta-type of expression atoms.
pub fn atom_type_expression() -> (r: Atom)
    ensures
        r.model() == expression_sym_m(),
{
    Atom::sym("Expression")
}

// ------------------------------------------------------------------
// Function types
// ------------------------------------------------------------------

/// Whether `t` is a function type: an expression whose first child is the
/// arrow symbol.
pub open spec fn is_func_m(t: AtomM) -> bool {
    t is Expr && t->children.len() > 0 && t->children[0] == arrow_m()
}

/// Returns true when the passed type is a function type.
pub fn is_func(typ: &Atom) -> (r: bool)
    ensures
        r == is_func_m(typ.model()),
{
    match typ {
        Atom::Expression(expr) => {
            proof {
                lemma_models_of(expr.children@);
            }
            if expr.children.len() == 0 {
                return false;
            }
            let arrow = Atom::sym("->");
            eq_atoms(&expr.children[0], &arrow)
        },
        _ => false,
    }
}

/// The argument types of a function type, in order.
pub open spec fn arg_types_m(t: AtomM) -> Seq<AtomM>
    recommends
        is_func_m(t),
        t->children.len() >= 2,
{
    t->children.subrange(1, t->children.len() - 1)
}

/// The return type of a function type.
pub open spec fn ret_type_m(t: AtomM) -> AtomM
    recommends
        is_func_m(t),
        t->children.len() >= 2,
{
    t->children.last()
}

/// Splits a function type into its argument types and its return type. A
/// type without an arrow head or without a return type is not a function
/// type; handing one over is an invariant violation, so it is ruled out.
pub fn get_arg_types(fn_typ: &Atom) -> (r: (Vec<Atom>, Atom))
    requires
        is_func_m(fn_typ.model()),
        fn_typ.model()->children.len() >= 2,
    ensures
        models_of(r.0@) == arg_types_m(fn_typ.model()),
        r.1.model() == ret_type_m(fn_typ.model()),
{
    match fn_typ {
        Atom::Expression(expr) => {
            proof {
                lemma_models_of(expr.children@);
            }
            let n = expr.children.len();
            let mut args: Vec<Atom> = Vec::new();
            let mut i: usize = 1;
            while i < n - 1
                invariant
                    n == expr.children@.len(),
                    n >= 2,
                    1 <= i <= n - 1,
                    args@.len() == i - 1,
                    forall|j: int|
                        0 <= j < i - 1 ==> args@[j].model() == models_of(expr.children@)[j + 1],
                decreases n - i,
            {
                proof {
                    lemma_models_of(expr.children@);
                }
                let c = clone_atom(&expr.children[i]);
                args.push(c);
                i = i + 1;
            }
            let ret = clone_atom(&expr.children[n - 1]);
            proof {
                lemma_models_of(args@);
                lemma_models_of(expr.children@);
                assert(models_of(args@) =~= models_of(expr.children@).subrange(
                    1,
                    expr.children@.len() - 1,
                ));
            }
            (args, ret)
        },
        _ => {
            proof {
                assert(false);
            }
            (Vec::new(), Atom::sym("->"))
        },
    }
}

/// The first child of a non-empty expression.
pub fn get_op(expr: &ExpressionAtom) -> (r: &Atom)
    requires
        expr.children@.len() > 0,
    ensures
        r == &expr.children@[0],
{
    &expr.children[0]
}

/// The children of a non-empty expression after the first.
pub fn get_args(expr: &ExpressionAtom) -> (r: Vec<Atom>)
    requires
        expr.children@.len() > 0,
    ensures
        models_of(r@) == models_of(expr.children@).drop_first(),
{
    let n = expr.children.len();
    let mut args: Vec<Atom> = Vec::new();
    let mut i: usize = 1;
    while i < n
        invariant
            n == expr.children@.len(),
            1 <= i <= n,
            args@.len() == i - 1,
            forall|j: int| 0 <= j < i - 1 ==> args@[j].model() == models_of(expr.children@)[j + 1],
        decreases n - i,
    {
        proof {
            lemma_models_of(expr.children@);
        }
        let c = clone_atom(&expr.children[i]);
        args.push(c);
        i = i + 1;
    }
    proof {
        lemma_models_of(args@);
        lemma_models_of(expr.children@);
        assert(models_of(args@) =~= models_of(expr.children@).drop_first());
    }
    args
}

// ------------------------------------------------------------------
// Meta-types
// ------------------------------------------------------------------

/// The meta-type of an atom, by its kind.
pub open spec fn meta_type_m(a: AtomM) -> AtomM {
    match a {
        AtomM::Sym { .. } => symbol_sym_m(),
        AtomM::Var { .. } => variable_sym_m(),
        AtomM::Gnd { .. } => grounded_sym_m(),
        AtomM::Expr { .. } => expression_sym_m(),
    }
}

/// The meta-type of an atom, by its kind.
pub fn get_meta_type(atom: &Atom) -> (r: Atom)
    ensures
        r.model() == meta_type_m(atom.model()),
{
    match atom {
        Atom::Symbol(_) => Atom::sym("Symbol"),
        Atom::Variable(_) => Atom::sym("Variable"),
        Atom::Grounded(_) => Atom::sym("Grounded"),
        Atom::Expression(_) => Atom::sym("Expression"),
    }
}

/// Whether `t` is a meta-type accepted by `a`: the universal `Atom`, or
/// the meta-type of `a`'s own kind.
pub open spec fn check_meta_m(a: AtomM, t: AtomM) -> bool {
    t == atom_sym_m() || t == meta_type_m(a)
}

/// Whether `typ` is a meta-type accepted by `atom`.
pub fn check_meta_type(atom: &Atom, typ: &Atom) -> (r: bool)
    ensures
        r == check_meta_m(atom.model(), typ.model()),
{
    let atom_meta = Atom::sym("Atom");
    if eq_atoms(typ, &atom_meta) {
        return true;
    }
    let mt = get_meta_type(atom);
    eq_atoms(typ, &mt)
}

// ------------------------------------------------------------------
// The %Undefined% wildcard
// ------------------------------------------------------------------

/// Every occurrence of the `%Undefined%` symbol replaced by the grounded
/// sentinel whose match accepts any atom.
pub open spec fn replace_und_m(m: AtomM) -> AtomM
    decreases height_m(m), 1nat, 0nat,
{
    if m == undefined_m() {
        AtomM::Gnd { g: GndM::UndefinedTypeMatch }
    } else {
        match m {
            AtomM::Expr { children } => AtomM::Expr { children: replace_und_kids_m(children) },
            _ => m,
        }
    }
}

pub open spec fn replace_und_kids_m(s: Seq<AtomM>) -> Seq<AtomM>
    decreases 1 + height_seq_m(s), 0nat, s.len(),
{
    if s.len() == 0 {
        Seq::empty()
    } else {
        replace_und_kids_m(s.drop_last()).push(replace_und_m(s.last()))
    }
}

pub proof fn lemma_replace_und_kids_m(s: Seq<AtomM>)
    ensures
        replace_und_kids_m(s).len() == s.len(),
        forall|i: int|
            0 <= i < s.len() ==> #[trigger] replace_und_kids_m(s)[i] == replace_und_m(s[i]),
    decreases s.len(),
{
    if s.len() > 0 {
        lemma_replace_und_kids_m(s.drop_last());
    }
}

/// Every occurrence of `%Undefined%` in `atom` replaced by the grounded
/// sentinel that matches any atom.
pub fn replace_undefined_types(atom: &Atom) -> (r: Atom)
    ensures
        r.model() == replace_und_m(atom.model()),
    decreases height_a(*atom),
{
    let und = Atom::sym("%Undefined%");
    if eq_atoms(atom, &und) {
        return Atom::gnd(GroundedValue::UndefinedTypeMatch);
    }
    match atom {
        Atom::Expression(e) => {
            let n = e.children.len();
            let mut cs: Vec<Atom> = Vec::new();
            let mut i: usize = 0;
            while i < n
                invariant
                    n == e.children@.len(),
                    i <= n,
                    *atom == Atom::Expression(*e),
                    cs@.len() == i,
                    forall|j: int|
                        0 <= j < i ==> cs@[j].model() == replace_und_m(models_of(e.children@)[j]),
                decreases n - i,
            {
                proof {
                    lemma_child_height(e, i as int);
                    lemma_models_of(e.children@);
                }
                let c = replace_undefined_types(&e.children[i]);
                cs.push(c);
                i = i + 1;
            }
            proof {
                lemma_models_of(cs@);
                lemma_models_of(e.children@);
                lemma_replace_und_kids_m(models_of(e.children@));
                assert(models_of(cs@) =~= replace_und_kids_m(models_of(e.children@)));
            }
            Atom::Expression(ExpressionAtom { children: cs })
        },
        _ => clone_atom(atom),
    }
}

// ------------------------------------------------------------------
// Type matching
// ------------------------------------------------------------------

/// The result of matching two types under bindings `b`: whether they
/// match, and the bindings afterwards. `%Undefined%` on either side
/// behaves as a universal wildcard; on success the match's bindings are
/// merged into `b`; a failed match leaves `b` unchanged.
pub open spec fn spec_mrt(l: AtomM, r: AtomM, b: BindsM) -> (bool, BindsM) {
    let lu = replace_und_m(l);
    let ru = replace_und_m(r);
    match spec_match(lu, ru) {
        None => (false, b),
        Some(mb) => match spec_merge(b, mb) {
            None => (false, b),
            Some(c) => (true, c),
        },
    }
}

/// Matches two types and merges the new variable bindings into
/// `bindings`. Returns true when a match is found; on failure `bindings`
/// is left unchanged.
pub fn match_reducted_types(left: &Atom, right: &Atom, bindings: &mut Bindings) -> (r: bool)
    ensures
        r == spec_mrt(left.model(), right.model(), old(bindings).model()).0,
        final(bindings).model() == spec_mrt(left.model(), right.model(), old(bindings).model()).1,
{
    let lu = replace_undefined_types(left);
    let ru = replace_undefined_types(right);
    let ms = match_atoms(&lu, &ru);
    if ms.len() == 0 {
        return false;
    }
    let mb = &ms[0];
    proof {
        lemma_binds_models_of(ms@);
    }
    match Bindings::merge(bindings, mb) {
        None => false,
        Some(c) => {
            *bindings = c;
            true
        },
    }
}

// ------------------------------------------------------------------
// Super-type queries and their closure
// ------------------------------------------------------------------

/// The expression `(: sub typ)`.
pub open spec fn typeof_query_m(sub: AtomM, typ: AtomM) -> AtomM {
    AtomM::Expr { children: seq![has_type_m(), sub, typ] }
}

/// The expression `(:< sub super)`.
pub open spec fn isa_query_m(sub: AtomM, sup: AtomM) -> AtomM {
    AtomM::Expr { children: seq![sub_type_m(), sub, sup] }
}

/// The expression `(: atom typ)`.
fn typeof_query(atom: &Atom, typ: &Atom) -> (r: Atom)
    ensures
        r.model() == typeof_query_m(atom.model(), typ.model()),
{
    let mut cs: Vec<Atom> = Vec::new();
    cs.push(Atom::sym(":"));
    cs.push(clone_atom(atom));
    cs.push(clone_atom(typ));
    proof {
        lemma_models_of(cs@);
        assert(models_of(cs@) =~= seq![has_type_m(), atom.model(), typ.model()]);
    }
    Atom::expr(cs)
}

/// The expression `(:< sub super)`.
fn isa_query(sub_type: &Atom, super_type: &Atom) -> (r: Atom)
    ensures
        r.model() == isa_query_m(sub_type.model(), super_type.model()),
{
    let mut cs: Vec<Atom> = Vec::new();
    cs.push(Atom::sym(":<"));
    cs.push(clone_atom(sub_type));
    cs.push(clone_atom(super_type));
    proof {
        lemma_models_of(cs@);
        assert(models_of(cs@) =~= seq![sub_type_m(), sub_type.model(), super_type.model()]);
    }
    Atom::expr(cs)
}

/// All bindings under which `(: sub_type super_type)` is found in the
/// space.
pub fn query_has_type(space: &GroundingSpace, sub_type: &Atom, super_type: &Atom) -> (r: Vec<
    Bindings,
>)
    ensures
        binds_models_of(r@) == spec_query(
            space.model(),
            typeof_query_m(sub_type.model(), super_type.model()),
        ),
{
    space.query(&typeof_query(sub_type, super_type))
}

/// The fresh query variable a type query uses: named `X`, with an id
/// above every id in `m`.
pub open spec fn fresh_x_m(m: AtomM) -> VarM {
    VarM {
        name: "X"@,
        id: if max_id_m(m) + 1 <= u64::MAX {
            max_id_m(m) + 1
        } else {
            max_id_m(m)
        },
    }
}

/// The resolutions of `v` across a sequence of answers; answers that do
/// not bind `v` are skipped.
pub open spec fn resolved_of_m(bms: Seq<BindsM>, v: VarM) -> Seq<AtomM>
    decreases bms.len(),
{
    if bms.len() == 0 {
        Seq::empty()
    } else {
        let rest = resolved_of_m(bms.drop_last(), v);
        match resolve_m(bms.last(), v) {
            Some(a) => rest.push(a),
            None => rest,
        }
    }
}

/// The direct super-types of `t` recorded in the space: the resolved
/// answers of the query `(:< t $X)`.
pub open spec fn spec_super_types(space: Seq<AtomM>, t: AtomM) -> Seq<AtomM> {
    resolved_of_m(
        spec_query(space, isa_query_m(t, AtomM::Var { v: fresh_x_m(t) })),
        fresh_x_m(t),
    )
}

/// Collects the resolutions of `var_x` across the given answers.
pub(crate) fn resolve_answers(answers: &Vec<Bindings>, var_x: &VariableAtom) -> (r: Vec<Atom>)
    ensures
        models_of(r@) == resolved_of_m(binds_models_of(answers@), var_x.model()),
{
    let ghost bms = binds_models_of(answers@);
    let n = answers.len();
    let mut out: Vec<Atom> = Vec::new();
    let mut i: usize = 0;
    proof {
        lemma_binds_models_of(answers@);
        assert(models_of(Seq::<Atom>::empty()) =~= Seq::<AtomM>::empty());
        assert(bms.take(0int) =~= Seq::<BindsM>::empty());
    }
    while i < n
        invariant
            n == answers@.len(),
            i <= n,
            bms == binds_models_of(answers@),
            models_of(out@) == resolved_of_m(bms.take(i as int), var_x.model()),
        decreases n - i,
    {
        proof {
            lemma_binds_models_of(answers@);
            assert(bms.take(i + 1).drop_last() =~= bms.take(i as int));
            assert(bms.take(i + 1).last() == bms[i as int]);
        }
        let b = &answers[i];
        match b.resolve(var_x) {
            Some(a) => {
                let ghost outp = out@;
                out.push(a);
                proof {
                    assert(out@.drop_last() =~= outp);
                    lemma_models_of(outp);
                    lemma_models_of(out@);
                    assert(models_of(out@) =~= models_of(outp).push(out@.last().model()));
                }
            },
            None => {},
        }
        proof {
            assert(models_of(out@) == resolved_of_m(bms.take(i + 1), var_x.model()));
        }
        i = i + 1;
    }
    proof {
        assert(bms.take(n as int) =~= bms);
    }
    out
}

/// The direct super-types of `sub_type` recorded in the space.
pub fn query_super_types(space: &GroundingSpace, sub_type: &Atom) -> (r: Vec<Atom>)
    ensures
        models_of(r@) == spec_super_types(space.model(), sub_type.model()),
{
    let mid = max_var_id(sub_type);
    let base: u64 = if mid < u64::MAX {
        mid + 1
    } else {
        mid
    };
    let var_x = VariableAtom::new("X").make_unique(base);
    proof {
        assert(var_x.model() == fresh_x_m(sub_type.model()));
    }
    let pattern = isa_query(sub_type, &Atom::Variable(var_x.clone()));
    let answers = space.query(&pattern);
    resolve_answers(&answers, &var_x)
}

/// Whether `a` occurs in `v`, structurally.
pub fn contains_atom(v: &Vec<Atom>, a: &Atom) -> (r: bool)
    ensures
        r == models_of(v@).contains(a.model()),
{
    proof {
        lemma_models_of(v@);
    }
    let n = v.len();
    let mut i: usize = 0;
    while i < n
        invariant
            n == v@.len(),
            i <= n,
            forall|j: int| 0 <= j < i ==> models_of(v@)[j] != a.model(),
        decreases n - i,
    {
        proof {
            lemma_models_of(v@);
        }
        if eq_atoms(&v[i], a) {
            proof {
                assert(models_of(v@).contains(a.model())) by {
                    assert(models_of(v@)[i as int] == a.model());
                }
            }
            return true;
        }
        i = i + 1;
    }
    proof {
        lemma_models_of(v@);
        assert(!models_of(v@).contains(a.model()));
    }
    false
}

// ------------------------------------------------------------------
// Transitive closure over super-types
// ------------------------------------------------------------------

/// `types` extended with the elements of `supers` from position `j` on
/// that are not yet present.
pub open spec fn closure_step_m(types: Seq<AtomM>, supers: Seq<AtomM>, j: int) -> Seq<AtomM>
    decreases supers.len() - j,
{
    if j < 0 || j >= supers.len() {
        types
    } else {
        let t2 = if types.contains(supers[j]) {
            types
        } else {
            types.push(supers[j])
        };
        closure_step_m(t2, supers, j + 1)
    }
}

/// The worklist closure: processes `types[i]` onward, appending each
/// element's direct super-types that are not yet present, so that every
/// type reachable through `(:<)` chains joins the list. Duplicates are
/// filtered, which ends cyclic sub-type chains; `fuel` bounds the worked
/// elements.
pub open spec fn closure_m(space: Seq<AtomM>, types: Seq<AtomM>, i: int, fuel: nat) -> Seq<AtomM>
    decreases fuel,
{
    if i < 0 || i >= types.len() || fuel == 0 {
        types
    } else {
        closure_m(
            space,
            closure_step_m(types, spec_super_types(space, types[i]), 0),
            i + 1,
            (fuel - 1) as nat,
        )
    }
}

/// Extends `sub_types` with every type reachable from its elements at
/// position `from` onward through `(:<)` chains, skipping types already
/// present.
pub fn add_super_types(space: &GroundingSpace, sub_types: &mut Vec<Atom>, from: usize)
    ensures
        models_of(final(sub_types)@) == closure_m(
            space.model(),
            models_of(old(sub_types)@),
            from as int,
            CLOSURE_FUEL as nat,
        ),
{
    let mut i: usize = from;
    let mut fuel: u64 = CLOSURE_FUEL;
    while i < sub_types.len() && fuel > 0
        invariant
            closure_m(
                space.model(),
                models_of(old(sub_types)@),
                from as int,
                CLOSURE_FUEL as nat,
            ) == closure_m(space.model(), models_of(sub_types@), i as int, fuel as nat),
        decreases fuel,
    {
        let t = clone_atom(&sub_types[i]);
        proof {
            lemma_models_of(sub_types@);
        }
        let supers = query_super_types(space, &t);
        let ghost sm = models_of(supers@);
        let ghost before_inner = models_of(sub_types@);
        let m = supers.len();
        let mut j: usize = 0;
        proof {
            lemma_models_of(supers@);
            assert(closure_step_m(before_inner, sm, 0) == closure_step_m(
                before_inner,
                sm,
                0,
            ));
        }
        while j < m
            invariant
                m == supers@.len(),
                j <= m,
                sm == models_of(supers@),
                closure_step_m(before_inner, sm, 0) == closure_step_m(
                    models_of(sub_types@),
                    sm,
                    j as int,
                ),
            decreases m - j,
        {
            proof {
                lemma_models_of(supers@);
            }
            if !contains_atom(sub_types, &supers[j]) {
                let c = clone_atom(&supers[j]);
                let ghost before = sub_types@;
                sub_types.push(c);
                proof {
                    assert(sub_types@.drop_last() =~= before);
                    lemma_models_of(before);
                    lemma_models_of(sub_types@);
                    assert(models_of(sub_types@) =~= models_of(before).push(sm[j as int]));
                }
            }
            j = j + 1;
        }
        i = i + 1;
        fuel = fuel - 1;
    }
    proof {
        lemma_models_of(sub_types@);
        assert(closure_m(space.model(), models_of(sub_types@), i as int, fuel as nat)
            == models_of(sub_types@));
    }
}

/// The types asserted for `a` in the space: the resolved answers of the
/// query `(: a $X)`.
pub open spec fn has_types_m(space: Seq<AtomM>, a: AtomM) -> Seq<AtomM> {
    resolved_of_m(
        spec_query(space, typeof_query_m(a, AtomM::Var { v: fresh_x_m(a) })),
        fresh_x_m(a),
    )
}

/// The asserted types of `a` together with every super-type reachable
/// from them.
pub open spec fn spec_query_types(space: Seq<AtomM>, a: AtomM) -> Seq<AtomM> {
    closure_m(space, has_types_m(space, a), 0, CLOSURE_FUEL as nat)
}

/// The types asserted for `atom`, closed under super-types.
pub fn query_types(space: &GroundingSpace, atom: &Atom) -> (r: Vec<Atom>)
    ensures
        models_of(r@) == spec_query_types(space.model(), atom.model()),
{
    let mid = max_var_id(atom);
    let base: u64 = if mid < u64::MAX {
        mid + 1
    } else {
        mid
    };
    let var_x = VariableAtom::new("X").make_unique(base);
    proof {
        assert(var_x.model() == fresh_x_m(atom.model()));
    }
    let pattern = typeof_query(atom, &Atom::Variable(var_x.clone()));
    let answers = space.query(&pattern);
    let mut types = resolve_answers(&answers, &var_x);
    add_super_types(space, &mut types, 0);
    types
}

// ------------------------------------------------------------------
// Argument type checking
// ------------------------------------------------------------------

/// The models of a sequence of atom vectors, element by element.
pub open spec fn models2_of(s: Seq<Vec<Atom>>) -> Seq<Seq<AtomM>>
    decreases s,
{
    if s.len() == 0 {
        Seq::empty()
    } else {
        models2_of(s.drop_last()).push(models_of(s.last()@))
    }
}

pub proof fn lemma_models2_of(s: Seq<Vec<Atom>>)
    ensures
        models2_of(s).len() == s.len(),
        forall|i: int| 0 <= i < s.len() ==> #[trigger] models2_of(s)[i] == models_of(s[i]@),
    decreases s.len(),
{
    if s.len() > 0 {
        lemma_models2_of(s.drop_last());
    }
}

pub proof fn lemma_models2_of_push(s: Seq<Vec<Atom>>, v: Vec<Atom>)
    ensures
        models2_of(s.push(v)) == models2_of(s).push(models_of(v@)),
{
    assert(s.push(v).drop_last() =~= s);
}

/// Checks the actual-type sets against the expected types from position
/// `i` on: the arities must agree, and at each position some actual type
/// must match the expected type, threading the bindings through every
/// attempt in order.
pub open spec fn ct_pos_m(acts: Seq<Seq<AtomM>>, exps: Seq<AtomM>, i: int, b: BindsM) -> (
    bool,
    BindsM,
)
    decreases acts.len() - i, 1nat, 0nat,
{
    if i >= acts.len() && i >= exps.len() {
        (true, b)
    } else if i < 0 || i >= acts.len() || i >= exps.len() {
        (false, b)
    } else {
        ct_list_m(acts, exps, i, 0, b)
    }
}

/// Tries the actual types of position `i` from index `j` on against
/// `exps[i]`; a failed attempt's bindings still carry over to the next.
pub open spec fn ct_list_m(acts: Seq<Seq<AtomM>>, exps: Seq<AtomM>, i: int, j: int, b: BindsM) -> (
    bool,
    BindsM,
)
    decreases acts.len() - i, 0nat, acts[i].len() - j,
{
    if i < 0 || i >= acts.len() || j < 0 || j >= acts[i].len() {
        (false, b)
    } else {
        let r1 = spec_mrt(acts[i][j], exps[i], b);
        if r1.0 {
            let r2 = ct_pos_m(acts, exps, i + 1, r1.1);
            if r2.0 {
                (true, r2.1)
            } else {
                ct_list_m(acts, exps, i, j + 1, r2.1)
            }
        } else {
            ct_list_m(acts, exps, i, j + 1, r1.1)
        }
    }
}

/// Checks actual-type sets against expected types from position `i` on.
fn check_types_at(
    actual: &Vec<Vec<Atom>>,
    expected: &Vec<Atom>,
    i: usize,
    bindings: &mut Bindings,
) -> (r: bool)
    ensures
        r == ct_pos_m(
            models2_of(actual@),
            models_of(expected@),
            i as int,
            old(bindings).model(),
        ).0,
        final(bindings).model() == ct_pos_m(
            models2_of(actual@),
            models_of(expected@),
            i as int,
            old(bindings).model(),
        ).1,
    decreases actual@.len() - i,
{
    proof {
        lemma_models2_of(actual@);
        lemma_models_of(expected@);
    }
    let ghost acts = models2_of(actual@);
    let ghost exps = models_of(expected@);
    if i >= actual.len() && i >= expected.len() {
        return true;
    }
    if i >= actual.len() || i >= expected.len() {
        return false;
    }
    let ghost b0 = bindings.model();
    let next_i = i + 1;
    let row = &actual[i];
    let m = row.len();
    let mut j: usize = 0;
    proof {
        lemma_models_of(row@);
    }
    while j < m
        invariant
            m == row@.len(),
            j <= m,
            next_i == i + 1,
            i < actual@.len(),
            i < expected@.len(),
            acts == models2_of(actual@),
            exps == models_of(expected@),
            acts[i as int] == models_of(row@),
            b0 == old(bindings).model(),
            ct_pos_m(acts, exps, i as int, b0) == ct_pos_m(
                models2_of(actual@),
                models_of(expected@),
                i as int,
                old(bindings).model(),
            ),
            ct_pos_m(acts, exps, i as int, b0) == ct_list_m(
                acts,
                exps,
                i as int,
                j as int,
                bindings.model(),
            ),
        decreases m - j,
    {
        proof {
            lemma_models_of(row@);
            lemma_models_of(expected@);
            lemma_models2_of(actual@);
        }
        let expect = &expected[i];
        let ghost b_before = bindings.model();
        let m1 = match_reducted_types(&row[j], expect, bindings);
        proof {
            assert(spec_mrt(acts[i as int][j as int], exps[i as int], b_before).0 == m1);
        }
        if m1 {
            let ghost b_mid = bindings.model();
            proof {
                assert(spec_mrt(acts[i as int][j as int], exps[i as int], b_before).1 == b_mid);
            }
            let m2 = check_types_at(actual, expected, next_i, bindings);
            if m2 {
                proof {
                    assert(ct_pos_m(acts, exps, i + 1, b_mid) == (true, bindings.model()));
                    assert(ct_list_m(acts, exps, i as int, j as int, b_before) == (
                        true,
                        bindings.model(),
                    )) by {
                        reveal_with_fuel(ct_list_m, 2);
                        assert(spec_mrt(acts[i as int][j as int], exps[i as int], b_before).0);
                        assert(spec_mrt(acts[i as int][j as int], exps[i as int], b_before).1
                            == b_mid);
                        assert(ct_pos_m(acts, exps, i + 1, b_mid) == (true, bindings.model()));
                        assert(0 <= i < acts.len());
                        assert(0 <= j < acts[i as int].len());
                    }
                }
                return true;
            }
        }
        j = j + 1;
    }
    false
}

/// Checks the actual-type sets of a call's arguments against a function
/// type's expected argument types. The arities must agree; at each
/// position it suffices that any actual type matches, with the bindings
/// context threaded across positions.
pub fn check_types(actual: &Vec<Vec<Atom>>, expected: &Vec<Atom>, bindings: &mut Bindings) -> (r:
    bool)
    ensures
        r == ct_pos_m(models2_of(actual@), models_of(expected@), 0, old(bindings).model()).0,
        final(bindings).model() == ct_pos_m(
            models2_of(actual@),
            models_of(expected@),
            0,
            old(bindings).model(),
        ).1,
{
    check_types_at(actual, expected, 0, bindings)
}

// ------------------------------------------------------------------
// The types of an atom
// ------------------------------------------------------------------

/// The elements of `ts` that are, or are not, function types, in order.
pub open spec fn filter_funcs_m(ts: Seq<AtomM>, keep_funcs: bool) -> Seq<AtomM>
    decreases ts.len(),
{
    if ts.len() == 0 {
        Seq::empty()
    } else {
        let r = filter_funcs_m(ts.drop_last(), keep_funcs);
        if is_func_m(ts.last()) == keep_funcs {
            r.push(ts.last())
        } else {
            r
        }
    }
}

/// Every element of `tuples` extended by `t`.
pub open spec fn map_push_m(tuples: Seq<Seq<AtomM>>, t: AtomM) -> Seq<Seq<AtomM>>
    decreases tuples.len(),
{
    if tuples.len() == 0 {
        Seq::empty()
    } else {
        map_push_m(tuples.drop_last(), t).push(tuples.last().push(t))
    }
}

/// The partial tuples extended by each candidate type in turn: for each
/// type, every partial tuple extended by it.
pub open spec fn cross_m(tuples: Seq<Seq<AtomM>>, cts: Seq<AtomM>) -> Seq<Seq<AtomM>>
    decreases cts.len(),
{
    if cts.len() == 0 {
        Seq::empty()
    } else {
        cross_m(tuples, cts.drop_last()) + map_push_m(tuples, cts.last())
    }
}

/// The partial tuple types over the children from position `i` on: the
/// product of the children's type sets, where a function type of the
/// first child is not a tuple component.
pub open spec fn tuples_m(space: Seq<AtomM>, children: Seq<AtomM>, i: int, acc: Seq<Seq<AtomM>>) -> Seq<
    Seq<AtomM>,
>
    decreases 1 + height_seq_m(children), 0nat, children.len() - i,
    via tuples_m_decreases
{
    if i < 0 || i >= children.len() {
        acc
    } else {
        let cts0 = grt_m(space, children[i]);
        let cts = if i == 0 {
            filter_funcs_m(cts0, false)
        } else {
            cts0
        };
        tuples_m(space, children, i + 1, cross_m(acc, cts))
    }
}

#[via_fn]
proof fn tuples_m_decreases(space: Seq<AtomM>, children: Seq<AtomM>, i: int, acc: Seq<Seq<AtomM>>) {
    if 0 <= i < children.len() {
        lemma_height_seq_elem(children, i);
    }
}

/// Whether some component of the tuple is not `%Undefined%`.
pub open spec fn has_concrete_m(tu: Seq<AtomM>) -> bool {
    exists|k: int| 0 <= k < tu.len() && tu[k] != undefined_m()
}

/// The tuples with some concrete component, each as an expression type.
pub open spec fn keep_tuples_m(tuples: Seq<Seq<AtomM>>) -> Seq<AtomM>
    decreases tuples.len(),
{
    if tuples.len() == 0 {
        Seq::empty()
    } else {
        let r = keep_tuples_m(tuples.drop_last());
        if has_concrete_m(tuples.last()) {
            r.push(AtomM::Expr { children: tuples.last() })
        } else {
            r
        }
    }
}

/// The actual-argument-type sets for the children from position `i` on:
/// each child's types, together with the universal meta-type and the
/// child's own meta-type.
pub open spec fn actuals_m(space: Seq<AtomM>, children: Seq<AtomM>, i: int) -> Seq<Seq<AtomM>>
    decreases 1 + height_seq_m(children), 0nat, children.len() - i,
    via actuals_m_decreases
{
    if i < 1 || i >= children.len() {
        Seq::empty()
    } else {
        seq![grt_m(space, children[i]) + seq![atom_sym_m(), meta_type_m(children[i])]]
            + actuals_m(space, children, i + 1)
    }
}

#[via_fn]
proof fn actuals_m_decreases(space: Seq<AtomM>, children: Seq<AtomM>, i: int) {
    if 1 <= i < children.len() {
        lemma_height_seq_elem(children, i);
    }
}

/// The return types of the function types in `fts` from position `k` on
/// whose expected argument types accept the actual-argument-type sets,
/// under the bindings that the check produced. A function type without a
/// return type is skipped.
pub open spec fn call_types_m(fts: Seq<AtomM>, actuals: Seq<Seq<AtomM>>, k: int) -> Seq<AtomM>
    decreases fts.len() - k,
{
    if k < 0 || k >= fts.len() {
        Seq::empty()
    } else {
        let ft = fts[k];
        let rest = call_types_m(fts, actuals, k + 1);
        if ft is Expr && ft->children.len() >= 2 {
            let r = ct_pos_m(actuals, arg_types_m(ft), 0, Seq::empty());
            if r.0 {
                seq![apply_m(ret_type_m(ft), r.1, MATCH_FUEL as nat)] + rest
            } else {
                rest
            }
        } else {
            rest
        }
    }
}

/// All types of an atom in the given space.
///
/// A variable has type `%Undefined%`; a grounded value has the type its
/// host value reports; a symbol has its asserted types closed under
/// super-types, or `%Undefined%` when there are none. An expression has,
/// in order: its tuple types (the product of the children's types,
/// excluding function types of the head and the all-`%Undefined%` tuple)
/// and its asserted types, together closed under super-types; then one
/// return type for each function type of the head whose argument types
/// accept the children. An expression with no types and no function-typed
/// head has type `%Undefined%`; one whose head is function-typed but
/// whose every call fails has none, which marks an ill-typed application.
pub open spec fn grt_m(space: Seq<AtomM>, a: AtomM) -> Seq<AtomM>
    decreases height_m(a), 1nat, 0nat,
    via grt_m_decreases
{
    match a {
        AtomM::Var { .. } => seq![undefined_m()],
        AtomM::Gnd { g } => seq![crate::atom::gnd_type_m(g)],
        AtomM::Sym { .. } => {
            let ts = spec_query_types(space, a);
            if ts.len() == 0 {
                seq![undefined_m()]
            } else {
                ts
            }
        },
        AtomM::Expr { children } => {
            let tuples = tuples_m(space, children, 0, seq![Seq::<AtomM>::empty()]);
            let kept = keep_tuples_m(tuples);
            let types1 = kept + spec_query_types(space, a);
            let types2 = closure_m(space, types1, 0, CLOSURE_FUEL as nat);
            if children.len() == 0 {
                if types2.len() == 0 {
                    seq![undefined_m()]
                } else {
                    types2
                }
            } else {
                let actuals = actuals_m(space, children, 1);
                let fts = filter_funcs_m(grt_m(space, children[0]), true);
                let types3 = types2 + call_types_m(fts, actuals, 0);
                if fts.len() == 0 && types3.len() == 0 {
                    seq![undefined_m()]
                } else {
                    types3
                }
            }
        },
    }
}

#[via_fn]
proof fn grt_m_decreases(space: Seq<AtomM>, a: AtomM) {
    if a is Expr && a->children.len() > 0 {
        lemma_height_seq_elem(a->children, 0);
    }
}

/// Every element kept by the function-type filter is a function type.
pub proof fn lemma_filter_funcs_all(ts: Seq<AtomM>, keep_funcs: bool)
    ensures
        forall|i: int|
            0 <= i < filter_funcs_m(ts, keep_funcs).len() ==> is_func_m(
                #[trigger] filter_funcs_m(ts, keep_funcs)[i],
            ) == keep_funcs,
    decreases ts.len(),
{
    if ts.len() > 0 {
        lemma_filter_funcs_all(ts.drop_last(), keep_funcs);
        let r = filter_funcs_m(ts.drop_last(), keep_funcs);
        assert forall|i: int|
            0 <= i < filter_funcs_m(ts, keep_funcs).len() implies is_func_m(
            filter_funcs_m(ts, keep_funcs)[i],
        ) == keep_funcs by {
            if is_func_m(ts.last()) == keep_funcs {
                assert(filter_funcs_m(ts, keep_funcs) == r.push(ts.last()));
                if i < r.len() {
                    assert(filter_funcs_m(ts, keep_funcs)[i] == r[i]);
                } else {
                    assert(filter_funcs_m(ts, keep_funcs)[i] == ts.last());
                }
            } else {
                assert(filter_funcs_m(ts, keep_funcs) == r);
            }
        }
    }
}

/// Whether `t` is an expression with at least two children: an arrow, an
/// argument list (possibly empty), and a return type.
fn has_arrow_arity(t: &Atom) -> (r: bool)
    ensures
        r == (t.model() is Expr && t.model()->children.len() >= 2),
{
    match t {
        Atom::Expression(e) => {
            proof {
                lemma_models_of(e.children@);
            }
            e.children.len() >= 2
        },
        _ => false,
    }
}

/// The elements of `v` that are, or are not, function types, in order.
fn filter_funcs(v: &Vec<Atom>, keep_funcs: bool) -> (r: Vec<Atom>)
    ensures
        models_of(r@) == filter_funcs_m(models_of(v@), keep_funcs),
{
    let ghost vm = models_of(v@);
    let n = v.len();
    let mut out: Vec<Atom> = Vec::new();
    let mut i: usize = 0;
    proof {
        lemma_models_of(v@);
        assert(models_of(Seq::<Atom>::empty()) =~= Seq::<AtomM>::empty());
        assert(vm.take(0int) =~= Seq::<AtomM>::empty());
    }
    while i < n
        invariant
            n == v@.len(),
            i <= n,
            vm == models_of(v@),
            models_of(out@) == filter_funcs_m(vm.take(i as int), keep_funcs),
        decreases n - i,
    {
        proof {
            lemma_models_of(v@);
            assert(vm.take(i + 1).drop_last() =~= vm.take(i as int));
            assert(vm.take(i + 1).last() == vm[i as int]);
        }
        if is_func(&v[i]) == keep_funcs {
            let c = clone_atom(&v[i]);
            let ghost outp = out@;
            out.push(c);
            proof {
                assert(out@.drop_last() =~= outp);
                lemma_models_of(outp);
                lemma_models_of(out@);
                assert(models_of(out@) =~= models_of(outp).push(vm[i as int]));
            }
        }
        i = i + 1;
    }
    proof {
        assert(vm.take(n as int) =~= vm);
    }
    out
}

/// The partial tuples extended by each candidate type in turn.
fn cross_tuples(tuples: &Vec<Vec<Atom>>, cts: &Vec<Atom>) -> (r: Vec<Vec<Atom>>)
    ensures
        models2_of(r@) == cross_m(models2_of(tuples@), models_of(cts@)),
{
    let ghost tm = models2_of(tuples@);
    let ghost cm = models_of(cts@);
    let n = cts.len();
    let p_n = tuples.len();
    let mut out: Vec<Vec<Atom>> = Vec::new();
    let mut t: usize = 0;
    proof {
        lemma_models_of(cts@);
        lemma_models2_of(tuples@);
        assert(models2_of(Seq::<Vec<Atom>>::empty()) =~= Seq::<Seq<AtomM>>::empty());
        assert(cm.take(0int) =~= Seq::<AtomM>::empty());
    }
    while t < n
        invariant
            n == cts@.len(),
            p_n == tuples@.len(),
            t <= n,
            tm == models2_of(tuples@),
            cm == models_of(cts@),
            models2_of(out@) == cross_m(tm, cm.take(t as int)),
        decreases n - t,
    {
        proof {
            lemma_models_of(cts@);
            lemma_models2_of(tuples@);
            assert(cm.take(t + 1).drop_last() =~= cm.take(t as int));
            assert(cm.take(t + 1).last() == cm[t as int]);
            assert(tm.take(0int) =~= Seq::<Seq<AtomM>>::empty());
        }
        let typ = &cts[t];
        let mut p: usize = 0;
        while p < p_n
            invariant
                n == cts@.len(),
                p_n == tuples@.len(),
                t < n,
                p <= p_n,
                tm == models2_of(tuples@),
                cm == models_of(cts@),
                typ.model() == cm[t as int],
                models2_of(out@) == cross_m(tm, cm.take(t as int)) + map_push_m(
                    tm.take(p as int),
                    cm[t as int],
                ),
            decreases p_n - p,
        {
            proof {
                lemma_models2_of(tuples@);
                assert(tm.take(p + 1).drop_last() =~= tm.take(p as int));
                assert(tm.take(p + 1).last() == tm[p as int]);
            }
            let mut row = crate::atom::clone_atoms(&tuples[p]);
            let ghost rowp = row@;
            row.push(clone_atom(typ));
            proof {
                assert(row@.drop_last() =~= rowp);
                lemma_models_of(rowp);
                lemma_models_of(row@);
                assert(models_of(row@) =~= tm[p as int].push(cm[t as int]));
            }
            let ghost outp = out@;
            out.push(row);
            proof {
                lemma_models2_of_push(outp, out@.last());
                assert(out@.drop_last() =~= outp);
                assert(models2_of(out@) =~= cross_m(tm, cm.take(t as int)) + map_push_m(
                    tm.take(p + 1),
                    cm[t as int],
                ));
            }
            p = p + 1;
        }
        proof {
            assert(tm.take(p_n as int) =~= tm);
            assert(models2_of(out@) =~= cross_m(tm, cm.take(t + 1)));
        }
        t = t + 1;
    }
    proof {
        assert(cm.take(n as int) =~= cm);
    }
    out
}

/// Returns all types of the given atom in the context of the given
/// space; see `grt_m` for what the list holds.
pub fn get_reducted_types(space: &GroundingSpace, atom: &Atom) -> (r: Vec<Atom>)
    ensures
        models_of(r@) == grt_m(space.model(), atom.model()),
    decreases height_a(*atom),
{
    match atom {
        Atom::Variable(_) => {
            let mut out: Vec<Atom> = Vec::new();
            out.push(atom_type_undefined());
            proof {
                lemma_models_of(out@);
                assert(models_of(out@) =~= seq![undefined_m()]);
            }
            out
        },
        Atom::Grounded(g) => {
            let mut out: Vec<Atom> = Vec::new();
            out.push(g.type_());
            proof {
                lemma_models_of(out@);
                assert(models_of(out@) =~= seq![crate::atom::gnd_type_m(g.model())]);
            }
            out
        },
        Atom::Symbol(_) => {
            let mut types = query_types(space, atom);
            if types.len() == 0 {
                types.push(atom_type_undefined());
                proof {
                    lemma_models_of(types@);
                    assert(models_of(types@) =~= seq![undefined_m()]);
                }
            }
            types
        },
        Atom::Expression(e) => {
            let ghost sm = space.model();
            let ghost mch = models_of(e.children@);
            let n = e.children.len();
            proof {
                lemma_models_of(e.children@);
            }
            // tuple types: the product of the children's type sets
            let mut tuples: Vec<Vec<Atom>> = Vec::new();
            tuples.push(Vec::new());
            proof {
                lemma_models2_of(tuples@);
                assert(models2_of(tuples@) =~= seq![Seq::<AtomM>::empty()]);
            }
            let mut i: usize = 0;
            while i < n
                invariant
                    n == e.children@.len(),
                    i <= n,
                    *atom == Atom::Expression(*e),
                    sm == space.model(),
                    mch == models_of(e.children@),
                    tuples_m(sm, mch, 0, seq![Seq::<AtomM>::empty()]) == tuples_m(
                        sm,
                        mch,
                        i as int,
                        models2_of(tuples@),
                    ),
                decreases n - i,
            {
                proof {
                    lemma_child_height(e, i as int);
                    lemma_models_of(e.children@);
                }
                let cts0 = get_reducted_types(space, &e.children[i]);
                let filtered = if i == 0 {
                    filter_funcs(&cts0, false)
                } else {
                    cts0
                };
                let crossed = cross_tuples(&tuples, &filtered);
                tuples = crossed;
                i = i + 1;
            }
            let ghost tuples_final = tuples_m(sm, mch, 0, seq![Seq::<AtomM>::empty()]);
            proof {
                assert(tuples_final == models2_of(tuples@));
            }
            // keep the tuples with a concrete component, as expression types
            let mut types: Vec<Atom> = Vec::new();
            let t_n = tuples.len();
            let mut t: usize = 0;
            proof {
                lemma_models2_of(tuples@);
                assert(models_of(Seq::<Atom>::empty()) =~= Seq::<AtomM>::empty());
                assert(models2_of(tuples@).take(0int) =~= Seq::<Seq<AtomM>>::empty());
            }
            while t < t_n
                invariant
                    t_n == tuples@.len(),
                    t <= t_n,
                    tuples_final == models2_of(tuples@),
                    models_of(types@) == keep_tuples_m(models2_of(tuples@).take(t as int)),
                decreases t_n - t,
            {
                proof {
                    lemma_models2_of(tuples@);
                    assert(models2_of(tuples@).take(t + 1).drop_last() =~= models2_of(
                        tuples@,
                    ).take(t as int));
                    assert(models2_of(tuples@).take(t + 1).last() == models2_of(tuples@)[t as int]);
                }
                let row = &tuples[t];
                let und = Atom::sym("%Undefined%");
                let r_n = row.len();
                let mut k: usize = 0;
                let mut concrete = false;
                proof {
                    lemma_models_of(row@);
                }
                while k < r_n
                    invariant
                        r_n == row@.len(),
                        k <= r_n,
                        models_of(row@) == models2_of(tuples@)[t as int],
                        t < tuples@.len(),
                        und.model() == undefined_m(),
                        concrete == exists|q: int|
                            0 <= q < k && models_of(row@)[q] != undefined_m(),
                    decreases r_n - k,
                {
                    proof {
                        lemma_models_of(row@);
                    }
                    if !eq_atoms(&row[k], &und) {
                        proof {
                            assert(models_of(row@)[k as int] != undefined_m());
                        }
                        concrete = true;
                    }
                    k = k + 1;
                }
                proof {
                    assert(concrete == has_concrete_m(models2_of(tuples@)[t as int]));
                }
                if concrete {
                    let row_c = crate::atom::clone_atoms(row);
                    let ghost typesp = types@;
                    types.push(Atom::expr(row_c));
                    proof {
                        assert(types@.drop_last() =~= typesp);
                        lemma_models_of(typesp);
                        lemma_models_of(types@);
                        assert(models_of(types@) =~= models_of(typesp).push(
                            AtomM::Expr { children: models2_of(tuples@)[t as int] },
                        ));
                    }
                }
                proof {
                    assert(models_of(types@) == keep_tuples_m(models2_of(tuples@).take(t + 1)));
                }
                t = t + 1;
            }
            proof {
                assert(models2_of(tuples@).take(t_n as int) =~= models2_of(tuples@));
            }
            let ghost kept = keep_tuples_m(tuples_final);
            // the asserted types, then the closure over super-types
            let qt = query_types(space, atom);
            let q_n = qt.len();
            let mut q: usize = 0;
            proof {
                lemma_models_of(qt@);
                assert(models_of(qt@).take(0int) =~= Seq::<AtomM>::empty());
                assert(models_of(types@) =~= kept + models_of(qt@).take(0int));
            }
            while q < q_n
                invariant
                    q_n == qt@.len(),
                    q <= q_n,
                    kept == keep_tuples_m(tuples_final),
                    models_of(types@) == kept + models_of(qt@).take(q as int),
                decreases q_n - q,
            {
                proof {
                    lemma_models_of(qt@);
                }
                let c = clone_atom(&qt[q]);
                let ghost typesp = types@;
                types.push(c);
                proof {
                    assert(types@.drop_last() =~= typesp);
                    lemma_models_of(typesp);
                    lemma_models_of(types@);
                    assert(models_of(qt@).take(q + 1) =~= models_of(qt@).take(q as int).push(
                        models_of(qt@)[q as int],
                    ));
                    assert(models_of(types@) =~= kept + models_of(qt@).take(q + 1));
                }
                q = q + 1;
            }
            proof {
                assert(models_of(qt@).take(q_n as int) =~= models_of(qt@));
            }
            let ghost types1 = kept + spec_query_types(sm, atom.model());
            proof {
                assert(models_of(types@) == types1);
            }
            add_super_types(space, &mut types, 0);
            let ghost types2 = closure_m(sm, types1, 0, CLOSURE_FUEL as nat);
            proof {
                assert(models_of(types@) == types2);
            }
            if n == 0 {
                if types.len() == 0 {
                    types.push(atom_type_undefined());
                    proof {
                        lemma_models_of(types@);
                        assert(models_of(types@) =~= seq![undefined_m()]);
                    }
                }
                return types;
            }
            // function-call types
            let mut actuals: Vec<Vec<Atom>> = Vec::new();
            let mut ai: usize = 1;
            proof {
                lemma_models2_of(actuals@);
                assert(models2_of(Seq::<Vec<Atom>>::empty()) =~= Seq::<Seq<AtomM>>::empty());
            }
            while ai < n
                invariant
                    n == e.children@.len(),
                    n >= 1,
                    1 <= ai <= n,
                    *atom == Atom::Expression(*e),
                    sm == space.model(),
                    mch == models_of(e.children@),
                    actuals_m(sm, mch, 1) == models2_of(actuals@) + actuals_m(sm, mch, ai as int),
                decreases n - ai,
            {
                proof {
                    lemma_child_height(e, ai as int);
                    lemma_models_of(e.children@);
                }
                let child = &e.children[ai];
                let mut ats = get_reducted_types(space, child);
                let ghost atsp = ats@;
                ats.push(Atom::sym("Atom"));
                let ghost atsp2 = ats@;
                ats.push(get_meta_type(child));
                proof {
                    assert(atsp2.drop_last() =~= atsp);
                    assert(ats@.drop_last() =~= atsp2);
                    lemma_models_of(atsp);
                    lemma_models_of(atsp2);
                    lemma_models_of(ats@);
                    assert(models_of(ats@) =~= grt_m(sm, mch[ai as int]) + seq![
                        atom_sym_m(),
                        meta_type_m(mch[ai as int]),
                    ]);
                }
                let ghost actsp = actuals@;
                actuals.push(ats);
                proof {
                    lemma_models2_of_push(actsp, actuals@.last());
                    assert(actuals@.drop_last() =~= actsp);
                    assert(models2_of(actuals@) + actuals_m(sm, mch, ai + 1) =~= models2_of(actsp)
                        + actuals_m(sm, mch, ai as int));
                }
                ai = ai + 1;
            }
            proof {
                assert(actuals_m(sm, mch, n as int) =~= Seq::<Seq<AtomM>>::empty());
                assert(models2_of(actuals@) + actuals_m(sm, mch, n as int) =~= models2_of(
                    actuals@,
                ));
                assert(models2_of(actuals@) == actuals_m(sm, mch, 1));
            }
            proof {
                lemma_child_height(e, 0int);
                lemma_models_of(e.children@);
            }
            let all0 = get_reducted_types(space, &e.children[0]);
            let fts = filter_funcs(&all0, true);
            let only_tuple = fts.len() == 0;
            let ghost all0m = models_of(all0@);
            let ghost ftsm = models_of(fts@);
            let ghost actsm = models2_of(actuals@);
            let f_n = fts.len();
            let mut fk: usize = 0;
            proof {
                lemma_models_of(fts@);
                assert(models_of(types@) == types2);
            }
            while fk < f_n
                invariant
                    f_n == fts@.len(),
                    fk <= f_n,
                    ftsm == models_of(fts@),
                    ftsm == filter_funcs_m(all0m, true),
                    actsm == models2_of(actuals@),
                    types2 + call_types_m(ftsm, actsm, 0) == models_of(types@) + call_types_m(
                        ftsm,
                        actsm,
                        fk as int,
                    ),
                decreases f_n - fk,
            {
                proof {
                    lemma_models_of(fts@);
                    lemma_filter_funcs_all(all0m, true);
                    assert(is_func_m(ftsm[fk as int]));
                }
                let ft = &fts[fk];
                if has_arrow_arity(ft) {
                    let split = get_arg_types(ft);
                    let exp_args = split.0;
                    let ret = split.1;
                    let mut bb = Bindings::new();
                    let ok = check_types(&actuals, &exp_args, &mut bb);
                    proof {
                        assert(models_of(exp_args@) == arg_types_m(ftsm[fk as int]));
                    }
                    if ok {
                        let applied = crate::matcher::apply_bindings_to_atom(&ret, &bb);
                        let ghost typesp = types@;
                        types.push(applied);
                        proof {
                            assert(types@.drop_last() =~= typesp);
                            lemma_models_of(typesp);
                            lemma_models_of(types@);
                            assert(models_of(types@) =~= models_of(typesp).push(
                                apply_m(
                                    ret_type_m(ftsm[fk as int]),
                                    ct_pos_m(
                                        actsm,
                                        arg_types_m(ftsm[fk as int]),
                                        0,
                                        Seq::empty(),
                                    ).1,
                                    MATCH_FUEL as nat,
                                ),
                            ));
                        }
                    }
                }
                proof {
                    assert(types2 + call_types_m(ftsm, actsm, 0) == models_of(types@)
                        + call_types_m(ftsm, actsm, fk + 1));
                }
                fk = fk + 1;
            }
            proof {
                assert(call_types_m(ftsm, actsm, f_n as int) =~= Seq::<AtomM>::empty());
                assert(models_of(types@) + call_types_m(ftsm, actsm, f_n as int) =~= models_of(
                    types@,
                ));
                assert(types2 + call_types_m(ftsm, actsm, 0) =~= models_of(types@));
            }
            if only_tuple && types.len() == 0 {
                types.push(atom_type_undefined());
                proof {
                    lemma_models_of(types@);
                    assert(models_of(types@) =~= seq![undefined_m()]);
                }
            }
            proof {
                lemma_models_of(types@);
            }
            types
        },
    }
}

/// Returns the vector of types for the given atom in the context of the
/// given space.
pub fn get_atom_types(space: &GroundingSpace, atom: &Atom) -> (r: Vec<Atom>)
    ensures
        models_of(r@) == grt_m(space.model(), atom.model()),
{
    get_reducted_types(space, atom)
}

/// Returns true when the atom is typed correctly: it has at least one
/// type. An expression whose head is function-typed but whose every call
/// is ill-typed has none.
pub fn validate_atom(space: &GroundingSpace, atom: &Atom) -> (r: bool)
    ensures
        r == (grt_m(space.model(), atom.model()).len() > 0),
{
    let types = get_reducted_types(space, atom);
    proof {
        lemma_models_of(types@);
    }
    types.len() > 0
}

// ------------------------------------------------------------------
// Matching an atom's types against a requested type
// ------------------------------------------------------------------

/// The models of a vector of type/bindings pairs.
pub open spec fn tb_models_of(s: Seq<(Atom, Bindings)>) -> Seq<(AtomM, BindsM)>
    decreases s,
{
    if s.len() == 0 {
        Seq::empty()
    } else {
        tb_models_of(s.drop_last()).push((s.last().0.model(), s.last().1.model()))
    }
}

pub proof fn lemma_tb_models_of(s: Seq<(Atom, Bindings)>)
    ensures
        tb_models_of(s).len() == s.len(),
        forall|i: int|
            0 <= i < s.len() ==> #[trigger] tb_models_of(s)[i] == (
                s[i].0.model(),
                s[i].1.model(),
            ),
    decreases s.len(),
{
    if s.len() > 0 {
        lemma_tb_models_of(s.drop_last());
    }
}

/// The id offset that renames the variables of a found type away from the
/// variables of the requested type.
pub open spec fn mt_base(ty: AtomM, t: AtomM) -> nat {
    let m = if max_id_m(ty) > max_id_m(t) {
        max_id_m(ty)
    } else {
        max_id_m(t)
    };
    if m + 1 <= u64::MAX {
        m + 1
    } else {
        m
    }
}

/// The types among `ts` that match `t`, each with fresh variables and the
/// bindings its match produced.
pub open spec fn matched_of_m(ts: Seq<AtomM>, t: AtomM) -> Seq<(AtomM, BindsM)>
    decreases ts.len(),
{
    if ts.len() == 0 {
        Seq::empty()
    } else {
        let rest = matched_of_m(ts.drop_last(), t);
        let tu = rename_m(ts.last(), mt_base(ts.last(), t));
        let r = spec_mrt(tu, t, Seq::empty());
        if r.0 {
            rest.push((tu, r.1))
        } else {
            rest
        }
    }
}

/// The types of `a` that match `t`, with the bindings of each match.
pub open spec fn spec_matched_types(space: Seq<AtomM>, a: AtomM, t: AtomM) -> Seq<(AtomM, BindsM)> {
    matched_of_m(grt_m(space, a), t)
}

/// The types of `atom` that match `typ`: each type is taken with fresh
/// variables, so that the requested type's variables cannot be captured,
/// and returned with the bindings its match produced.
fn get_matched_types(space: &GroundingSpace, atom: &Atom, typ: &Atom) -> (r: Vec<(Atom, Bindings)>)
    ensures
        tb_models_of(r@) == spec_matched_types(space.model(), atom.model(), typ.model()),
{
    let types = get_reducted_types(space, atom);
    let ghost tsm = models_of(types@);
    let n = types.len();
    let mut out: Vec<(Atom, Bindings)> = Vec::new();
    let mut i: usize = 0;
    proof {
        lemma_models_of(types@);
        assert(tb_models_of(Seq::<(Atom, Bindings)>::empty()) =~= Seq::<(AtomM, BindsM)>::empty());
        assert(tsm.take(0int) =~= Seq::<AtomM>::empty());
    }
    while i < n
        invariant
            n == types@.len(),
            i <= n,
            tsm == models_of(types@),
            tb_models_of(out@) == matched_of_m(tsm.take(i as int), typ.model()),
        decreases n - i,
    {
        proof {
            lemma_models_of(types@);
            assert(tsm.take(i + 1).drop_last() =~= tsm.take(i as int));
            assert(tsm.take(i + 1).last() == tsm[i as int]);
        }
        let ty = &types[i];
        let tid = max_var_id(ty);
        let qid = max_var_id(typ);
        let m = if tid > qid {
            tid
        } else {
            qid
        };
        let base: u64 = if m < u64::MAX {
            m + 1
        } else {
            m
        };
        proof {
            assert(base as nat == mt_base(tsm[i as int], typ.model()));
        }
        let tu = rename_offset(ty, base);
        let mut bindings = Bindings::new();
        if match_reducted_types(&tu, typ, &mut bindings) {
            let ghost outp = out@;
            out.push((tu, bindings));
            proof {
                assert(out@.drop_last() =~= outp);
                assert(tb_models_of(out@) == tb_models_of(outp).push(
                    (out@.last().0.model(), out@.last().1.model()),
                ));
            }
        }
        proof {
            assert(tb_models_of(out@) == matched_of_m(tsm.take(i + 1), typ.model()));
        }
        i = i + 1;
    }
    proof {
        assert(tsm.take(n as int) =~= tsm);
    }
    out
}

/// Whether `t` is a type of `a`: a meta-type accepted by `a`'s kind, or a
/// type of `a` that matches `t`.
pub open spec fn spec_check_type(space: Seq<AtomM>, a: AtomM, t: AtomM) -> bool {
    check_meta_m(a, t) || spec_matched_types(space, a, t).len() > 0
}

/// Checks whether the atom has the given type in the context of the given
/// space.
pub fn check_type(space: &GroundingSpace, atom: &Atom, typ: &Atom) -> (r: bool)
    ensures
        r == spec_check_type(space.model(), atom.model(), typ.model()),
{
    if check_meta_type(atom, typ) {
        return true;
    }
    let matched = get_matched_types(space, atom, typ);
    proof {
        lemma_tb_models_of(matched@);
    }
    matched.len() > 0
}

/// The pairs whose type is not `%Undefined%`.
pub open spec fn keep_concrete_pairs_m(s: Seq<(AtomM, BindsM)>) -> Seq<(AtomM, BindsM)>
    decreases s.len(),
{
    if s.len() == 0 {
        Seq::empty()
    } else {
        let r = keep_concrete_pairs_m(s.drop_last());
        if s.last().0 != undefined_m() {
            r.push(s.last())
        } else {
            r
        }
    }
}

/// The types of `a` that match `t`, with their bindings: a meta-type
/// accepted by `a` counts as the requested type itself; when more than
/// one pair is found, the `%Undefined%` entries are dropped.
pub open spec fn spec_type_bindings(space: Seq<AtomM>, a: AtomM, t: AtomM) -> Seq<(AtomM, BindsM)> {
    let base: Seq<(AtomM, BindsM)> = if check_meta_m(a, t) {
        seq![(t, Seq::<(VarM, AtomM)>::empty())]
    } else {
        Seq::empty()
    };
    let all = base + spec_matched_types(space, a, t);
    if all.len() > 1 {
        keep_concrete_pairs_m(all)
    } else {
        all
    }
}

/// Finds all types of `atom` that match `typ`, with the type-parameter
/// bindings of each match.
pub fn get_type_bindings(space: &GroundingSpace, atom: &Atom, typ: &Atom) -> (r: Vec<(
    Atom,
    Bindings,
)>)
    ensures
        tb_models_of(r@) == spec_type_bindings(space.model(), atom.model(), typ.model()),
{
    let mut result: Vec<(Atom, Bindings)> = Vec::new();
    if check_meta_type(atom, typ) {
        result.push((clone_atom(typ), Bindings::new()));
    }
    let ghost basem = tb_models_of(result@);
    proof {
        assert(tb_models_of(Seq::<(Atom, Bindings)>::empty()) =~= Seq::<(AtomM, BindsM)>::empty());
        if check_meta_m(atom.model(), typ.model()) {
            assert(result@.drop_last() =~= Seq::<(Atom, Bindings)>::empty());
            assert(basem =~= seq![(typ.model(), Seq::<(VarM, AtomM)>::empty())]);
        }
    }
    let mut matched = get_matched_types(space, atom, typ);
    let ghost matchedm = tb_models_of(matched@);
    let m_n = matched.len();
    let mut i: usize = 0;
    proof {
        lemma_tb_models_of(matched@);
        assert(matchedm.take(0int) =~= Seq::<(AtomM, BindsM)>::empty());
        assert(tb_models_of(result@) =~= basem + matchedm.take(0int));
    }
    while i < m_n
        invariant
            m_n == matched@.len(),
            i <= m_n,
            matchedm == tb_models_of(matched@),
            tb_models_of(result@) == basem + matchedm.take(i as int),
        decreases m_n - i,
    {
        proof {
            lemma_tb_models_of(matched@);
            assert(matchedm.take(i + 1).drop_last() =~= matchedm.take(i as int));
            assert(matchedm.take(i + 1).last() == matchedm[i as int]);
        }
        let p = &matched[i];
        let c = (clone_atom(&p.0), p.1.clone());
        let ghost resultp = result@;
        result.push(c);
        proof {
            assert(result@.drop_last() =~= resultp);
            assert(tb_models_of(result@) == tb_models_of(resultp).push(
                (result@.last().0.model(), result@.last().1.model()),
            ));
            assert(tb_models_of(result@) =~= basem + matchedm.take(i + 1));
        }
        i = i + 1;
    }
    proof {
        assert(matchedm.take(m_n as int) =~= matchedm);
    }
    let ghost allm = basem + matchedm;
    proof {
        assert(tb_models_of(result@) == allm);
    }
    if result.len() > 1 {
        let und = Atom::sym("%Undefined%");
        let r_n = result.len();
        let mut filtered: Vec<(Atom, Bindings)> = Vec::new();
        let mut k: usize = 0;
        proof {
            lemma_tb_models_of(result@);
            assert(tb_models_of(Seq::<(Atom, Bindings)>::empty()) =~= Seq::<
                (AtomM, BindsM),
            >::empty());
            assert(allm.take(0int) =~= Seq::<(AtomM, BindsM)>::empty());
        }
        while k < r_n
            invariant
                r_n == result@.len(),
                k <= r_n,
                allm == tb_models_of(result@),
                und.model() == undefined_m(),
                tb_models_of(filtered@) == keep_concrete_pairs_m(allm.take(k as int)),
            decreases r_n - k,
        {
            proof {
                lemma_tb_models_of(result@);
                assert(allm.take(k + 1).drop_last() =~= allm.take(k as int));
                assert(allm.take(k + 1).last() == allm[k as int]);
            }
            let p = &result[k];
            if !eq_atoms(&p.0, &und) {
                let c = (clone_atom(&p.0), p.1.clone());
                let ghost filteredp = filtered@;
                filtered.push(c);
                proof {
                    assert(filtered@.drop_last() =~= filteredp);
                    assert(tb_models_of(filtered@) == tb_models_of(filteredp).push(
                        (filtered@.last().0.model(), filtered@.last().1.model()),
                    ));
                }
            }
            proof {
                assert(tb_models_of(filtered@) == keep_concrete_pairs_m(allm.take(k + 1)));
            }
            k = k + 1;
        }
        proof {
            assert(allm.take(r_n as int) =~= allm);
        }
        return filtered;
    }
    proof {
        lemma_tb_models_of(result@);
    }
    result
}

} // verus!
