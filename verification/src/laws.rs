//! The laws of the core, each stated and proved over the models that the
//! executable functions' contracts speak of.

use vstd::prelude::*;

use crate::atom::{height_m, height_seq_m, lemma_height_seq_elem, AtomM, VarM};
use crate::matcher::{
    add_binding_m, apply_kids_m, apply_m, lookup_m, match_kids_m, match_m, max_id_kids_m, max_id_m,
    occurs_kids_m, occurs_m, rename_kids_m, rename_m, spec_match, BindsM, MATCH_FUEL,
};
use crate::space::spec_query;

verus! {

// ------------------------------------------------------------------
// Classes of atoms
// ------------------------------------------------------------------

/// No variables anywhere.
pub open spec fn ground_m(m: AtomM) -> bool
    decreases height_m(m), 1nat, 0nat,
{
    match m {
        AtomM::Var { .. } => false,
        AtomM::Expr { children } => ground_kids_m(children, 0),
        _ => true,
    }
}

pub open spec fn ground_kids_m(s: Seq<AtomM>, i: int) -> bool
    decreases 1 + height_seq_m(s), 0nat, s.len() - i,
    via ground_kids_m_decreases
{
    if i < 0 || i >= s.len() {
        true
    } else {
        ground_m(s[i]) && ground_kids_m(s, i + 1)
    }
}

#[via_fn]
proof fn ground_kids_m_decreases(s: Seq<AtomM>, i: int) {
    if 0 <= i < s.len() {
        lemma_height_seq_elem(s, i);
    }
}

/// No occurrence of the internal `%Undefined%` matching sentinel.
pub open spec fn sentinel_free_m(m: AtomM) -> bool
    decreases height_m(m), 1nat, 0nat,
{
    match m {
        AtomM::Gnd { g } => !(g is UndefinedTypeMatch),
        AtomM::Expr { children } => sentinel_free_kids_m(children, 0),
        _ => true,
    }
}

pub open spec fn sentinel_free_kids_m(s: Seq<AtomM>, i: int) -> bool
    decreases 1 + height_seq_m(s), 0nat, s.len() - i,
    via sentinel_free_kids_m_decreases
{
    if i < 0 || i >= s.len() {
        true
    } else {
        sentinel_free_m(s[i]) && sentinel_free_kids_m(s, i + 1)
    }
}

#[via_fn]
proof fn sentinel_free_kids_m_decreases(s: Seq<AtomM>, i: int) {
    if 0 <= i < s.len() {
        lemma_height_seq_elem(s, i);
    }
}

/// No variables and no matching sentinel: such an atom unifies with
/// another such atom exactly when the two are equal.
pub open spec fn rigid_m(m: AtomM) -> bool {
    ground_m(m) && sentinel_free_m(m)
}

/// Built from symbols and expressions alone.
pub open spec fn symbolic_m(m: AtomM) -> bool
    decreases height_m(m), 1nat, 0nat,
{
    match m {
        AtomM::Sym { .. } => true,
        AtomM::Expr { children } => symbolic_kids_m(children, 0),
        _ => false,
    }
}

pub open spec fn symbolic_kids_m(s: Seq<AtomM>, i: int) -> bool
    decreases 1 + height_seq_m(s), 0nat, s.len() - i,
    via symbolic_kids_m_decreases
{
    if i < 0 || i >= s.len() {
        true
    } else {
        symbolic_m(s[i]) && symbolic_kids_m(s, i + 1)
    }
}

#[via_fn]
proof fn symbolic_kids_m_decreases(s: Seq<AtomM>, i: int) {
    if 0 <= i < s.len() {
        lemma_height_seq_elem(s, i);
    }
}

/// Unfolds a kid-wise predicate scan into element facts.
proof fn lemma_ground_kids_elem(s: Seq<AtomM>, i: int, j: int)
    requires
        0 <= i <= j < s.len(),
        ground_kids_m(s, i),
    ensures
        ground_m(s[j]),
        ground_kids_m(s, j),
    decreases j - i,
{
    if i < j {
        lemma_ground_kids_elem(s, i + 1, j);
    }
}

proof fn lemma_sentinel_free_kids_elem(s: Seq<AtomM>, i: int, j: int)
    requires
        0 <= i <= j < s.len(),
        sentinel_free_kids_m(s, i),
    ensures
        sentinel_free_m(s[j]),
        sentinel_free_kids_m(s, j),
    decreases j - i,
{
    if i < j {
        lemma_sentinel_free_kids_elem(s, i + 1, j);
    }
}
/// A symbolic atom is rigid.
pub proof fn lemma_symbolic_rigid(m: AtomM)
    requires
        symbolic_m(m),
    ensures
        rigid_m(m),
    decreases height_m(m), 1nat, 0nat,
{
    match m {
        AtomM::Expr { children } => {
            lemma_symbolic_rigid_kids(children, 0);
        },
        _ => {},
    }
}

proof fn lemma_symbolic_rigid_kids(s: Seq<AtomM>, i: int)
    requires
        symbolic_kids_m(s, i),
    ensures
        ground_kids_m(s, i),
        sentinel_free_kids_m(s, i),
    decreases 1 + height_seq_m(s), 0nat, s.len() - i,
{
    if 0 <= i < s.len() {
        lemma_height_seq_elem(s, i);
        lemma_symbolic_rigid(s[i]);
        lemma_symbolic_rigid_kids(s, i + 1);
    }
}

// ------------------------------------------------------------------
// Ground atoms under the matcher's operations
// ------------------------------------------------------------------

/// Substitution does not change a ground atom.
pub proof fn lemma_apply_ground(m: AtomM, b: BindsM, fuel: nat)
    requires
        ground_m(m),
    ensures
        apply_m(m, b, fuel) == m,
    decreases height_m(m), 1nat, 0nat,
{
    match m {
        AtomM::Expr { children } => {
            lemma_apply_ground_kids(children, children.len() as int, b, fuel);
            assert(apply_kids_m(children, b, fuel) =~= children);
        },
        _ => {},
    }
}

/// Element-wise: substitution keeps the first `i` elements of a ground
/// prefix.
proof fn lemma_apply_ground_kids(s: Seq<AtomM>, i: int, b: BindsM, fuel: nat)
    requires
        ground_kids_m(s, 0),
        0 <= i <= s.len(),
    ensures
        apply_kids_m(s, b, fuel).len() == s.len(),
        forall|j: int| 0 <= j < i ==> apply_kids_m(s, b, fuel)[j] == s[j],
    decreases 1 + height_seq_m(s), 0nat, i,
{
    crate::matcher::lemma_apply_kids_m(s, b, fuel);
    if i > 0 {
        lemma_height_seq_elem(s, i - 1);
        lemma_apply_ground_kids(s, i - 1, b, fuel);
        lemma_ground_kids_elem(s, 0, i - 1);
        lemma_apply_ground(s[i - 1], b, fuel);
    }
}

/// No variable occurs in a ground atom.
pub proof fn lemma_occurs_ground(m: AtomM, v: VarM)
    requires
        ground_m(m),
    ensures
        !occurs_m(m, v),
    decreases height_m(m), 1nat, 0nat,
{
    match m {
        AtomM::Expr { children } => {
            lemma_occurs_ground_kids(children, children.len() as int, v);
        },
        _ => {},
    }
}

proof fn lemma_occurs_ground_kids(s: Seq<AtomM>, i: int, v: VarM)
    requires
        ground_kids_m(s, 0),
        0 <= i <= s.len(),
    ensures
        !occurs_kids_m(s, v, i),
    decreases 1 + height_seq_m(s), 0nat, i,
{
    if i > 0 {
        lemma_height_seq_elem(s, i - 1);
        lemma_occurs_ground_kids(s, i - 1, v);
        lemma_ground_kids_elem(s, 0, i - 1);
        lemma_occurs_ground(s[i - 1], v);
    }
}

/// Renaming does not change a ground atom.
pub proof fn lemma_rename_ground(m: AtomM, base: nat)
    requires
        ground_m(m),
    ensures
        rename_m(m, base) == m,
    decreases height_m(m), 1nat, 0nat,
{
    match m {
        AtomM::Expr { children } => {
            lemma_rename_ground_kids(children, children.len() as int, base);
            assert(rename_kids_m(children, base) =~= children);
        },
        _ => {},
    }
}

proof fn lemma_rename_ground_kids(s: Seq<AtomM>, i: int, base: nat)
    requires
        ground_kids_m(s, 0),
        0 <= i <= s.len(),
    ensures
        rename_kids_m(s, base).len() == s.len(),
        forall|j: int| 0 <= j < i ==> rename_kids_m(s, base)[j] == s[j],
    decreases 1 + height_seq_m(s), 0nat, i,
{
    crate::matcher::lemma_rename_kids_m(s, base);
    if i > 0 {
        lemma_height_seq_elem(s, i - 1);
        lemma_rename_ground_kids(s, i - 1, base);
        lemma_ground_kids_elem(s, 0, i - 1);
        lemma_rename_ground(s[i - 1], base);
    }
}

/// The inverse renaming does not change a ground atom either.
pub proof fn lemma_unrename_ground(m: AtomM, base: nat)
    requires
        ground_m(m),
    ensures
        crate::matcher::unrename_m(m, base) == m,
    decreases height_m(m), 1nat, 0nat,
{
    match m {
        AtomM::Expr { children } => {
            lemma_unrename_ground_kids(children, children.len() as int, base);
            assert(crate::matcher::unrename_kids_m(children, base) =~= children);
        },
        _ => {},
    }
}

proof fn lemma_unrename_ground_kids(s: Seq<AtomM>, i: int, base: nat)
    requires
        ground_kids_m(s, 0),
        0 <= i <= s.len(),
    ensures
        crate::matcher::unrename_kids_m(s, base).len() == s.len(),
        forall|j: int| 0 <= j < i ==> crate::matcher::unrename_kids_m(s, base)[j] == s[j],
    decreases 1 + height_seq_m(s), 0nat, i,
{
    crate::matcher::lemma_unrename_kids_m(s, base);
    if i > 0 {
        lemma_height_seq_elem(s, i - 1);
        lemma_unrename_ground_kids(s, i - 1, base);
        lemma_ground_kids_elem(s, 0, i - 1);
        lemma_unrename_ground(s[i - 1], base);
    }
}

/// A ground atom holds no variable ids.
pub proof fn lemma_max_id_ground(m: AtomM)
    requires
        ground_m(m),
    ensures
        max_id_m(m) == 0,
    decreases height_m(m), 1nat, 0nat,
{
    match m {
        AtomM::Expr { children } => {
            lemma_max_id_ground_kids(children, children.len() as int);
            assert(children.take(children.len() as int) =~= children);
        },
        _ => {},
    }
}

proof fn lemma_max_id_ground_kids(s: Seq<AtomM>, i: int)
    requires
        ground_kids_m(s, 0),
        0 <= i <= s.len(),
    ensures
        max_id_kids_m(s.take(i)) == 0,
    decreases 1 + height_seq_m(s), 0nat, i,
{
    if i > 0 {
        lemma_height_seq_elem(s, i - 1);
        lemma_max_id_ground_kids(s, i - 1);
        lemma_ground_kids_elem(s, 0, i - 1);
        lemma_max_id_ground(s[i - 1]);
        assert(s.take(i).drop_last() =~= s.take(i - 1));
        assert(s.take(i).last() == s[i - 1]);
    } else {
        assert(s.take(0int) =~= Seq::<AtomM>::empty());
    }
}

/// Collecting variables over a ground atom collects nothing.
pub proof fn lemma_vars_ground(m: AtomM, acc: Seq<VarM>)
    requires
        ground_m(m),
    ensures
        crate::matcher::add_vars_m(m, acc) == acc,
    decreases height_m(m), 1nat, 0nat,
{
    match m {
        AtomM::Expr { children } => {
            lemma_vars_ground_kids(children, 0, acc);
        },
        _ => {},
    }
}

proof fn lemma_vars_ground_kids(s: Seq<AtomM>, i: int, acc: Seq<VarM>)
    requires
        ground_kids_m(s, 0),
        0 <= i <= s.len(),
    ensures
        crate::matcher::add_vars_kids_m(s, i, acc) == acc,
    decreases 1 + height_seq_m(s), 0nat, s.len() - i,
{
    if i < s.len() {
        lemma_height_seq_elem(s, i);
        lemma_ground_kids_elem(s, 0, i);
        lemma_vars_ground(s[i], acc);
        lemma_vars_ground_kids(s, i + 1, acc);
    }
}

// ------------------------------------------------------------------
// Matching ground atoms
// ------------------------------------------------------------------

/// A ground atom matches itself and leaves the bindings unchanged.
pub proof fn lemma_match_refl(m: AtomM, b: BindsM, fuel: nat)
    requires
        ground_m(m),
    ensures
        match_m(m, m, b, fuel) == Some(b),
    decreases height_m(m), 1nat, 0nat,
{
    match m {
        AtomM::Expr { children } => {
            lemma_match_refl_kids(children, 0, b, fuel);
        },
        _ => {},
    }
}

proof fn lemma_match_refl_kids(s: Seq<AtomM>, i: int, b: BindsM, fuel: nat)
    requires
        ground_kids_m(s, 0),
        0 <= i <= s.len(),
    ensures
        match_kids_m(s, s, i, b, fuel) == Some(b),
    decreases 1 + height_seq_m(s), 0nat, s.len() - i,
{
    if i < s.len() {
        lemma_height_seq_elem(s, i);
        lemma_ground_kids_elem(s, 0, i);
        lemma_match_refl(s[i], b, fuel);
        lemma_match_refl_kids(s, i + 1, b, fuel);
    }
}

/// Two rigid atoms match exactly when they are equal, and the match adds
/// no bindings.
pub proof fn lemma_match_rigid(l: AtomM, r: AtomM, b: BindsM, fuel: nat)
    requires
        rigid_m(l),
        rigid_m(r),
    ensures
        match_m(l, r, b, fuel) == if l == r {
            Some(b)
        } else {
            None::<BindsM>
        },
    decreases height_m(l) + height_m(r), 1nat, 0nat,
{
    if l == r {
        lemma_match_refl(l, b, fuel);
    } else {
        match (l, r) {
            (AtomM::Expr { children: xs }, AtomM::Expr { children: ys }) => {
                if xs.len() == ys.len() {
                    lemma_match_rigid_kids(xs, ys, 0, b, fuel);
                    if forall|j: int| 0 <= j < xs.len() ==> xs[j] == #[trigger] ys[j] {
                        assert(xs =~= ys);
                    }
                }
            },
            _ => {},
        }
    }
}

/// Kid-wise: rigid children match from position `i` on exactly when they
/// agree from position `i` on.
proof fn lemma_match_rigid_kids(xs: Seq<AtomM>, ys: Seq<AtomM>, i: int, b: BindsM, fuel: nat)
    requires
        ground_kids_m(xs, 0),
        sentinel_free_kids_m(xs, 0),
        ground_kids_m(ys, 0),
        sentinel_free_kids_m(ys, 0),
        xs.len() == ys.len(),
        0 <= i <= xs.len(),
    ensures
        match_kids_m(xs, ys, i, b, fuel) == if forall|j: int| i <= j < xs.len() ==> xs[j]
            == #[trigger] ys[j] {
            Some(b)
        } else {
            None::<BindsM>
        },
    decreases 1 + height_seq_m(xs) + height_seq_m(ys), 0nat, xs.len() - i,
{
    if i < xs.len() {
        lemma_height_seq_elem(xs, i);
        lemma_height_seq_elem(ys, i);
        lemma_ground_kids_elem(xs, 0, i);
        lemma_sentinel_free_kids_elem(xs, 0, i);
        lemma_ground_kids_elem(ys, 0, i);
        lemma_sentinel_free_kids_elem(ys, 0, i);
        lemma_match_rigid(xs[i], ys[i], b, fuel);
        if xs[i] == ys[i] {
            lemma_match_rigid_kids(xs, ys, i + 1, b, fuel);
        }
    }
}

/// Match symmetry: for symbols and expressions without variables,
/// matching in either direction succeeds exactly when the two atoms are
/// structurally equal.
pub proof fn lemma_match_symmetry(a: AtomM, b: AtomM)
    requires
        symbolic_m(a),
        symbolic_m(b),
    ensures
        (spec_match(a, b) is Some) == (a == b),
        (spec_match(b, a) is Some) == (a == b),
{
    lemma_symbolic_rigid(a);
    lemma_symbolic_rigid(b);
    lemma_match_rigid(a, b, Seq::empty(), MATCH_FUEL as nat);
    lemma_match_rigid(b, a, Seq::empty(), MATCH_FUEL as nat);
}

// ------------------------------------------------------------------
// Query membership
// ------------------------------------------------------------------

/// Replacing `%Undefined%` keeps an atom ground.
proof fn lemma_replace_ground(m: AtomM)
    requires
        ground_m(m),
    ensures
        ground_m(crate::types::replace_und_m(m)),
    decreases height_m(m), 1nat, 0nat,
{
    if m == crate::types::undefined_m() {
    } else {
        match m {
            AtomM::Expr { children } => {
                crate::types::lemma_replace_und_kids_m(children);
                lemma_replace_ground_kids(children, 0);
            },
            _ => {},
        }
    }
}

proof fn lemma_replace_ground_kids(s: Seq<AtomM>, i: int)
    requires
        ground_kids_m(s, 0),
        0 <= i <= s.len(),
    ensures
        ground_kids_m(crate::types::replace_und_kids_m(s), i),
    decreases 1 + height_seq_m(s), 0nat, s.len() - i,
{
    crate::types::lemma_replace_und_kids_m(s);
    if i < s.len() {
        lemma_height_seq_elem(s, i);
        lemma_ground_kids_elem(s, 0, i);
        lemma_replace_ground(s[i]);
        lemma_replace_ground_kids(s, i + 1);
    }
}

/// A ground type matches itself under the wildcard-aware type match,
/// starting and ending with empty bindings.
proof fn lemma_mrt_refl(m: AtomM)
    requires
        ground_m(m),
    ensures
        crate::types::spec_mrt(m, m, Seq::empty()) == (true, Seq::<(VarM, AtomM)>::empty()),
{
    lemma_replace_ground(m);
    lemma_match_refl(crate::types::replace_und_m(m), Seq::empty(), MATCH_FUEL as nat);
    assert(crate::matcher::spec_merge(Seq::<(VarM, AtomM)>::empty(), Seq::empty()) == Some(
        Seq::<(VarM, AtomM)>::empty(),
    ));
}

/// A ground type present in the list yields a match against itself.
proof fn lemma_matched_nonempty(ts: Seq<AtomM>, typ: AtomM, idx: int)
    requires
        0 <= idx < ts.len(),
        ts[idx] == typ,
        ground_m(typ),
    ensures
        crate::types::matched_of_m(ts, typ).len() > 0,
    decreases ts.len(),
{
    if idx == ts.len() - 1 {
        lemma_rename_ground(typ, crate::types::mt_base(typ, typ));
        lemma_mrt_refl(typ);
    } else {
        lemma_matched_nonempty(ts.drop_last(), typ, idx);
    }
}

/// An answer that resolves the variable contributes its resolution.
proof fn lemma_resolved_contains(bms: Seq<BindsM>, v: VarM, idx: int, val: AtomM)
    requires
        0 <= idx < bms.len(),
        crate::matcher::resolve_m(bms[idx], v) == Some(val),
    ensures
        crate::types::resolved_of_m(bms, v).contains(val),
    decreases bms.len(),
{
    if idx == bms.len() - 1 {
        let rest = crate::types::resolved_of_m(bms.drop_last(), v);
        assert(crate::types::resolved_of_m(bms, v)[rest.len() as int] == val);
    } else {
        lemma_resolved_contains(bms.drop_last(), v, idx, val);
        let rest = crate::types::resolved_of_m(bms.drop_last(), v);
        let j = choose|j: int| 0 <= j < rest.len() && rest[j] == val;
        assert(crate::types::resolved_of_m(bms, v)[j] == val);
    }
}

/// A stored atom the pattern matches contributes its answer.
proof fn lemma_query_from_contains(
    space: Seq<AtomM>,
    p: AtomM,
    i: int,
    idx: int,
    base: nat,
    bm: BindsM,
)
    requires
        0 <= i <= idx < space.len(),
        spec_match(p, rename_m(space[idx], base)) == Some(bm),
    ensures
        crate::space::query_from_m(space, p, i, base).contains(
            crate::space::postproc_m(p, bm, base),
        ),
    decreases idx - i,
{
    let target = crate::space::postproc_m(p, bm, base);
    if i == idx {
        assert(crate::space::query_from_m(space, p, i, base)[0] == target);
    } else {
        lemma_query_from_contains(space, p, i + 1, idx, base, bm);
        let rest = crate::space::query_from_m(space, p, i + 1, base);
        let j = choose|j: int| 0 <= j < rest.len() && rest[j] == target;
        match spec_match(p, rename_m(space[i], base)) {
            None => {
                assert(crate::space::query_from_m(space, p, i, base)[j] == target);
            },
            Some(b0) => {
                assert(crate::space::query_from_m(space, p, i, base)[j + 1] == target);
            },
        }
    }
}

/// An atom `(op g val)` stored in the space, with `g` and `val` ground,
/// answers the query `(op g $X)` with `val`.
proof fn lemma_ground_pair_query(space: Seq<AtomM>, idx: int, op: Seq<char>, g: AtomM, val: AtomM)
    requires
        0 <= idx < space.len(),
        space[idx] == (AtomM::Expr { children: seq![AtomM::Sym { name: op }, g, val] }),
        ground_m(g),
        ground_m(val),
    ensures
        crate::types::resolved_of_m(
            spec_query(
                space,
                AtomM::Expr {
                    children: seq![
                        AtomM::Sym { name: op },
                        g,
                        AtomM::Var { v: crate::types::fresh_x_m(g) },
                    ],
                },
            ),
            crate::types::fresh_x_m(g),
        ).contains(val),
{
    lemma_max_id_ground(g);
    let xv = crate::types::fresh_x_m(g);
    assert(xv == VarM { name: "X"@, id: 1 });
    let pc = seq![AtomM::Sym { name: op }, g, AtomM::Var { v: xv }];
    let p = AtomM::Expr { children: pc };
    // the pattern's largest id is the fresh variable's
    let s1 = seq![AtomM::Sym { name: op }];
    let s2 = seq![AtomM::Sym { name: op }, g];
    assert(max_id_m(p) == 1) by {
        assert(s1.drop_last() =~= Seq::<AtomM>::empty());
        assert(s1.last() == AtomM::Sym { name: op });
        assert(max_id_kids_m(Seq::<AtomM>::empty()) == 0);
        assert(max_id_m(AtomM::Sym { name: op }) == 0);
        assert(max_id_m(g) == 0);
        assert(max_id_kids_m(s1) == 0);
        assert(s2.drop_last() =~= s1);
        assert(s2.last() == g);
        assert(max_id_kids_m(s2) == 0);
        assert(pc.drop_last() =~= s2);
        assert(pc.last() == AtomM::Var { v: xv });
        assert(max_id_m(AtomM::Var { v: xv }) == 1);
        assert(max_id_kids_m(pc) == 1);
    }
    let base = crate::space::query_base(p);
    assert(base == 2);
    // the stored atom is ground, so the query's renaming leaves it alone
    let sc = seq![AtomM::Sym { name: op }, g, val];
    let s = space[idx];
    assert(sc.len() == 3 && sc[0] == AtomM::Sym { name: op } && sc[1] == g && sc[2] == val);
    assert(ground_kids_m(sc, 0)) by {
        assert(ground_kids_m(sc, 3));
        assert(ground_m(sc[2]));
        assert(ground_kids_m(sc, 2));
        assert(ground_m(sc[1]));
        assert(ground_kids_m(sc, 1));
        assert(ground_m(sc[0]));
    }
    lemma_rename_ground(s, base);
    // the match binds the fresh variable to the stored value
    let fuel = MATCH_FUEL as nat;
    let bm = seq![(xv, val)];
    assert(pc.len() == 3 && pc[0] == AtomM::Sym { name: op } && pc[1] == g && pc[2] == (
    AtomM::Var { v: xv }));
    assert(spec_match(p, s) == Some(bm)) by {
        assert(match_m(AtomM::Sym { name: op }, AtomM::Sym { name: op }, Seq::empty(), fuel)
            == Some(Seq::<(VarM, AtomM)>::empty()));
        lemma_match_refl(g, Seq::empty(), fuel);
        assert(lookup_m(Seq::empty(), xv) is None);
        lemma_apply_ground(val, Seq::empty(), fuel);
        lemma_occurs_ground(val, xv);
        assert(Seq::<(VarM, AtomM)>::empty().push((xv, val)) =~= bm);
        assert(add_binding_m(Seq::empty(), xv, val, fuel) == Some(bm));
        assert(match_m(AtomM::Var { v: xv }, val, Seq::empty(), fuel) == Some(bm));
        assert(match_kids_m(pc, sc, 3, bm, fuel) == Some(bm));
        assert(match_kids_m(pc, sc, 2, Seq::empty(), fuel) == Some(bm));
        assert(match_kids_m(pc, sc, 1, Seq::empty(), fuel) == Some(bm));
        assert(match_kids_m(pc, sc, 0, Seq::empty(), fuel) == Some(bm));
    }
    // the answer keeps exactly the pattern variable, bound to the value
    let post = crate::space::postproc_m(p, bm, base);
    assert(post == seq![(xv, val)]) by {
        assert(crate::matcher::vars_m(p) =~= seq![xv]) by {
            let acc0 = Seq::<VarM>::empty();
            assert(crate::matcher::add_vars_m(AtomM::Sym { name: op }, acc0) == acc0);
            lemma_vars_ground(g, acc0);
            assert(!acc0.contains(xv));
            assert(crate::matcher::add_vars_m(AtomM::Var { v: xv }, acc0) =~= seq![xv]);
            assert(crate::matcher::add_vars_kids_m(pc, 3, seq![xv]) =~= seq![xv]);
            assert(crate::matcher::add_vars_kids_m(pc, 2, acc0) =~= seq![xv]);
            assert(crate::matcher::add_vars_kids_m(pc, 1, acc0) =~= seq![xv]);
            assert(crate::matcher::add_vars_kids_m(pc, 0, acc0) =~= seq![xv]);
        }
        assert(lookup_m(bm, xv) == Some(val));
        assert(crate::matcher::chase_m(bm, val, bm.len()) == val);
        assert(crate::matcher::resolve_m(bm, xv) == Some(val));
        lemma_apply_ground(val, bm, (MATCH_FUEL - 1) as nat);
        assert(apply_m(AtomM::Var { v: xv }, bm, MATCH_FUEL as nat) == val);
        lemma_unrename_ground(val, base);
        let vs = seq![xv];
        assert(vs.drop_last() =~= Seq::<VarM>::empty());
        assert(vs.last() == xv);
        assert(crate::space::postproc_vars_m(Seq::<VarM>::empty(), bm, base) =~= Seq::<
            (VarM, AtomM),
        >::empty());
        assert(crate::matcher::unrename_m(
            apply_m(AtomM::Var { v: xv }, bm, MATCH_FUEL as nat),
            base,
        ) == val);
        assert(crate::space::postproc_vars_m(vs, bm, base) =~= seq![(xv, val)]);
    }
    lemma_query_from_contains(space, p, 0, idx, base, bm);
    assert(crate::matcher::resolve_m(post, xv) == Some(val)) by {
        assert(lookup_m(post, xv) == Some(val));
        assert(crate::matcher::chase_m(post, val, post.len()) == val);
    }
    let answers = spec_query(space, p);
    let j = choose|j: int| 0 <= j < answers.len() && answers[j] == post;
    lemma_resolved_contains(answers, xv, j, val);
}

// ------------------------------------------------------------------
// The super-type closure
// ------------------------------------------------------------------

/// Whether the worklist closure finishes within its bound.
pub open spec fn closure_done(space: Seq<AtomM>, types: Seq<AtomM>, i: int, fuel: nat) -> bool
    decreases fuel,
{
    if i < 0 || i >= types.len() || fuel == 0 {
        i < 0 || i >= types.len()
    } else {
        closure_done(
            space,
            crate::types::closure_step_m(types, crate::types::spec_super_types(space, types[i]), 0),
            i + 1,
            (fuel - 1) as nat,
        )
    }
}

/// One worklist step keeps the old elements in place, takes in every
/// super-type handed to it, and adds nothing else.
proof fn lemma_closure_step_props(types: Seq<AtomM>, supers: Seq<AtomM>, j: int)
    requires
        0 <= j <= supers.len(),
    ensures
        crate::types::closure_step_m(types, supers, j).len() >= types.len(),
        forall|q: int|
            0 <= q < types.len() ==> #[trigger] crate::types::closure_step_m(types, supers, j)[q]
                == types[q],
        forall|k: int|
            j <= k < supers.len() ==> crate::types::closure_step_m(types, supers, j).contains(
                #[trigger] supers[k],
            ),
        forall|x: AtomM|
            crate::types::closure_step_m(types, supers, j).contains(x) ==> types.contains(x) || (
            exists|k: int| j <= k < supers.len() && supers[k] == x),
    decreases supers.len() - j,
{
    if j < supers.len() {
        let t2 = if types.contains(supers[j]) {
            types
        } else {
            types.push(supers[j])
        };
        lemma_closure_step_props(t2, supers, j + 1);
        let res = crate::types::closure_step_m(types, supers, j);
        assert forall|k: int| j <= k < supers.len() implies res.contains(#[trigger] supers[k]) by {
            if k == j {
                if types.contains(supers[j]) {
                    let q = choose|q: int| 0 <= q < types.len() && types[q] == supers[j];
                    assert(res[q] == supers[j]);
                } else {
                    assert(t2[types.len() as int] == supers[j]);
                    assert(res[types.len() as int] == supers[j]);
                }
            }
        }
        assert forall|x: AtomM| res.contains(x) implies types.contains(x) || (exists|k: int|
            j <= k < supers.len() && supers[k] == x) by {
            if t2.contains(x) {
                if !types.contains(x) {
                    let q = choose|q: int| 0 <= q < t2.len() && t2[q] == x;
                    if q < types.len() {
                        assert(types[q] == x);
                        assert(types.contains(x));
                    } else {
                        assert(x == supers[j]);
                    }
                }
            }
        }
    }
}

/// Everything handed to the closure stays in its result.
proof fn lemma_closure_prefix(space: Seq<AtomM>, types: Seq<AtomM>, i: int, fuel: nat)
    ensures
        crate::types::closure_m(space, types, i, fuel).len() >= types.len(),
        forall|q: int|
            0 <= q < types.len() ==> #[trigger] crate::types::closure_m(space, types, i, fuel)[q]
                == types[q],
    decreases fuel,
{
    if !(i < 0 || i >= types.len() || fuel == 0) {
        let supers = crate::types::spec_super_types(space, types[i]);
        let t2 = crate::types::closure_step_m(types, supers, 0);
        lemma_closure_step_props(types, supers, 0);
        lemma_closure_prefix(space, t2, i + 1, (fuel - 1) as nat);
    }
}

/// When the worklist finishes, its result is closed under direct
/// super-types: every super-type of a member is a member.
proof fn lemma_closure_closed(space: Seq<AtomM>, types: Seq<AtomM>, i: int, fuel: nat)
    requires
        0 <= i,
        closure_done(space, types, i, fuel),
        forall|idx: int, k: int|
            0 <= idx < i && idx < types.len() && 0 <= k < crate::types::spec_super_types(
                space,
                types[idx],
            ).len() ==> types.contains(
                #[trigger] crate::types::spec_super_types(space, types[idx])[k],
            ),
    ensures
        forall|idx: int, k: int|
            0 <= idx < crate::types::closure_m(space, types, i, fuel).len() && 0 <= k
                < crate::types::spec_super_types(
                space,
                crate::types::closure_m(space, types, i, fuel)[idx],
            ).len() ==> crate::types::closure_m(space, types, i, fuel).contains(
                #[trigger] crate::types::spec_super_types(
                    space,
                    crate::types::closure_m(space, types, i, fuel)[idx],
                )[k],
            ),
    decreases fuel,
{
    let res = crate::types::closure_m(space, types, i, fuel);
    if i >= types.len() || fuel == 0 {
        assert(i >= types.len());
        assert(res == types);
        assert forall|idx: int, k: int|
            0 <= idx < res.len() && 0 <= k < crate::types::spec_super_types(
                space,
                res[idx],
            ).len() implies res.contains(
            #[trigger] crate::types::spec_super_types(space, res[idx])[k],
        ) by {
            assert(res[idx] == types[idx]);
            assert(types.contains(crate::types::spec_super_types(space, types[idx])[k]));
        }
    } else {
        let supers = crate::types::spec_super_types(space, types[i]);
        let t2 = crate::types::closure_step_m(types, supers, 0);
        lemma_closure_step_props(types, supers, 0);
        assert forall|idx: int, k: int|
            0 <= idx < i + 1 && idx < t2.len() && 0 <= k < crate::types::spec_super_types(
                space,
                t2[idx],
            ).len() implies t2.contains(
            #[trigger] crate::types::spec_super_types(space, t2[idx])[k],
        ) by {
            assert(idx < types.len());
            assert(t2[idx] == types[idx]);
            if idx < i {
                assert(types.contains(crate::types::spec_super_types(space, types[idx])[k]));
                let q = choose|q: int|
                    0 <= q < types.len() && types[q] == crate::types::spec_super_types(
                        space,
                        types[idx],
                    )[k];
                assert(t2[q] == crate::types::spec_super_types(space, types[idx])[k]);
            } else {
                assert(t2.contains(supers[k]));
            }
        }
        lemma_closure_closed(space, t2, i + 1, (fuel - 1) as nat);
        let res2 = crate::types::closure_m(space, t2, i + 1, (fuel - 1) as nat);
        assert(res == res2);
        assert forall|idx: int, k: int|
            0 <= idx < res.len() && 0 <= k < crate::types::spec_super_types(
                space,
                res[idx],
            ).len() implies res.contains(
            #[trigger] crate::types::spec_super_types(space, res[idx])[k],
        ) by {
            assert(res[idx] == res2[idx]);
            assert(res2.contains(crate::types::spec_super_types(space, res2[idx])[k]));
        }
    }
}

/// Whether `u` is reachable from the roots in at most `n` super-type
/// steps.
pub open spec fn reach_n(space: Seq<AtomM>, roots: Seq<AtomM>, u: AtomM, n: nat) -> bool
    decreases n,
{
    if n == 0 {
        roots.contains(u)
    } else {
        reach_n(space, roots, u, (n - 1) as nat) || (exists|t: AtomM|
            reach_n(space, roots, t, (n - 1) as nat) && crate::types::spec_super_types(
                space,
                t,
            ).contains(u))
    }
}

/// Whether `u` is one of the roots or a transitive super-type of one.
pub open spec fn reachable(space: Seq<AtomM>, roots: Seq<AtomM>, u: AtomM) -> bool {
    exists|n: nat| reach_n(space, roots, u, n)
}

/// Every element the closure adds is reachable from the atoms it was
/// handed.
proof fn lemma_closure_sound(
    space: Seq<AtomM>,
    types: Seq<AtomM>,
    i: int,
    fuel: nat,
    roots: Seq<AtomM>,
)
    requires
        forall|x: AtomM| types.contains(x) ==> reachable(space, roots, x),
    ensures
        forall|x: AtomM|
            crate::types::closure_m(space, types, i, fuel).contains(x) ==> reachable(
                space,
                roots,
                x,
            ),
    decreases fuel,
{
    if !(i < 0 || i >= types.len() || fuel == 0) {
        let supers = crate::types::spec_super_types(space, types[i]);
        let t2 = crate::types::closure_step_m(types, supers, 0);
        lemma_closure_step_props(types, supers, 0);
        assert forall|x: AtomM| t2.contains(x) implies reachable(space, roots, x) by {
            if !types.contains(x) {
                let k = choose|k: int| 0 <= k < supers.len() && supers[k] == x;
                assert(types.contains(types[i])) by {
                    assert(types[i] == types[i]);
                }
                assert(reachable(space, roots, types[i]));
                let n = choose|n: nat| reach_n(space, roots, types[i], n);
                assert(reach_n(space, roots, x, n + 1));
            }
        }
        lemma_closure_sound(space, t2, i + 1, (fuel - 1) as nat, roots);
    }
}

// ------------------------------------------------------------------
// Binding closure
// ------------------------------------------------------------------

/// Every bound value is rigid.
pub open spec fn binds_rigid_values(b: BindsM) -> bool {
    forall|j: int| 0 <= j < b.len() ==> rigid_m((#[trigger] b[j]).1)
}

/// `b2` extends `b1`: the old pairs stay in place in front.
pub open spec fn binds_extends(b1: BindsM, b2: BindsM) -> bool {
    b1.len() <= b2.len() && b2.take(b1.len() as int) == b1
}

/// A value looked up in rigid bindings is rigid.
proof fn lemma_lookup_value_rigid(b: BindsM, v: VarM)
    requires
        binds_rigid_values(b),
        lookup_m(b, v) is Some,
    ensures
        rigid_m(lookup_m(b, v)->Some_0),
    decreases b.len(),
{
    if b.len() > 0 && b[0].0 != v {
        assert(binds_rigid_values(b.drop_first())) by {
            assert(forall|j: int|
                0 <= j < b.drop_first().len() ==> (#[trigger] b.drop_first()[j]) == b[j + 1]);
        }
        lemma_lookup_value_rigid(b.drop_first(), v);
    }
}

/// A lookup that succeeds keeps its answer in any extension.
proof fn lemma_lookup_extends(b1: BindsM, b2: BindsM, v: VarM)
    requires
        binds_extends(b1, b2),
        lookup_m(b1, v) is Some,
    ensures
        lookup_m(b2, v) == lookup_m(b1, v),
    decreases b1.len(),
{
    assert(b1.len() > 0);
    assert(b2[0] == b1[0]) by {
        assert(b2.take(b1.len() as int)[0] == b2[0]);
    }
    if b1[0].0 != v {
        assert(binds_extends(b1.drop_first(), b2.drop_first())) by {
            assert(b2.drop_first().take(b1.drop_first().len() as int) =~= b1.drop_first());
        }
        lemma_lookup_extends(b1.drop_first(), b2.drop_first(), v);
    }
}

/// Binding a fresh variable makes it found.
proof fn lemma_lookup_push_new(b: BindsM, v: VarM, val: AtomM)
    requires
        lookup_m(b, v) is None,
    ensures
        lookup_m(b.push((v, val)), v) == Some(val),
    decreases b.len(),
{
    let b2 = b.push((v, val));
    if b.len() == 0 {
        assert(b2[0] == (v, val));
        assert(b2.drop_first() =~= Seq::<(VarM, AtomM)>::empty());
    } else {
        assert(b2[0] == b[0]);
        lemma_lookup_push_new(b.drop_first(), v, val);
        assert(b2.drop_first() =~= b.drop_first().push((v, val)));
    }
}

/// Substitution under rigid bindings yields the same ground answer in any
/// rigid extension.
proof fn lemma_apply_stable(x: AtomM, b1: BindsM, b2: BindsM, f: nat)
    requires
        binds_rigid_values(b1),
        binds_extends(b1, b2),
        ground_m(apply_m(x, b1, f)),
    ensures
        apply_m(x, b2, f) == apply_m(x, b1, f),
    decreases f, height_m(x), 1nat, 0nat,
{
    match x {
        AtomM::Var { v } => {
            match lookup_m(b1, v) {
                None => {
                    assert(crate::matcher::resolve_m(b1, v) is None);
                    assert(apply_m(x, b1, f) == x);
                    assert(false);
                },
                Some(val) => {
                    lemma_lookup_value_rigid(b1, v);
                    lemma_lookup_extends(b1, b2, v);
                    assert(!(val is Var));
                    assert(crate::matcher::chase_m(b1, val, b1.len()) == val);
                    assert(crate::matcher::chase_m(b2, val, b2.len()) == val);
                    if f > 0 {
                        lemma_apply_ground(val, b1, (f - 1) as nat);
                        lemma_apply_ground(val, b2, (f - 1) as nat);
                    }
                },
            }
        },
        AtomM::Expr { children } => {
            crate::matcher::lemma_apply_kids_m(children, b1, f);
            crate::matcher::lemma_apply_kids_m(children, b2, f);
            lemma_apply_stable_kids(children, children.len() as int, b1, b2, f);
            assert(apply_kids_m(children, b2, f) =~= apply_kids_m(children, b1, f));
        },
        _ => {},
    }
}

proof fn lemma_apply_stable_kids(s: Seq<AtomM>, i: int, b1: BindsM, b2: BindsM, f: nat)
    requires
        binds_rigid_values(b1),
        binds_extends(b1, b2),
        ground_m(AtomM::Expr { children: apply_kids_m(s, b1, f) }),
        0 <= i <= s.len(),
    ensures
        forall|j: int| 0 <= j < i ==> apply_m(s[j], b2, f) == apply_m(s[j], b1, f),
    decreases f, 1 + height_seq_m(s), 0nat, i,
{
    if i > 0 {
        lemma_height_seq_elem(s, i - 1);
        lemma_apply_stable_kids(s, i - 1, b1, b2, f);
        crate::matcher::lemma_apply_kids_m(s, b1, f);
        lemma_ground_kids_elem(apply_kids_m(s, b1, f), 0, i - 1);
        assert(ground_m(apply_m(s[i - 1], b1, f)));
        lemma_apply_stable(s[i - 1], b1, b2, f);
    }
}

/// Unification against a rigid atom binds the pattern's variables so that
/// substitution carries the pattern onto that atom, extending the
/// bindings it started from.
proof fn lemma_match_sound_ground(l: AtomM, r: AtomM, b0: BindsM, fuel: nat)
    requires
        sentinel_free_m(l),
        rigid_m(r),
        binds_rigid_values(b0),
        match_m(l, r, b0, fuel) is Some,
    ensures
        binds_extends(b0, match_m(l, r, b0, fuel)->Some_0),
        binds_rigid_values(match_m(l, r, b0, fuel)->Some_0),
        forall|f: nat| apply_m(l, #[trigger] match_m(l, r, b0, fuel)->Some_0, f) == r,
    decreases fuel, height_m(l) + height_m(r), 1nat, 0nat,
{
    let b = match_m(l, r, b0, fuel)->Some_0;
    assert(b0.take(b0.len() as int) =~= b0);
    if l is Var && !(r is Var) {
        let v = l->v;
        match lookup_m(b0, v) {
            Some(existing) => {
                assert(fuel > 0);
                lemma_lookup_value_rigid(b0, v);
                lemma_match_rigid(existing, r, b0, (fuel - 1) as nat);
                assert(existing == r);
                assert(b == b0);
                assert forall|f: nat| apply_m(l, b, f) == r by {
                    assert(crate::matcher::chase_m(b, r, b.len()) == r);
                    if f > 0 {
                        lemma_apply_ground(r, b, (f - 1) as nat);
                    }
                }
            },
            None => {
                lemma_apply_ground(r, b0, fuel);
                lemma_occurs_ground(r, v);
                assert(b == b0.push((v, r)));
                assert(binds_extends(b0, b)) by {
                    assert(b.take(b0.len() as int) =~= b0);
                }
                assert(binds_rigid_values(b)) by {
                    assert(forall|j: int| 0 <= j < b0.len() ==> b[j] == b0[j]);
                    assert(b[b0.len() as int].1 == r);
                }
                lemma_lookup_push_new(b0, v, r);
                assert forall|f: nat| apply_m(l, b, f) == r by {
                    assert(crate::matcher::chase_m(b, r, b.len()) == r);
                    if f > 0 {
                        lemma_apply_ground(r, b, (f - 1) as nat);
                    }
                }
            },
        }
    } else if l is Gnd {
        assert(!(l->g is UndefinedTypeMatch));
        assert(l == r);
        assert(b == b0);
        assert forall|f: nat| apply_m(l, b, f) == r by {
            lemma_apply_ground(l, b, f);
        }
    } else if r is Gnd && !(l is Var) {
        assert(!(r->g is UndefinedTypeMatch));
        assert(false);
    } else if l is Sym && r is Sym {
        assert(l == r && b == b0);
        assert forall|f: nat| apply_m(l, b, f) == r by {
            lemma_apply_ground(l, b, f);
        }
    } else {
        assert(l is Expr && r is Expr);
        let xs = l->children;
        let ys = r->children;
        assert(xs.len() == ys.len());
        lemma_match_kids_sound(xs, ys, 0, b0, fuel);
        assert(b == match_kids_m(xs, ys, 0, b0, fuel)->Some_0);
        assert forall|f: nat| apply_m(l, b, f) == r by {
            crate::matcher::lemma_apply_kids_m(xs, b, f);
            assert(apply_kids_m(xs, b, f) =~= ys);
        }
    }
}

/// Kid-wise version: the final bindings carry every child of `xs` from
/// position `i` on onto the corresponding child of `ys`.
proof fn lemma_match_kids_sound(xs: Seq<AtomM>, ys: Seq<AtomM>, i: int, b0: BindsM, fuel: nat)
    requires
        sentinel_free_kids_m(xs, 0),
        ground_kids_m(ys, 0),
        sentinel_free_kids_m(ys, 0),
        xs.len() == ys.len(),
        0 <= i <= xs.len(),
        binds_rigid_values(b0),
        match_kids_m(xs, ys, i, b0, fuel) is Some,
    ensures
        binds_extends(b0, match_kids_m(xs, ys, i, b0, fuel)->Some_0),
        binds_rigid_values(match_kids_m(xs, ys, i, b0, fuel)->Some_0),
        forall|j: int, f: nat|
            i <= j < xs.len() ==> #[trigger] apply_m(
                xs[j],
                match_kids_m(xs, ys, i, b0, fuel)->Some_0,
                f,
            ) == ys[j],
    decreases fuel, height_seq_m(xs) + height_seq_m(ys), 2nat, xs.len() - i,
{
    let b = match_kids_m(xs, ys, i, b0, fuel)->Some_0;
    assert(b0.take(b0.len() as int) =~= b0);
    if i < xs.len() {
        lemma_height_seq_elem(xs, i);
        lemma_height_seq_elem(ys, i);
        lemma_sentinel_free_kids_elem(xs, 0, i);
        lemma_ground_kids_elem(ys, 0, i);
        lemma_sentinel_free_kids_elem(ys, 0, i);
        let b1 = match_m(xs[i], ys[i], b0, fuel)->Some_0;
        lemma_match_sound_ground(xs[i], ys[i], b0, fuel);
        lemma_match_kids_sound(xs, ys, i + 1, b1, fuel);
        assert(binds_extends(b0, b)) by {
            assert(b.take(b0.len() as int) =~= b0) by {
                assert(b.take(b1.len() as int) == b1);
                assert(forall|q: int| 0 <= q < b1.len() ==> b[q] == b1.take(b1.len() as int)[q]);
                assert(forall|q: int| 0 <= q < b0.len() ==> b1[q] == b0[q]);
            }
        }
        assert forall|j: int, f: nat| i <= j < xs.len() implies #[trigger] apply_m(xs[j], b, f)
            == ys[j] by {
            if j == i {
                assert(apply_m(xs[i], b1, f) == ys[i]);
                assert(ground_m(apply_m(xs[i], b1, f)));
                lemma_apply_stable(xs[i], b1, b, f);
            }
        }
    } else {
        assert(b == b0);
    }
}

/// Binding closure: the bindings the unifier produces carry the pattern
/// onto the matched atom: substituting them into either side gives the
/// same atom. Stated for a pattern free of the internal matching
/// sentinel, matched against an atom without variables.
pub proof fn lemma_binding_closure(p: AtomM, q: AtomM, b: BindsM)
    requires
        sentinel_free_m(p),
        rigid_m(q),
        spec_match(p, q) == Some(b),
    ensures
        apply_m(p, b, MATCH_FUEL as nat) == apply_m(q, b, MATCH_FUEL as nat),
        apply_m(q, b, MATCH_FUEL as nat) == q,
{
    lemma_match_sound_ground(p, q, Seq::empty(), MATCH_FUEL as nat);
    lemma_apply_ground(q, b, MATCH_FUEL as nat);
}

// ------------------------------------------------------------------
// The parse of a rendering
// ------------------------------------------------------------------

/// A character a bare token may hold.
pub open spec fn token_char_ok(c: char) -> bool {
    !crate::text::is_break_m(c)
}

/// A symbol name the renderer and parser agree on: non-empty, of token
/// characters, and not opening a variable or a comment.
pub open spec fn sym_name_ok(name: Seq<char>) -> bool {
    &&& name.len() > 0
    &&& name[0] != '$'
    &&& name[0] != ';'
    &&& forall|i: int| 0 <= i < name.len() ==> token_char_ok(#[trigger] name[i])
}

/// A variable name the renderer and parser agree on.
pub open spec fn var_name_ok(name: Seq<char>) -> bool {
    forall|i: int| 0 <= i < name.len() ==> token_char_ok(#[trigger] name[i])
}

/// An atom whose rendering reads back as itself: symbols with plain
/// names, variables with plain names and the parser's initial id, and
/// expressions of such atoms. A grounded value is out of scope of the
/// round trip.
pub open spec fn displayable_m(a: AtomM) -> bool
    decreases height_m(a), 1nat, 0nat,
{
    match a {
        AtomM::Sym { name } => sym_name_ok(name),
        AtomM::Var { v } => v.id == 0 && var_name_ok(v.name),
        AtomM::Gnd { .. } => false,
        AtomM::Expr { children } => displayable_kids_m(children, 0),
    }
}

pub open spec fn displayable_kids_m(s: Seq<AtomM>, i: int) -> bool
    decreases 1 + height_seq_m(s), 0nat, s.len() - i,
    via displayable_kids_m_decreases
{
    if i < 0 || i >= s.len() {
        true
    } else {
        displayable_m(s[i]) && displayable_kids_m(s, i + 1)
    }
}

#[via_fn]
proof fn displayable_kids_m_decreases(s: Seq<AtomM>, i: int) {
    if 0 <= i < s.len() {
        lemma_height_seq_elem(s, i);
    }
}

proof fn lemma_displayable_kids_elem(s: Seq<AtomM>, i: int, j: int)
    requires
        0 <= i <= j < s.len(),
        displayable_kids_m(s, i),
    ensures
        displayable_m(s[j]),
        displayable_kids_m(s, j),
    decreases j - i,
{
    if i < j {
        lemma_displayable_kids_elem(s, i + 1, j);
    }
}

/// The recursion allowance a parse of one atom needs.
pub open spec fn need_a(a: AtomM) -> nat
    decreases height_m(a), 1nat, 0nat,
{
    match a {
        AtomM::Expr { children } => 1 + need_l(children),
        _ => 1,
    }
}

/// The recursion allowance a parse of an expression's children needs.
pub open spec fn need_l(s: Seq<AtomM>) -> nat
    decreases 1 + height_seq_m(s), 0nat, s.len(),
    via need_l_decreases
{
    if s.len() == 0 {
        1
    } else {
        let h = need_a(s[0]);
        let r = need_l(s.drop_first());
        1 + if h > r {
            h
        } else {
            r
        }
    }
}

#[via_fn]
proof fn need_l_decreases(s: Seq<AtomM>) {
    if s.len() > 0 {
        lemma_height_seq_elem(s, 0);
        assert(height_seq_m(s.drop_first()) <= height_seq_m(s)) by {
            lemma_height_drop_first(s);
        }
    }
}

proof fn lemma_height_drop_first(s: Seq<AtomM>)
    requires
        s.len() > 0,
    ensures
        height_seq_m(s.drop_first()) <= height_seq_m(s),
    decreases s.len(),
{
    if s.len() == 1 {
        assert(s.drop_first() =~= Seq::<AtomM>::empty());
    } else {
        assert(s.drop_first().drop_last() =~= s.drop_last().drop_first());
        assert(s.drop_first().last() == s.last());
        lemma_height_drop_first(s.drop_last());
    }
}

/// A bare word ends exactly where its token characters end.
proof fn lemma_word_end_concat(s: Seq<char>, i: int, e: int)
    requires
        0 <= i <= e <= s.len(),
        forall|j: int| i <= j < e ==> token_char_ok(#[trigger] s[j]),
        e == s.len() || crate::text::is_break_m(s[e]),
    ensures
        crate::text::word_end_m(s, i) == e,
    decreases e - i,
{
    if i < e {
        lemma_word_end_concat(s, i + 1, e);
    }
}

/// The first character of a displayable atom's rendering: never
/// whitespace, a comment opener, or a closing parenthesis; and the
/// rendering is never empty.
proof fn lemma_display_head(a: AtomM)
    requires
        displayable_m(a),
    ensures
        crate::atom::display_m(a).len() > 0,
        !crate::text::is_ws_m(crate::atom::display_m(a)[0]),
        crate::atom::display_m(a)[0] != ';',
        crate::atom::display_m(a)[0] != ')',
        a is Expr <==> crate::atom::display_m(a)[0] == '(',
        a is Var <==> crate::atom::display_m(a)[0] == '$',
{
    reveal_strlit("$");
    reveal_strlit("(");
    reveal_strlit(")");
    match a {
        AtomM::Sym { name } => {
            assert(crate::text::is_break_m(' ') && crate::text::is_break_m('(')
                && crate::text::is_break_m(')'));
            assert(token_char_ok(name[0]));
        },
        AtomM::Var { v } => {
            assert(crate::atom::display_m(a)[0] == '$');
        },
        AtomM::Expr { children } => {
            assert(crate::atom::display_m(a)[0] == '(');
        },
        _ => {},
    }
}

/// Splitting the join of renderings at the front.
proof fn lemma_display_children_left(cs: Seq<AtomM>)
    requires
        cs.len() >= 2,
    ensures
        crate::atom::display_children(cs) == crate::atom::display_m(cs[0]) + " "@
            + crate::atom::display_children(cs.drop_first()),
    decreases cs.len(),
{
    if cs.len() == 2 {
        assert(cs.drop_last() =~= seq![cs[0]]);
        assert(cs.drop_first() =~= seq![cs[1]]);
        assert(crate::atom::display_children(seq![cs[0]]) == crate::atom::display_m(cs[0]));
        assert(crate::atom::display_children(seq![cs[1]]) == crate::atom::display_m(cs[1]));
    } else {
        let dl = cs.drop_last();
        lemma_display_children_left(dl);
        assert(dl[0] == cs[0]);
        assert(cs.drop_first().drop_last() =~= dl.drop_first());
        assert(cs.drop_first().last() == cs.last());
        assert(cs.drop_first().len() >= 2);
        assert(crate::atom::display_children(cs.drop_first()) == crate::atom::display_children(
            dl.drop_first(),
        ) + " "@ + crate::atom::display_m(cs.last()));
        assert(crate::atom::display_children(cs) == crate::atom::display_children(dl) + " "@
            + crate::atom::display_m(cs.last()));
        assert(crate::atom::display_m(cs[0]) + " "@ + crate::atom::display_children(
            cs.drop_first(),
        ) =~= crate::atom::display_children(cs));
    }
}

/// Reading one atom at a rendering reads the atom back and stops at its
/// end.
proof fn lemma_parse_display_at(a: AtomM, s: Seq<char>, pos: int, fuel: nat)
    requires
        displayable_m(a),
        0 <= pos,
        pos + crate::atom::display_m(a).len() <= s.len(),
        s.subrange(pos, pos + crate::atom::display_m(a).len() as int) == crate::atom::display_m(a),
        pos + crate::atom::display_m(a).len() == s.len() || crate::text::is_break_m(
            s[pos + crate::atom::display_m(a).len() as int],
        ),
        fuel >= need_a(a),
    ensures
        crate::text::parse_atom_m(s, Seq::empty(), pos, fuel) == crate::text::ParseAtomM::Found(
            a,
            pos + crate::atom::display_m(a).len() as int,
        ),
    decreases fuel, height_m(a), 1nat,
{
    let d = crate::atom::display_m(a);
    let e = pos + d.len() as int;
    lemma_display_head(a);
    assert(s[pos] == d[0]) by {
        assert(s.subrange(pos, e)[0] == s[pos]);
    }
    assert(crate::text::skip_ws_m(s, pos) == pos);
    reveal_strlit("$");
    reveal_strlit("(");
    reveal_strlit(")");
    match a {
        AtomM::Sym { name } => {
            assert(forall|j: int| pos <= j < e ==> token_char_ok(#[trigger] s[j])) by {
                assert(forall|j: int|
                    pos <= j < e ==> #[trigger] s[j] == s.subrange(pos, e)[j - pos]);
            }
            lemma_word_end_concat(s, pos, e);
            assert(s.subrange(pos, e) =~= name);
            assert(crate::text::spec_find_token(Seq::empty(), s.subrange(pos, e)) is None);
        },
        AtomM::Var { v } => {
            assert(d == "$"@ + v.name);
            assert(d[0] == '$');
            assert(forall|j: int| pos + 1 <= j < e ==> token_char_ok(#[trigger] s[j])) by {
                assert(forall|j: int|
                    pos + 1 <= j < e ==> #[trigger] s[j] == s.subrange(pos, e)[j - pos]);
                assert(forall|j: int|
                    pos + 1 <= j < e ==> #[trigger] s.subrange(pos, e)[j - pos] == v.name[j - pos
                        - 1]);
            }
            lemma_word_end_concat(s, pos + 1, e);
            assert(s.subrange(pos + 1, e) =~= v.name) by {
                assert(forall|j: int|
                    0 <= j < v.name.len() ==> #[trigger] s.subrange(pos + 1, e)[j] == s[pos + 1
                        + j]);
                assert(forall|j: int|
                    0 <= j < v.name.len() ==> #[trigger] s[pos + 1 + j] == s.subrange(pos, e)[j
                        + 1]);
            }
        },
        AtomM::Expr { children } => {
            let dc = crate::atom::display_children(children);
            assert("("@.len() == 1 && ")"@.len() == 1);
            assert(d == "("@ + dc + ")"@);
            assert(d.len() == dc.len() + 2);
            assert(s[pos] == '(');
            assert(forall|j: int| 0 <= j < dc.len() ==> #[trigger] d[j + 1] == dc[j]) by {
                assert(forall|j: int|
                    0 <= j < dc.len() ==> #[trigger] ("("@ + dc + ")"@)[j + 1] == ("("@ + dc)[j
                        + 1]);
                assert(forall|j: int|
                    0 <= j < dc.len() ==> #[trigger] ("("@ + dc)[j + 1] == dc[j]);
            }
            assert forall|j: int| 0 <= j < dc.len() implies #[trigger] s[pos + 1 + j] == dc[j] by {
                assert(s.subrange(pos, e)[j + 1] == s[pos + 1 + j]);
                assert(d[j + 1] == dc[j]);
            }
            assert(s.subrange(pos + 1, pos + 1 + dc.len() as int) =~= dc) by {
                assert forall|j: int|
                    0 <= j < dc.len() implies #[trigger] s.subrange(
                    pos + 1,
                    pos + 1 + dc.len() as int,
                )[j] == dc[j] by {
                    assert(s.subrange(pos + 1, pos + 1 + dc.len() as int)[j] == s[pos + 1 + j]);
                }
            }
            assert(s[pos + 1 + dc.len() as int] == ')') by {
                assert(s.subrange(pos, e)[d.len() - 1] == s[e - 1]);
                assert(d[d.len() - 1] == ')');
            }
            if children.len() == 0 {
                assert(dc =~= Seq::<char>::empty());
                assert(crate::text::skip_ws_m(s, pos + 1) == pos + 1);
            } else {
                lemma_displayable_kids_elem(children, 0, 0);
                lemma_display_head(children[0]);
                lemma_display_children_head(children);
                assert(s[pos + 1] == dc[0]) by {
                    assert(s[pos + 1 + 0] == dc[0]);
                }
                assert(dc[0] == crate::atom::display_m(children[0])[0]);
                assert(crate::text::skip_ws_m(s, pos + 1) == pos + 1);
            }
            lemma_parse_list_display(children, s, pos + 1, pos + 1, (fuel - 1) as nat);
            assert(crate::text::parse_list_m(s, Seq::empty(), pos + 1, (fuel - 1) as nat)
                == crate::text::ParseListM::FoundL(children, e));
        },
        _ => {},
    }
}

/// The join of renderings starts with the first child's rendering.
proof fn lemma_display_children_head(cs: Seq<AtomM>)
    requires
        cs.len() > 0,
        crate::atom::display_m(cs[0]).len() > 0,
    ensures
        crate::atom::display_children(cs).len() >= crate::atom::display_m(cs[0]).len(),
        forall|j: int|
            0 <= j < crate::atom::display_m(cs[0]).len() ==> #[trigger] crate::atom::display_children(
                cs,
            )[j] == crate::atom::display_m(cs[0])[j],
{
    if cs.len() == 1 {
    } else {
        lemma_display_children_left(cs);
    }
}

/// Reading an expression's children at the join of their renderings
/// reads them all back, up to the closing parenthesis.
proof fn lemma_parse_list_display(cs: Seq<AtomM>, s: Seq<char>, pos: int, q: int, fuel: nat)
    requires
        displayable_kids_m(cs, 0),
        0 <= pos,
        crate::text::skip_ws_m(s, pos) == q,
        pos <= q,
        q + crate::atom::display_children(cs).len() + 1 <= s.len(),
        s.subrange(q, q + crate::atom::display_children(cs).len() as int)
            == crate::atom::display_children(cs),
        s[q + crate::atom::display_children(cs).len() as int] == ')',
        fuel >= need_l(cs),
    ensures
        crate::text::parse_list_m(s, Seq::empty(), pos, fuel) == crate::text::ParseListM::FoundL(
            cs,
            q + crate::atom::display_children(cs).len() + 1,
        ),
    decreases fuel, cs.len(), 0nat,
{
    let dc = crate::atom::display_children(cs);
    reveal_strlit(")");
    reveal_strlit(" ");
    if cs.len() == 0 {
        assert(dc =~= Seq::<char>::empty());
        assert(s[q] == ')');
        assert(cs =~= Seq::<AtomM>::empty());
    } else {
        lemma_displayable_kids_elem(cs, 0, 0);
        lemma_display_head(cs[0]);
        let d0 = crate::atom::display_m(cs[0]);
        lemma_display_children_head(cs);
        assert(forall|j: int| 0 <= j < dc.len() ==> #[trigger] s[q + j] == dc[j]) by {
            assert(forall|j: int| 0 <= j < dc.len() ==> #[trigger] s.subrange(
                q,
                q + dc.len() as int,
            )[j] == s[q + j]);
        }
        assert(s[q] == d0[0]) by {
            assert(s[q + 0] == dc[0]);
            assert(dc[0] == d0[0]);
        }
        assert(s[q] != ')');
        let k = q + d0.len() as int;
        if cs.len() == 1 {
            assert(dc == d0);
            assert(s[k] == ')');
            assert(s.subrange(q, k) =~= d0);
            lemma_parse_display_at(cs[0], s, q, (fuel - 1) as nat);
            assert(crate::text::skip_ws_m(s, k) == k);
            assert(cs.drop_first() =~= Seq::<AtomM>::empty());
            assert(displayable_kids_m(cs.drop_first(), 0));
            assert(s.subrange(k, k) =~= crate::atom::display_children(cs.drop_first()));
            lemma_parse_list_display(cs.drop_first(), s, k, k, (fuel - 1) as nat);
            assert(crate::atom::display_children(cs.drop_first()) =~= Seq::<char>::empty());
            assert(seq![cs[0]] + cs.drop_first() =~= cs);
            assert(crate::text::parse_list_m(s, Seq::empty(), k, (fuel - 1) as nat)
                == crate::text::ParseListM::FoundL(cs.drop_first(), k + 1));
            assert(q + dc.len() + 1 == k + 1);
        } else {
            lemma_display_children_left(cs);
            let rest = cs.drop_first();
            let dr = crate::atom::display_children(rest);
            assert(" "@.len() == 1);
            assert(dc.len() == d0.len() + 1 + dr.len());
            assert(s.subrange(q, k) =~= d0) by {
                assert(forall|j: int| 0 <= j < d0.len() ==> #[trigger] dc[j] == d0[j]);
            }
            assert(s[k] == ' ') by {
                assert(dc[d0.len() as int] == (d0 + " "@ + dr)[d0.len() as int]);
            }
            assert(crate::text::is_break_m(' '));
            lemma_parse_display_at(cs[0], s, q, (fuel - 1) as nat);
            // after the separating space comes the rest of the join
            assert forall|j: int| 0 <= j < dr.len() implies #[trigger] s[k + 1 + j] == dr[j] by {
                assert(s[q + (d0.len() + 1 + j)] == dc[d0.len() + 1 + j]);
                assert(dc[d0.len() + 1 + j] == (d0 + " "@ + dr)[d0.len() + 1 + j]);
                assert((d0 + " "@ + dr)[d0.len() + 1 + j] == dr[j]);
            }
            assert(s.subrange(k + 1, k + 1 + dr.len() as int) =~= dr) by {
                assert forall|j: int|
                    0 <= j < dr.len() implies #[trigger] s.subrange(
                    k + 1,
                    k + 1 + dr.len() as int,
                )[j] == dr[j] by {
                    assert(s.subrange(k + 1, k + 1 + dr.len() as int)[j] == s[k + 1 + j]);
                }
            }
            assert(s[k + 1 + dr.len() as int] == ')');
            assert(displayable_kids_m(rest, 0)) by {
                assert(forall|j: int|
                    0 <= j < rest.len() ==> #[trigger] rest[j] == cs[j + 1]);
                lemma_displayable_kids_intro(rest, cs);
            }
            assert(rest.len() > 0);
            lemma_displayable_kids_elem(rest, 0, 0);
            lemma_display_head(rest[0]);
            lemma_display_children_head(rest);
            assert(s[k + 1] == dr[0]);
            assert(crate::text::skip_ws_m(s, k + 1) == k + 1);
            assert(crate::text::skip_ws_m(s, k) == k + 1);
            assert(need_l(rest) <= fuel - 1);
            lemma_parse_list_display(rest, s, k, k + 1, (fuel - 1) as nat);
            assert(seq![cs[0]] + rest =~= cs);
            assert(crate::text::parse_list_m(s, Seq::empty(), k, (fuel - 1) as nat)
                == crate::text::ParseListM::FoundL(rest, (k + 1) + dr.len() + 1));
            assert(q + dc.len() + 1 == (k + 1) + dr.len() + 1);
        }
    }
}

/// Each element of the tail is displayable when each element of the
/// whole is.
proof fn lemma_displayable_kids_intro(rest: Seq<AtomM>, cs: Seq<AtomM>)
    requires
        displayable_kids_m(cs, 0),
        rest.len() + 1 == cs.len(),
        forall|j: int| 0 <= j < rest.len() ==> #[trigger] rest[j] == cs[j + 1],
    ensures
        displayable_kids_m(rest, 0),
{
    lemma_displayable_kids_intro_from(rest, cs, 0);
}

proof fn lemma_displayable_kids_intro_from(rest: Seq<AtomM>, cs: Seq<AtomM>, i: int)
    requires
        displayable_kids_m(cs, 0),
        rest.len() + 1 == cs.len(),
        forall|j: int| 0 <= j < rest.len() ==> #[trigger] rest[j] == cs[j + 1],
        0 <= i <= rest.len(),
    ensures
        displayable_kids_m(rest, i),
    decreases rest.len() - i,
{
    if i < rest.len() {
        lemma_displayable_kids_elem(cs, 0, i + 1);
        lemma_displayable_kids_intro_from(rest, cs, i + 1);
    }
}

/// The parse allowance of a rendering covers its own parse.
proof fn lemma_need_bound(a: AtomM)
    requires
        displayable_m(a),
    ensures
        need_a(a) <= 2 * crate::atom::display_m(a).len() + 2,
    decreases height_m(a), 1nat, 0nat,
{
    match a {
        AtomM::Expr { children } => {
            reveal_strlit("(");
            reveal_strlit(")");
            lemma_need_bound_kids(children);
            assert(crate::atom::display_m(a).len() == crate::atom::display_children(
                children,
            ).len() + 2);
        },
        _ => {},
    }
}

/// The parse allowance of a join covers its own parse.
proof fn lemma_need_bound_kids(cs: Seq<AtomM>)
    requires
        displayable_kids_m(cs, 0),
    ensures
        need_l(cs) <= 2 * crate::atom::display_children(cs).len() + 3,
    decreases 1 + height_seq_m(cs), 0nat, cs.len(),
{
    if cs.len() > 0 {
        lemma_displayable_kids_elem(cs, 0, 0);
        lemma_height_seq_elem(cs, 0);
        lemma_need_bound(cs[0]);
        let rest = cs.drop_first();
        assert(displayable_kids_m(rest, 0)) by {
            assert(forall|j: int| 0 <= j < rest.len() ==> #[trigger] rest[j] == cs[j + 1]);
            lemma_displayable_kids_intro(rest, cs);
        }
        lemma_height_drop_first(cs);
        lemma_need_bound_kids(rest);
        lemma_display_head(cs[0]);
        if cs.len() == 1 {
            assert(crate::atom::display_children(rest) =~= Seq::<char>::empty());
        } else {
            reveal_strlit(" ");
            lemma_display_children_left(cs);
            assert(crate::atom::display_children(cs).len() == crate::atom::display_m(
                cs[0],
            ).len() + 1 + crate::atom::display_children(rest).len());
        }
    }
}

/// Round trip: parsing the rendering of a displayable atom gives the
/// atom back, consuming the whole text. Symbols must carry plain
/// non-empty names, variables plain names and the parser's initial id;
/// grounded values are out of the round trip's scope. The rendering must
/// fit the parser's machine bound.
pub proof fn lemma_parse_display_round_trip(a: AtomM)
    requires
        displayable_m(a),
        2 * crate::atom::display_m(a).len() + 4 <= u64::MAX,
    ensures
        crate::text::spec_parse(crate::atom::display_m(a), Seq::empty(), 0)
            == crate::text::ParseAtomM::Found(a, crate::atom::display_m(a).len() as int),
{
    let d = crate::atom::display_m(a);
    let fuel = crate::text::parse_fuel_m(d.len(), 0);
    lemma_need_bound(a);
    assert(fuel >= need_a(a));
    assert(d.subrange(0, d.len() as int) =~= d);
    lemma_parse_display_at(a, d, 0, fuel);
}

// ------------------------------------------------------------------
// Sub-type closure
// ------------------------------------------------------------------

/// Sub-type closure: when the space holds `(: a T)` and `(:< T U)`, the
/// symbol `a` checks against type `U`. Stated for ground `T` and `U`, and
/// for spaces whose super-type closure settles within the worklist bound.
pub proof fn lemma_sub_type_closure(
    space: Seq<AtomM>,
    a: AtomM,
    t: AtomM,
    u: AtomM,
    ia: int,
    iu: int,
)
    requires
        a is Sym,
        ground_m(t),
        ground_m(u),
        0 <= ia < space.len(),
        space[ia] == crate::types::typeof_query_m(a, t),
        0 <= iu < space.len(),
        space[iu] == crate::types::isa_query_m(t, u),
        closure_done(space, crate::types::has_types_m(space, a), 0, crate::types::CLOSURE_FUEL as nat),
    ensures
        crate::types::spec_check_type(space, a, u),
{
    let seed = crate::types::has_types_m(space, a);
    let xa = crate::types::fresh_x_m(a);
    // the asserted type T answers the has-type query on a
    assert(crate::types::typeof_query_m(a, t) == (AtomM::Expr {
        children: seq![AtomM::Sym { name: ":"@ }, a, t],
    })) by {
        assert(crate::types::typeof_query_m(a, t)->children =~= seq![
            AtomM::Sym { name: ":"@ },
            a,
            t,
        ]);
    }
    assert(crate::types::typeof_query_m(a, AtomM::Var { v: xa }) == (AtomM::Expr {
        children: seq![AtomM::Sym { name: ":"@ }, a, AtomM::Var { v: xa }],
    })) by {
        assert(crate::types::typeof_query_m(a, AtomM::Var { v: xa })->children =~= seq![
            AtomM::Sym { name: ":"@ },
            a,
            AtomM::Var { v: xa },
        ]);
    }
    lemma_ground_pair_query(space, ia, ":"@, a, t);
    assert(seed.contains(t));
    // T stays in the closed list of a's types
    let fuel = crate::types::CLOSURE_FUEL as nat;
    let qt = crate::types::spec_query_types(space, a);
    lemma_closure_prefix(space, seed, 0, fuel);
    let qi = choose|qi: int| 0 <= qi < seed.len() && seed[qi] == t;
    assert(qt[qi] == t);
    assert(qt.contains(t));
    // U is a direct super-type of T
    let xt = crate::types::fresh_x_m(t);
    assert(crate::types::isa_query_m(t, u) == (AtomM::Expr {
        children: seq![AtomM::Sym { name: ":<"@ }, t, u],
    })) by {
        assert(crate::types::isa_query_m(t, u)->children =~= seq![
            AtomM::Sym { name: ":<"@ },
            t,
            u,
        ]);
    }
    assert(crate::types::isa_query_m(t, AtomM::Var { v: xt }) == (AtomM::Expr {
        children: seq![AtomM::Sym { name: ":<"@ }, t, AtomM::Var { v: xt }],
    })) by {
        assert(crate::types::isa_query_m(t, AtomM::Var { v: xt })->children =~= seq![
            AtomM::Sym { name: ":<"@ },
            t,
            AtomM::Var { v: xt },
        ]);
    }
    lemma_ground_pair_query(space, iu, ":<"@, t, u);
    assert(crate::types::spec_super_types(space, t).contains(u));
    // the closed list is closed under super-types, so it holds U
    lemma_closure_closed(space, seed, 0, fuel);
    let ti = choose|ti: int| 0 <= ti < qt.len() && qt[ti] == t;
    let uk = choose|uk: int|
        0 <= uk < crate::types::spec_super_types(space, t).len()
            && crate::types::spec_super_types(space, t)[uk] == u;
    assert(qt.contains(crate::types::spec_super_types(space, qt[ti])[uk]));
    assert(qt.contains(u));
    // a's types are that non-empty list, and U among them matches U
    assert(crate::types::grt_m(space, a) == qt);
    let ui = choose|ui: int| 0 <= ui < qt.len() && qt[ui] == u;
    lemma_matched_nonempty(crate::types::grt_m(space, a), u, ui);
}

// ------------------------------------------------------------------
// Meta-types
// ------------------------------------------------------------------

/// Meta-type universality: every atom checks against the meta-type
/// `Atom`.
pub proof fn lemma_meta_type_universality(space: Seq<AtomM>, a: AtomM)
    ensures
        crate::types::spec_check_type(space, a, crate::types::atom_sym_m()),
{
}

/// Variant meta-types accept exactly their own kind of atom, and the
/// universal meta-type is none of them.
pub proof fn lemma_variant_meta_types(a: AtomM)
    ensures
        crate::types::check_meta_m(a, crate::types::symbol_sym_m()) == (a is Sym),
        crate::types::check_meta_m(a, crate::types::variable_sym_m()) == (a is Var),
        crate::types::check_meta_m(a, crate::types::grounded_sym_m()) == (a is Gnd),
        crate::types::check_meta_m(a, crate::types::expression_sym_m()) == (a is Expr),
{
    reveal_strlit("Atom");
    reveal_strlit("Symbol");
    reveal_strlit("Variable");
    reveal_strlit("Grounded");
    reveal_strlit("Expression");
    assert("Symbol"@.len() == 6 && "Atom"@.len() == 4 && "Variable"@.len() == 8 && "Grounded"@.len()
        == 8 && "Expression"@.len() == 10);
    assert("Variable"@[0] == 'V' && "Grounded"@[0] == 'G');
}

// ------------------------------------------------------------------
// Validation soundness
// ------------------------------------------------------------------

/// Where a type of an expression comes from: the `%Undefined%` default,
/// the super-type closure over its tuple types and asserted types, or a
/// successful arrow application.
pub open spec fn type_provenance(space: Seq<AtomM>, a: AtomM, t: AtomM) -> bool {
    match a {
        AtomM::Var { .. } => t == crate::types::undefined_m(),
        AtomM::Gnd { g } => t == crate::atom::gnd_type_m(g),
        AtomM::Sym { .. } => t == crate::types::undefined_m() || reachable(
            space,
            crate::types::has_types_m(space, a),
            t,
        ),
        AtomM::Expr { children } => t == crate::types::undefined_m() || reachable(
            space,
            crate::types::keep_tuples_m(
                crate::types::tuples_m(space, children, 0, seq![Seq::<AtomM>::empty()]),
            ) + crate::types::spec_query_types(space, a),
            t,
        ) || crate::types::call_types_m(
            crate::types::filter_funcs_m(crate::types::grt_m(space, children[0]), true),
            crate::types::actuals_m(space, children, 1),
            0,
        ).contains(t),
    }
}

/// Validation soundness: an atom is valid exactly when it has a type,
/// and every type it has comes from an assertion (closed under
/// super-types), from tuple construction, or from a successful arrow
/// application.
pub proof fn lemma_validation_soundness(space: Seq<AtomM>, a: AtomM)
    ensures
        forall|i: int|
            0 <= i < crate::types::grt_m(space, a).len() ==> type_provenance(
                space,
                a,
                #[trigger] crate::types::grt_m(space, a)[i],
            ),
{
    let ts = crate::types::grt_m(space, a);
    assert forall|i: int| 0 <= i < ts.len() implies type_provenance(space, a, ts[i]) by {
        match a {
            AtomM::Sym { .. } => {
                let seed = crate::types::has_types_m(space, a);
                let qt = crate::types::spec_query_types(space, a);
                assert forall|x: AtomM| seed.contains(x) implies reachable(space, seed, x) by {
                    assert(reach_n(space, seed, x, 0));
                }
                lemma_closure_sound(space, seed, 0, crate::types::CLOSURE_FUEL as nat, seed);
                if qt.len() > 0 {
                    assert(ts == qt);
                    assert(qt.contains(qt[i]));
                }
            },
            AtomM::Expr { children } => {
                let roots = crate::types::keep_tuples_m(
                    crate::types::tuples_m(space, children, 0, seq![Seq::<AtomM>::empty()]),
                ) + crate::types::spec_query_types(space, a);
                let types2 = crate::types::closure_m(
                    space,
                    roots,
                    0,
                    crate::types::CLOSURE_FUEL as nat,
                );
                assert forall|x: AtomM| roots.contains(x) implies reachable(space, roots, x) by {
                    assert(reach_n(space, roots, x, 0));
                }
                lemma_closure_sound(space, roots, 0, crate::types::CLOSURE_FUEL as nat, roots);
                if children.len() == 0 {
                    if types2.len() > 0 {
                        assert(ts == types2);
                        assert(types2.contains(ts[i]));
                    }
                } else {
                    let calls = crate::types::call_types_m(
                        crate::types::filter_funcs_m(
                            crate::types::grt_m(space, children[0]),
                            true,
                        ),
                        crate::types::actuals_m(space, children, 1),
                        0,
                    );
                    let types3 = types2 + calls;
                    if !(crate::types::filter_funcs_m(
                        crate::types::grt_m(space, children[0]),
                        true,
                    ).len() == 0 && types3.len() == 0) {
                        assert(ts == types3);
                        if i < types2.len() {
                            assert(types2.contains(types2[i]));
                            assert(ts[i] == types2[i]);
                        } else {
                            assert(ts[i] == calls[i - types2.len()]);
                            assert(calls.contains(calls[i - types2.len()]));
                        }
                    }
                }
            },
            _ => {},
        }
    }
}

// ------------------------------------------------------------------
// Alpha-renaming of rule variables
// ------------------------------------------------------------------

/// A variable with its id shifted up by `d` when at or above `base`;
/// ids below `base` are left alone. Model-level and uncapped: the ids
/// here are mathematical.
pub open spec fn sh_var(v: VarM, base: nat, d: nat) -> VarM {
    if v.id >= base {
        VarM { name: v.name, id: v.id + d }
    } else {
        v
    }
}

/// The shift applied to every variable of an atom.
pub open spec fn sh_atom(m: AtomM, base: nat, d: nat) -> AtomM
    decreases height_m(m), 1nat, 0nat,
{
    match m {
        AtomM::Var { v } => AtomM::Var { v: sh_var(v, base, d) },
        AtomM::Expr { children } => AtomM::Expr { children: sh_kids(children, base, d) },
        _ => m,
    }
}

pub open spec fn sh_kids(s: Seq<AtomM>, base: nat, d: nat) -> Seq<AtomM>
    decreases 1 + height_seq_m(s), 0nat, s.len(),
{
    if s.len() == 0 {
        Seq::empty()
    } else {
        sh_kids(s.drop_last(), base, d).push(sh_atom(s.last(), base, d))
    }
}

pub proof fn lemma_sh_kids(s: Seq<AtomM>, base: nat, d: nat)
    ensures
        sh_kids(s, base, d).len() == s.len(),
        forall|i: int|
            0 <= i < s.len() ==> #[trigger] sh_kids(s, base, d)[i] == sh_atom(s[i], base, d),
    decreases s.len(),
{
    if s.len() > 0 {
        lemma_sh_kids(s.drop_last(), base, d);
    }
}

/// The shift applied to every key and value of a set of bindings.
pub open spec fn sh_binds(b: BindsM, base: nat, d: nat) -> BindsM
    decreases b.len(),
{
    if b.len() == 0 {
        Seq::empty()
    } else {
        sh_binds(b.drop_last(), base, d).push(
            (sh_var(b.last().0, base, d), sh_atom(b.last().1, base, d)),
        )
    }
}

pub proof fn lemma_sh_binds(b: BindsM, base: nat, d: nat)
    ensures
        sh_binds(b, base, d).len() == b.len(),
        forall|i: int|
            0 <= i < b.len() ==> #[trigger] sh_binds(b, base, d)[i] == (
                sh_var(b[i].0, base, d),
                sh_atom(b[i].1, base, d),
            ),
    decreases b.len(),
{
    if b.len() > 0 {
        lemma_sh_binds(b.drop_last(), base, d);
    }
}

/// Shifting looks up along: a key found before is found after, at the
/// shifted value.
proof fn lemma_lookup_sh(b: BindsM, v: VarM, base: nat, d: nat)
    ensures
        lookup_m(sh_binds(b, base, d), sh_var(v, base, d)) == match lookup_m(b, v) {
            Some(x) => Some(sh_atom(x, base, d)),
            None => None::<AtomM>,
        },
    decreases b.len(),
{
    lemma_sh_binds(b, base, d);
    if b.len() > 0 {
        let sb = sh_binds(b, base, d);
        assert(sb[0] == (sh_var(b[0].0, base, d), sh_atom(b[0].1, base, d)));
        assert((sh_var(b[0].0, base, d) == sh_var(v, base, d)) == (b[0].0 == v));
        if b[0].0 != v {
            lemma_lookup_sh(b.drop_first(), v, base, d);
            assert(sb.drop_first() =~= sh_binds(b.drop_first(), base, d)) by {
                lemma_sh_binds(b.drop_first(), base, d);
            }
        }
    }
}

/// Shifting chases along.
proof fn lemma_chase_sh(b: BindsM, val: AtomM, k: nat, base: nat, d: nat)
    ensures
        crate::matcher::chase_m(sh_binds(b, base, d), sh_atom(val, base, d), k) == sh_atom(
            crate::matcher::chase_m(b, val, k),
            base,
            d,
        ),
    decreases k,
{
    match val {
        AtomM::Var { v } => {
            if k > 0 {
                lemma_lookup_sh(b, v, base, d);
                match lookup_m(b, v) {
                    Some(next) => {
                        lemma_chase_sh(b, next, (k - 1) as nat, base, d);
                    },
                    None => {},
                }
            }
        },
        _ => {},
    }
}

/// Shifting resolves along.
proof fn lemma_resolve_sh(b: BindsM, v: VarM, base: nat, d: nat)
    ensures
        crate::matcher::resolve_m(sh_binds(b, base, d), sh_var(v, base, d)) == match crate::matcher::resolve_m(
            b,
            v,
        ) {
            Some(x) => Some(sh_atom(x, base, d)),
            None => None::<AtomM>,
        },
{
    lemma_lookup_sh(b, v, base, d);
    lemma_sh_binds(b, base, d);
    match lookup_m(b, v) {
        Some(val) => {
            lemma_chase_sh(b, val, b.len(), base, d);
        },
        None => {},
    }
}

/// Shifting substitutes along.
proof fn lemma_apply_sh(m: AtomM, b: BindsM, fuel: nat, base: nat, d: nat)
    ensures
        apply_m(sh_atom(m, base, d), sh_binds(b, base, d), fuel) == sh_atom(
            apply_m(m, b, fuel),
            base,
            d,
        ),
    decreases fuel, height_m(m), 1nat, 0nat,
{
    match m {
        AtomM::Var { v } => {
            lemma_resolve_sh(b, v, base, d);
            match crate::matcher::resolve_m(b, v) {
                None => {},
                Some(val) => {
                    assert((sh_atom(val, base, d) is Var) == (val is Var));
                    if !(val is Var) && fuel > 0 {
                        lemma_apply_sh(val, b, (fuel - 1) as nat, base, d);
                    }
                },
            }
        },
        AtomM::Expr { children } => {
            lemma_apply_sh_kids(children, children.len() as int, b, fuel, base, d);
            crate::matcher::lemma_apply_kids_m(children, b, fuel);
            crate::matcher::lemma_apply_kids_m(sh_kids(children, base, d), sh_binds(b, base, d), fuel);
            lemma_sh_kids(children, base, d);
            lemma_sh_kids(apply_kids_m(children, b, fuel), base, d);
            assert(apply_kids_m(sh_kids(children, base, d), sh_binds(b, base, d), fuel)
                =~= sh_kids(apply_kids_m(children, b, fuel), base, d));
        },
        _ => {},
    }
}

proof fn lemma_apply_sh_kids(s: Seq<AtomM>, i: int, b: BindsM, fuel: nat, base: nat, d: nat)
    requires
        0 <= i <= s.len(),
    ensures
        forall|j: int|
            0 <= j < i ==> apply_m(#[trigger] sh_atom(s[j], base, d), sh_binds(b, base, d), fuel)
                == sh_atom(apply_m(s[j], b, fuel), base, d),
    decreases fuel, 1 + height_seq_m(s), 0nat, i,
{
    if i > 0 {
        lemma_height_seq_elem(s, i - 1);
        lemma_apply_sh_kids(s, i - 1, b, fuel, base, d);
        lemma_apply_sh(s[i - 1], b, fuel, base, d);
    }
}

/// Shifting keeps occurrences.
proof fn lemma_occurs_sh(m: AtomM, v: VarM, base: nat, d: nat)
    ensures
        occurs_m(sh_atom(m, base, d), sh_var(v, base, d)) == occurs_m(m, v),
    decreases height_m(m), 1nat, 0nat,
{
    match m {
        AtomM::Var { v: w } => {
            assert((sh_var(w, base, d) == sh_var(v, base, d)) == (w == v));
        },
        AtomM::Expr { children } => {
            lemma_sh_kids(children, base, d);
            lemma_occurs_sh_kids(children, children.len() as int, v, base, d);
        },
        _ => {},
    }
}

proof fn lemma_occurs_sh_kids(s: Seq<AtomM>, i: int, v: VarM, base: nat, d: nat)
    requires
        0 <= i <= s.len(),
    ensures
        occurs_kids_m(sh_kids(s, base, d), sh_var(v, base, d), i) == occurs_kids_m(s, v, i),
    decreases 1 + height_seq_m(s), 0nat, i,
{
    lemma_sh_kids(s, base, d);
    if i > 0 {
        lemma_height_seq_elem(s, i - 1);
        lemma_occurs_sh_kids(s, i - 1, v, base, d);
        lemma_occurs_sh(s[i - 1], v, base, d);
    }
}

/// Every variable id in `m` stays below `bound`.
pub open spec fn ids_below_m(m: AtomM, bound: nat) -> bool
    decreases height_m(m), 1nat, 0nat,
{
    match m {
        AtomM::Var { v } => v.id < bound,
        AtomM::Expr { children } => ids_below_kids(children, 0, bound),
        _ => true,
    }
}

pub open spec fn ids_below_kids(s: Seq<AtomM>, i: int, bound: nat) -> bool
    decreases 1 + height_seq_m(s), 0nat, s.len() - i,
    via ids_below_kids_decreases
{
    if i < 0 || i >= s.len() {
        true
    } else {
        ids_below_m(s[i], bound) && ids_below_kids(s, i + 1, bound)
    }
}

#[via_fn]
proof fn ids_below_kids_decreases(s: Seq<AtomM>, i: int, bound: nat) {
    if 0 <= i < s.len() {
        lemma_height_seq_elem(s, i);
    }
}

proof fn lemma_ids_below_kids_elem(s: Seq<AtomM>, i: int, j: int, bound: nat)
    requires
        0 <= i <= j < s.len(),
        ids_below_kids(s, i, bound),
    ensures
        ids_below_m(s[j], bound),
    decreases j - i,
{
    if i < j {
        lemma_ids_below_kids_elem(s, i + 1, j, bound);
    }
}

/// Ids sit at or below the largest id.
proof fn lemma_ids_below_max(m: AtomM)
    ensures
        ids_below_m(m, max_id_m(m) + 1),
    decreases height_m(m), 1nat, 0nat,
{
    match m {
        AtomM::Expr { children } => {
            lemma_ids_below_max_kids(children, 0, max_id_m(m) + 1);
        },
        _ => {},
    }
}

proof fn lemma_ids_below_max_kids(s: Seq<AtomM>, i: int, bound: nat)
    requires
        0 <= i <= s.len(),
        max_id_kids_m(s) < bound,
    ensures
        ids_below_kids(s, i, bound),
    decreases 1 + height_seq_m(s), 0nat, s.len() - i,
{
    if i < s.len() {
        lemma_height_seq_elem(s, i);
        lemma_max_id_kids_elem(s, i);
        lemma_ids_below_max(s[i]);
        lemma_ids_below_monotone(s[i], max_id_m(s[i]) + 1, bound);
        lemma_ids_below_max_kids(s, i + 1, bound);
    }
}

proof fn lemma_max_id_kids_elem(s: Seq<AtomM>, i: int)
    requires
        0 <= i < s.len(),
    ensures
        max_id_m(s[i]) <= max_id_kids_m(s),
    decreases s.len(),
{
    if i < s.len() - 1 {
        lemma_max_id_kids_elem(s.drop_last(), i);
    }
}

proof fn lemma_ids_below_monotone(m: AtomM, b1: nat, b2: nat)
    requires
        b1 <= b2,
        ids_below_m(m, b1),
    ensures
        ids_below_m(m, b2),
    decreases height_m(m), 1nat, 0nat,
{
    match m {
        AtomM::Expr { children } => {
            lemma_ids_below_monotone_kids(children, 0, b1, b2);
        },
        _ => {},
    }
}

proof fn lemma_ids_below_monotone_kids(s: Seq<AtomM>, i: int, b1: nat, b2: nat)
    requires
        b1 <= b2,
        ids_below_kids(s, 0, b1),
        0 <= i <= s.len(),
    ensures
        ids_below_kids(s, i, b2),
    decreases 1 + height_seq_m(s), 0nat, s.len() - i,
{
    if i < s.len() {
        lemma_height_seq_elem(s, i);
        lemma_ids_below_kids_elem(s, 0, i, b1);
        lemma_ids_below_monotone(s[i], b1, b2);
        lemma_ids_below_monotone_kids(s, i + 1, b1, b2);
    }
}

proof fn lemma_sh_binds_push(b: BindsM, p: (VarM, AtomM), base: nat, d: nat)
    ensures
        sh_binds(b.push(p), base, d) == sh_binds(b, base, d).push(
            (sh_var(p.0, base, d), sh_atom(p.1, base, d)),
        ),
{
    assert(b.push(p).drop_last() =~= b);
}

/// Shifting matches along: the unifier is equivariant under the
/// injective renaming that shifts every id at or above `base` up by `d`.
proof fn lemma_match_sh(l: AtomM, r: AtomM, b: BindsM, fuel: nat, base: nat, d: nat)
    ensures
        match_m(sh_atom(l, base, d), sh_atom(r, base, d), sh_binds(b, base, d), fuel)
            == match match_m(l, r, b, fuel) {
            Some(c) => Some(sh_binds(c, base, d)),
            None => None::<BindsM>,
        },
    decreases fuel, height_m(l) + height_m(r), 1nat, 0nat,
{
    let sl = sh_atom(l, base, d);
    let sr = sh_atom(r, base, d);
    let sb = sh_binds(b, base, d);
    if l is Var && r is Var {
        assert((sl->v == sr->v) == (l->v == r->v));
        if l->v != r->v {
            lemma_add_binding_sh(b, l->v, r, fuel, base, d);
        }
    } else if l is Var {
        lemma_add_binding_sh(b, l->v, r, fuel, base, d);
    } else if r is Var {
        lemma_add_binding_sh(b, r->v, l, fuel, base, d);
    } else if l is Gnd {
        assert(sl == l);
        assert((l == sr) == (l == r)) by {
            if r is Gnd {
                assert(sr == r);
            } else {
                assert(!(sr is Gnd));
            }
        }
    } else if r is Gnd {
        assert(sr == r);
    } else if l is Sym && r is Sym {
    } else if l is Expr && r is Expr {
        lemma_sh_kids(l->children, base, d);
        lemma_sh_kids(r->children, base, d);
        if l->children.len() == r->children.len() {
            lemma_match_kids_sh(l->children, r->children, 0, b, fuel, base, d);
        }
    }
}

proof fn lemma_match_kids_sh(
    xs: Seq<AtomM>,
    ys: Seq<AtomM>,
    i: int,
    b: BindsM,
    fuel: nat,
    base: nat,
    d: nat,
)
    requires
        xs.len() == ys.len(),
    ensures
        match_kids_m(
            sh_kids(xs, base, d),
            sh_kids(ys, base, d),
            i,
            sh_binds(b, base, d),
            fuel,
        ) == match match_kids_m(xs, ys, i, b, fuel) {
            Some(c) => Some(sh_binds(c, base, d)),
            None => None::<BindsM>,
        },
    decreases fuel, height_seq_m(xs) + height_seq_m(ys), 2nat, xs.len() - i,
{
    lemma_sh_kids(xs, base, d);
    lemma_sh_kids(ys, base, d);
    if 0 <= i < xs.len() {
        lemma_height_seq_elem(xs, i);
        lemma_height_seq_elem(ys, i);
        lemma_match_sh(xs[i], ys[i], b, fuel, base, d);
        match match_m(xs[i], ys[i], b, fuel) {
            Some(c) => {
                lemma_match_kids_sh(xs, ys, i + 1, c, fuel, base, d);
            },
            None => {},
        }
    }
}

proof fn lemma_add_binding_sh(b: BindsM, v: VarM, val: AtomM, fuel: nat, base: nat, d: nat)
    ensures
        add_binding_m(sh_binds(b, base, d), sh_var(v, base, d), sh_atom(val, base, d), fuel)
            == match add_binding_m(b, v, val, fuel) {
            Some(c) => Some(sh_binds(c, base, d)),
            None => None::<BindsM>,
        },
    decreases fuel, height_m(val), 0nat, 0nat,
{
    lemma_lookup_sh(b, v, base, d);
    match lookup_m(b, v) {
        Some(existing) => {
            if fuel > 0 {
                lemma_match_sh(existing, val, b, (fuel - 1) as nat, base, d);
            }
        },
        None => {
            lemma_apply_sh(val, b, fuel, base, d);
            let applied = apply_m(val, b, fuel);
            assert((sh_atom(applied, base, d) == (AtomM::Var { v: sh_var(v, base, d) })) == (
            applied == (AtomM::Var { v }))) by {
                if applied is Var {
                    assert((sh_var(applied->v, base, d) == sh_var(v, base, d)) == (applied->v
                        == v));
                } else {
                    assert(!(sh_atom(applied, base, d) is Var));
                }
            }
            lemma_occurs_sh(applied, v, base, d);
            lemma_sh_binds_push(b, (v, val), base, d);
        },
    }
}

/// A variable up to its identity: the name with the id forgotten.
pub open spec fn erase_var(v: VarM) -> VarM {
    VarM { name: v.name, id: 0 }
}

/// An atom up to variable identity: every variable id forgotten.
pub open spec fn erase_atom(m: AtomM) -> AtomM
    decreases height_m(m), 1nat, 0nat,
{
    match m {
        AtomM::Var { v } => AtomM::Var { v: erase_var(v) },
        AtomM::Expr { children } => AtomM::Expr { children: erase_kids(children) },
        _ => m,
    }
}

pub open spec fn erase_kids(s: Seq<AtomM>) -> Seq<AtomM>
    decreases 1 + height_seq_m(s), 0nat, s.len(),
{
    if s.len() == 0 {
        Seq::empty()
    } else {
        erase_kids(s.drop_last()).push(erase_atom(s.last()))
    }
}

pub proof fn lemma_erase_kids(s: Seq<AtomM>)
    ensures
        erase_kids(s).len() == s.len(),
        forall|i: int| 0 <= i < s.len() ==> #[trigger] erase_kids(s)[i] == erase_atom(s[i]),
    decreases s.len(),
{
    if s.len() > 0 {
        lemma_erase_kids(s.drop_last());
    }
}

/// A set of bindings up to variable identity.
pub open spec fn erase_binds(b: BindsM) -> BindsM
    decreases b.len(),
{
    if b.len() == 0 {
        Seq::empty()
    } else {
        erase_binds(b.drop_last()).push((erase_var(b.last().0), erase_atom(b.last().1)))
    }
}

pub proof fn lemma_erase_binds(b: BindsM)
    ensures
        erase_binds(b).len() == b.len(),
        forall|i: int|
            0 <= i < b.len() ==> #[trigger] erase_binds(b)[i] == (
                erase_var(b[i].0),
                erase_atom(b[i].1),
            ),
    decreases b.len(),
{
    if b.len() > 0 {
        lemma_erase_binds(b.drop_last());
    }
}

/// A sequence of answers up to variable identity.
pub open spec fn erase_answers(bms: Seq<BindsM>) -> Seq<BindsM>
    decreases bms.len(),
{
    if bms.len() == 0 {
        Seq::empty()
    } else {
        erase_answers(bms.drop_last()).push(erase_binds(bms.last()))
    }
}

pub proof fn lemma_erase_answers(bms: Seq<BindsM>)
    ensures
        erase_answers(bms).len() == bms.len(),
        forall|i: int|
            0 <= i < bms.len() ==> #[trigger] erase_answers(bms)[i] == erase_binds(bms[i]),
    decreases bms.len(),
{
    if bms.len() > 0 {
        lemma_erase_answers(bms.drop_last());
    }
}

/// Forgetting ids absorbs a shift.
proof fn lemma_erase_sh(m: AtomM, base: nat, d: nat)
    ensures
        erase_atom(sh_atom(m, base, d)) == erase_atom(m),
    decreases height_m(m), 1nat, 0nat,
{
    match m {
        AtomM::Expr { children } => {
            lemma_sh_kids(children, base, d);
            lemma_erase_kids(children);
            lemma_erase_kids(sh_kids(children, base, d));
            lemma_erase_sh_kids(children, children.len() as int, base, d);
            assert(erase_kids(sh_kids(children, base, d)) =~= erase_kids(children));
        },
        _ => {},
    }
}

proof fn lemma_erase_sh_kids(s: Seq<AtomM>, i: int, base: nat, d: nat)
    requires
        0 <= i <= s.len(),
    ensures
        forall|j: int|
            0 <= j < i ==> erase_atom(#[trigger] sh_atom(s[j], base, d)) == erase_atom(s[j]),
    decreases 1 + height_seq_m(s), 0nat, i,
{
    if i > 0 {
        lemma_height_seq_elem(s, i - 1);
        lemma_erase_sh_kids(s, i - 1, base, d);
        lemma_erase_sh(s[i - 1], base, d);
    }
}

/// Forgetting ids absorbs the inverse query renaming.
proof fn lemma_erase_unrename(m: AtomM, base: nat)
    ensures
        erase_atom(crate::matcher::unrename_m(m, base)) == erase_atom(m),
    decreases height_m(m), 1nat, 0nat,
{
    match m {
        AtomM::Expr { children } => {
            crate::matcher::lemma_unrename_kids_m(children, base);
            lemma_erase_kids(children);
            lemma_erase_kids(crate::matcher::unrename_kids_m(children, base));
            lemma_erase_unrename_kids(children, children.len() as int, base);
            assert(erase_kids(crate::matcher::unrename_kids_m(children, base)) =~= erase_kids(
                children,
            ));
        },
        _ => {},
    }
}

proof fn lemma_erase_unrename_kids(s: Seq<AtomM>, i: int, base: nat)
    requires
        0 <= i <= s.len(),
    ensures
        forall|j: int|
            0 <= j < i ==> erase_atom(
                #[trigger] crate::matcher::unrename_m(s[j], base),
            ) == erase_atom(s[j]),
    decreases 1 + height_seq_m(s), 0nat, i,
{
    if i > 0 {
        lemma_height_seq_elem(s, i - 1);
        lemma_erase_unrename_kids(s, i - 1, base);
        lemma_erase_unrename(s[i - 1], base);
    }
}

/// Shifting from `base` fixes an atom whose ids lie below `base`.
proof fn lemma_sh_fixes_below(m: AtomM, base: nat, d: nat)
    requires
        ids_below_m(m, base),
    ensures
        sh_atom(m, base, d) == m,
    decreases height_m(m), 1nat, 0nat,
{
    match m {
        AtomM::Expr { children } => {
            lemma_sh_fixes_below_kids(children, children.len() as int, base, d);
            lemma_sh_kids(children, base, d);
            assert(sh_kids(children, base, d) =~= children);
        },
        _ => {},
    }
}

proof fn lemma_sh_fixes_below_kids(s: Seq<AtomM>, i: int, base: nat, d: nat)
    requires
        ids_below_kids(s, 0, base),
        0 <= i <= s.len(),
    ensures
        forall|j: int| 0 <= j < i ==> #[trigger] sh_atom(s[j], base, d) == s[j],
    decreases 1 + height_seq_m(s), 0nat, i,
{
    if i > 0 {
        lemma_height_seq_elem(s, i - 1);
        lemma_sh_fixes_below_kids(s, i - 1, base, d);
        lemma_ids_below_kids_elem(s, 0, i - 1, base);
        lemma_sh_fixes_below(s[i - 1], base, d);
    }
}

/// The query's capture-avoiding renaming of an alpha-renamed atom is the
/// alpha-shift of the renaming of the atom itself, as long as no id
/// overflows the machine range.
proof fn lemma_rename_sh_compose(m: AtomM, qbase: nat, d: nat, bound: nat)
    requires
        ids_below_m(m, bound),
        bound + d + qbase <= u64::MAX + 1,
    ensures
        rename_m(sh_atom(m, 0, d), qbase) == sh_atom(rename_m(m, qbase), qbase, d),
    decreases height_m(m), 1nat, 0nat,
{
    match m {
        AtomM::Expr { children } => {
            lemma_sh_kids(children, 0, d);
            lemma_sh_kids(rename_kids_m(children, qbase), qbase, d);
            crate::matcher::lemma_rename_kids_m(children, qbase);
            crate::matcher::lemma_rename_kids_m(sh_kids(children, 0, d), qbase);
            lemma_rename_sh_compose_kids(children, children.len() as int, qbase, d, bound);
            assert(rename_kids_m(sh_kids(children, 0, d), qbase) =~= sh_kids(
                rename_kids_m(children, qbase),
                qbase,
                d,
            ));
        },
        _ => {},
    }
}

proof fn lemma_rename_sh_compose_kids(s: Seq<AtomM>, i: int, qbase: nat, d: nat, bound: nat)
    requires
        ids_below_kids(s, 0, bound),
        bound + d + qbase <= u64::MAX + 1,
        0 <= i <= s.len(),
    ensures
        forall|j: int|
            0 <= j < i ==> rename_m(#[trigger] sh_atom(s[j], 0, d), qbase) == sh_atom(
                rename_m(s[j], qbase),
                qbase,
                d,
            ),
    decreases 1 + height_seq_m(s), 0nat, i,
{
    if i > 0 {
        lemma_height_seq_elem(s, i - 1);
        lemma_rename_sh_compose_kids(s, i - 1, qbase, d, bound);
        lemma_ids_below_kids_elem(s, 0, i - 1, bound);
        lemma_rename_sh_compose(s[i - 1], qbase, d, bound);
    }
}

/// The variables a pattern's collection gathers keep the pattern's id
/// bound.
proof fn lemma_vars_ids_below(m: AtomM, acc: Seq<VarM>, bound: nat)
    requires
        ids_below_m(m, bound),
        forall|j: int| 0 <= j < acc.len() ==> (#[trigger] acc[j]).id < bound,
    ensures
        crate::matcher::add_vars_m(m, acc).len() >= acc.len(),
        forall|j: int|
            0 <= j < crate::matcher::add_vars_m(m, acc).len() ==> (
            #[trigger] crate::matcher::add_vars_m(m, acc)[j]).id < bound,
    decreases height_m(m), 1nat, 0nat,
{
    match m {
        AtomM::Var { v } => {
            if !acc.contains(v) {
                assert(forall|j: int|
                    0 <= j < acc.push(v).len() ==> (#[trigger] acc.push(v)[j]).id < bound);
            }
        },
        AtomM::Expr { children } => {
            lemma_vars_ids_below_kids(children, 0, acc, bound);
        },
        _ => {},
    }
}

proof fn lemma_vars_ids_below_kids(s: Seq<AtomM>, i: int, acc: Seq<VarM>, bound: nat)
    requires
        ids_below_kids(s, 0, bound),
        forall|j: int| 0 <= j < acc.len() ==> (#[trigger] acc[j]).id < bound,
        0 <= i <= s.len(),
    ensures
        crate::matcher::add_vars_kids_m(s, i, acc).len() >= acc.len(),
        forall|j: int|
            0 <= j < crate::matcher::add_vars_kids_m(s, i, acc).len() ==> (
            #[trigger] crate::matcher::add_vars_kids_m(s, i, acc)[j]).id < bound,
    decreases 1 + height_seq_m(s), 0nat, s.len() - i,
{
    if i < s.len() {
        lemma_height_seq_elem(s, i);
        lemma_ids_below_kids_elem(s, 0, i, bound);
        lemma_vars_ids_below(s[i], acc, bound);
        lemma_vars_ids_below_kids(s, i + 1, crate::matcher::add_vars_m(s[i], acc), bound);
    }
}

/// Up to variable identity, an answer built from alpha-shifted raw
/// bindings is the answer built from the raw bindings.
proof fn lemma_postproc_alpha(vs: Seq<VarM>, bm: BindsM, qbase: nat, d: nat)
    requires
        forall|j: int| 0 <= j < vs.len() ==> (#[trigger] vs[j]).id < qbase,
    ensures
        erase_binds(crate::space::postproc_vars_m(vs, sh_binds(bm, qbase, d), qbase))
            == erase_binds(crate::space::postproc_vars_m(vs, bm, qbase)),
    decreases vs.len(),
{
    if vs.len() > 0 {
        lemma_postproc_alpha(vs.drop_last(), bm, qbase, d);
        let v = vs.last();
        let bm2 = sh_binds(bm, qbase, d);
        let rest1 = crate::space::postproc_vars_m(vs.drop_last(), bm, qbase);
        let rest2 = crate::space::postproc_vars_m(vs.drop_last(), bm2, qbase);
        assert(sh_var(v, qbase, d) == v);
        lemma_lookup_sh(bm, v, qbase, d);
        assert((lookup_m(bm2, v) is Some) == (lookup_m(bm, v) is Some));
        if lookup_m(bm, v) is Some {
            assert(sh_atom(AtomM::Var { v }, qbase, d) == (AtomM::Var { v }));
            lemma_apply_sh(AtomM::Var { v }, bm, MATCH_FUEL as nat, qbase, d);
            let x = apply_m(AtomM::Var { v }, bm, MATCH_FUEL as nat);
            let x2 = apply_m(AtomM::Var { v }, bm2, MATCH_FUEL as nat);
            assert(x2 == sh_atom(x, qbase, d));
            lemma_erase_unrename(x2, qbase);
            lemma_erase_sh(x, qbase, d);
            lemma_erase_unrename(x, qbase);
            let pair1 = (v, crate::matcher::unrename_m(x, qbase));
            let pair2 = (v, crate::matcher::unrename_m(x2, qbase));
            let r1 = crate::space::postproc_vars_m(vs, bm, qbase);
            let r2 = crate::space::postproc_vars_m(vs, bm2, qbase);
            assert(r1 == rest1.push(pair1));
            assert(r2 == rest2.push(pair2));
            assert(rest1.push(pair1).drop_last() =~= rest1);
            assert(rest2.push(pair2).drop_last() =~= rest2);
            assert(erase_binds(r1) == erase_binds(rest1).push(
                (erase_var(pair1.0), erase_atom(pair1.1)),
            ));
            assert(erase_binds(r2) == erase_binds(rest2).push(
                (erase_var(pair2.0), erase_atom(pair2.1)),
            ));
            assert(erase_atom(pair2.1) == erase_atom(pair1.1));
        }
    }
}

/// Up to variable identity, the query results over the atoms from
/// position `i` on are unchanged when the atom at `idx` is alpha-renamed.
proof fn lemma_query_from_alpha(
    space: Seq<AtomM>,
    space2: Seq<AtomM>,
    p: AtomM,
    i: int,
    idx: int,
    d: nat,
)
    requires
        0 <= idx < space.len(),
        space2 == space.update(idx, sh_atom(space[idx], 0, d)),
        max_id_m(p) + 1 <= u64::MAX,
        max_id_m(space[idx]) + 1 + d + crate::space::query_base(p) <= u64::MAX + 1,
        0 <= i,
    ensures
        erase_answers(crate::space::query_from_m(space2, p, i, crate::space::query_base(p)))
            == erase_answers(crate::space::query_from_m(space, p, i, crate::space::query_base(p))),
    decreases space.len() - i,
{
    let qbase = crate::space::query_base(p);
    if i < space.len() {
        lemma_query_from_alpha(space, space2, p, i + 1, idx, d);
        let rest1 = crate::space::query_from_m(space, p, i + 1, qbase);
        let rest2 = crate::space::query_from_m(space2, p, i + 1, qbase);
        if i != idx {
            assert(space2[i] == space[i]);
            match spec_match(p, rename_m(space[i], qbase)) {
                None => {},
                Some(bm) => {
                    let head = crate::space::postproc_m(p, bm, qbase);
                    assert(erase_answers(seq![head] + rest2) =~= seq![erase_binds(head)]
                        + erase_answers(rest2)) by {
                        lemma_erase_answers(seq![head] + rest2);
                        lemma_erase_answers(rest2);
                    }
                    assert(erase_answers(seq![head] + rest1) =~= seq![erase_binds(head)]
                        + erase_answers(rest1)) by {
                        lemma_erase_answers(seq![head] + rest1);
                        lemma_erase_answers(rest1);
                    }
                },
            }
        } else {
            // the alpha-renamed atom: its match result is the shifted one
            let s = space[idx];
            lemma_ids_below_max(s);
            lemma_ids_below_monotone(s, max_id_m(s) + 1, max_id_m(s) + 1);
            lemma_rename_sh_compose(s, qbase, d, max_id_m(s) + 1);
            lemma_ids_below_max(p);
            assert(qbase == max_id_m(p) + 1);
            lemma_sh_fixes_below(p, qbase, d);
            lemma_match_sh(p, rename_m(s, qbase), Seq::empty(), MATCH_FUEL as nat, qbase, d);
            assert(sh_binds(Seq::empty(), qbase, d) =~= Seq::<(VarM, AtomM)>::empty());
            assert(spec_match(p, rename_m(space2[i], qbase)) == match spec_match(
                p,
                rename_m(s, qbase),
            ) {
                Some(c) => Some(sh_binds(c, qbase, d)),
                None => None::<BindsM>,
            });
            match spec_match(p, rename_m(s, qbase)) {
                None => {},
                Some(bm) => {
                    let head1 = crate::space::postproc_m(p, bm, qbase);
                    let head2 = crate::space::postproc_m(p, sh_binds(bm, qbase, d), qbase);
                    lemma_vars_ids_below(p, Seq::empty(), qbase);
                    lemma_postproc_alpha(crate::matcher::vars_m(p), bm, qbase, d);
                    assert(erase_binds(head2) == erase_binds(head1));
                    assert(erase_answers(seq![head2] + rest2) =~= seq![erase_binds(head2)]
                        + erase_answers(rest2)) by {
                        lemma_erase_answers(seq![head2] + rest2);
                        lemma_erase_answers(rest2);
                    }
                    assert(erase_answers(seq![head1] + rest1) =~= seq![erase_binds(head1)]
                        + erase_answers(rest1)) by {
                        lemma_erase_answers(seq![head1] + rest1);
                        lemma_erase_answers(rest1);
                    }
                },
            }
        }
    }
}

/// Alpha-equivalence: renaming a stored rule's variables to fresh ids
/// preserves every query's results up to variable identity. The renaming
/// shifts the rule's variable ids by `d`; the ids must stay within the
/// machine range.
pub proof fn lemma_alpha_equivalence(space: Seq<AtomM>, idx: int, d: nat, p: AtomM)
    requires
        0 <= idx < space.len(),
        max_id_m(p) + 1 <= u64::MAX,
        max_id_m(space[idx]) + 1 + d + crate::space::query_base(p) <= u64::MAX + 1,
    ensures
        erase_answers(spec_query(space.update(idx, sh_atom(space[idx], 0, d)), p))
            == erase_answers(spec_query(space, p)),
{
    let space2 = space.update(idx, sh_atom(space[idx], 0, d));
    lemma_query_from_alpha(space, space2, p, 0, idx, d);
}

} // verus!
