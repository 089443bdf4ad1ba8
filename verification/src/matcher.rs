//! Bindings (substitutions from variables to atoms) and the unifier.
//!
//! `match_atoms` performs full unification: variables on either side may
//! bind to atoms on the other side. Bindings form chains (a variable may be
//! bound to another variable); `resolve` follows a chain until it reaches a
//! non-variable value or an unbound variable, and an occurs check at
//! insertion keeps the chains free of cycles.

use vstd::prelude::*;

use crate::atom::{
    clone_atom, eq_atoms, height_a, height_m, height_seq_m, lemma_child_height,
    lemma_height_seq_elem, lemma_models_of, models_of, Atom, AtomM, ExpressionAtom, GndM,
    GroundedValue, VarM, VariableAtom,
};

verus! {

/// Mathematical model of a set of bindings: the key/value pairs in
/// insertion order. Keys are distinct.
pub type BindsM = Seq<(VarM, AtomM)>;

/// Recursion bound for the unifier. Structural recursion over the two atoms
/// needs no bound; the bound only limits how deeply a chain of
/// already-bound variables can be re-unified against new values, which in
/// practice is bounded by the number of variables in play.
pub const MATCH_FUEL: u64 = 1000000;

/// A mapping from variables to atoms, produced by the matcher, merged, and
/// consumed by substitution. Insertion order is kept so that query results
/// are deterministic.
#[derive(Debug)]
pub struct Bindings {
    pub pairs: Vec<(VariableAtom, Atom)>,
}

/// The models of a sequence of binding pairs, element by element.
pub open spec fn pairs_model(s: Seq<(VariableAtom, Atom)>) -> BindsM
    decreases s,
{
    if s.len() == 0 {
        Seq::empty()
    } else {
        pairs_model(s.drop_last()).push((s.last().0.model(), s.last().1.model()))
    }
}

pub proof fn lemma_pairs_model(s: Seq<(VariableAtom, Atom)>)
    ensures
        pairs_model(s).len() == s.len(),
        forall|i: int|
            0 <= i < s.len() ==> #[trigger] pairs_model(s)[i] == (s[i].0.model(), s[i].1.model()),
    decreases s.len(),
{
    if s.len() > 0 {
        lemma_pairs_model(s.drop_last());
    }
}

/// The value directly bound to `v`, if any: the first pair with key `v`.
pub open spec fn lookup_m(s: BindsM, v: VarM) -> Option<AtomM>
    decreases s.len(),
{
    if s.len() == 0 {
        None
    } else if s[0].0 == v {
        Some(s[0].1)
    } else {
        lookup_m(s.drop_first(), v)
    }
}

/// Distinct keys.
pub open spec fn wf_binds(s: BindsM) -> bool {
    forall|i: int, j: int| 0 <= i < j < s.len() ==> s[i].0 != s[j].0
}

/// Chain chasing: starting from a bound value, follow variable-to-variable
/// links for at most `k` steps.
pub open spec fn chase_m(s: BindsM, val: AtomM, k: nat) -> AtomM
    decreases k,
{
    match val {
        AtomM::Var { v } => {
            if k == 0 {
                val
            } else {
                match lookup_m(s, v) {
                    Some(next) => chase_m(s, next, (k - 1) as nat),
                    None => val,
                }
            }
        },
        _ => val,
    }
}

/// Resolution of a variable: `None` when unbound, otherwise the end of its
/// chain (a non-variable value, or the last variable of the chain).
pub open spec fn resolve_m(s: BindsM, v: VarM) -> Option<AtomM> {
    match lookup_m(s, v) {
        Some(val) => Some(chase_m(s, val, s.len())),
        None => None,
    }
}

/// The bindings with any direct binding of `v` removed.
pub open spec fn remove_key_m(s: BindsM, v: VarM) -> BindsM
    decreases s.len(),
{
    if s.len() == 0 {
        s
    } else if s[0].0 == v {
        s.drop_first()
    } else {
        seq![s[0]] + remove_key_m(s.drop_first(), v)
    }
}

impl Bindings {
    /// The mathematical model of these bindings.
    pub open spec fn model(self) -> BindsM {
        pairs_model(self.pairs@)
    }

    /// Distinct keys.
    pub open spec fn wf(self) -> bool {
        wf_binds(self.model())
    }

    /// The empty bindings.
    pub fn new() -> (r: Bindings)
        ensures
            r.model() == Seq::<(VarM, AtomM)>::empty(),
            r.wf(),
    {
        let r = Bindings { pairs: Vec::new() };
        proof {
            assert(r.pairs@.len() == 0);
        }
        r
    }

    /// The index of the pair binding `v`, if any.
    fn lookup_idx(&self, v: &VariableAtom) -> (r: Option<usize>)
        ensures
            match r {
                Some(i) => i < self.pairs@.len() && self.model()[i as int].0 == v.model()
                    && lookup_m(self.model(), v.model()) == Some(self.model()[i as int].1)
                    && (forall|j: int| 0 <= j < i ==> self.model()[j].0 != v.model()),
                None => lookup_m(self.model(), v.model()) is None,
            },
    {
        proof {
            lemma_pairs_model(self.pairs@);
            assert(self.model().skip(0) =~= self.model());
        }
        let n = self.pairs.len();
        let mut i: usize = 0;
        while i < n
            invariant
                n == self.pairs@.len(),
                i <= n,
                lookup_m(self.model(), v.model()) == lookup_from_m(self.model(), v.model(), i as int),
                forall|j: int| 0 <= j < i ==> self.model()[j].0 != v.model(),
            decreases n - i,
        {
            proof {
                lemma_pairs_model(self.pairs@);
            }
            let p = &self.pairs[i];
            if p.0.name == v.name && p.0.id == v.id {
                proof {
                    lemma_lookup_from_hit(self.model(), v.model(), i as int);
                }
                return Some(i);
            }
            proof {
                lemma_lookup_from_miss(self.model(), v.model(), i as int);
            }
            i = i + 1;
        }
        proof {
            lemma_lookup_from_end(self.model(), v.model());
        }
        None
    }

    /// Whether `v` is directly bound.
    pub fn binds(&self, v: &VariableAtom) -> (r: bool)
        ensures
            r == (lookup_m(self.model(), v.model()) is Some),
    {
        self.lookup_idx(v).is_some()
    }

    /// The resolution of `v`: follow the chain of variable-to-variable
    /// bindings to its end.
    pub fn resolve(&self, v: &VariableAtom) -> (r: Option<Atom>)
        ensures
            match r {
                Some(a) => resolve_m(self.model(), v.model()) == Some(a.model()),
                None => resolve_m(self.model(), v.model()) is None,
            },
    {
        let idx = match self.lookup_idx(v) {
            None => {
                return None;
            },
            Some(i) => i,
        };
        let n = self.pairs.len();
        let mut steps: usize = 0;
        let mut cur: &Atom = &self.pairs[idx].1;
        proof {
            lemma_pairs_model(self.pairs@);
        }
        while steps < n
            invariant
                n == self.pairs@.len(),
                steps <= n,
                chase_m(self.model(), self.pairs@[idx as int].1.model(), n as nat) == chase_m(
                    self.model(),
                    cur.model(),
                    (n - steps) as nat,
                ),
                idx < self.pairs@.len(),
                resolve_m(self.model(), v.model()) == Some(
                    chase_m(self.model(), self.pairs@[idx as int].1.model(), n as nat),
                ),
            decreases n - steps,
        {
            match cur {
                Atom::Variable(w) => {
                    match self.lookup_idx(w) {
                        Some(j) => {
                            proof {
                                lemma_pairs_model(self.pairs@);
                            }
                            cur = &self.pairs[j].1;
                        },
                        None => {
                            return Some(clone_atom(cur));
                        },
                    }
                },
                _ => {
                    return Some(clone_atom(cur));
                },
            }
            steps = steps + 1;
        }
        Some(clone_atom(cur))
    }

    /// Removes any direct binding of `v` and returns its resolution.
    pub fn resolve_and_remove(&mut self, v: &VariableAtom) -> (r: Option<Atom>)
        ensures
            final(self).model() == remove_key_m(old(self).model(), v.model()),
            match r {
                Some(a) => resolve_m(old(self).model(), v.model()) == Some(a.model()),
                None => resolve_m(old(self).model(), v.model()) is None,
            },
    {
        let r = self.resolve(v);
        match self.lookup_idx(v) {
            Some(i) => {
                proof {
                    lemma_pairs_model(self.pairs@);
                    lemma_remove_key_at(self.model(), v.model(), i as int);
                }
                let ghost before = self.pairs@;
                self.pairs.remove(i);
                proof {
                    lemma_pairs_model(before);
                    lemma_pairs_model(self.pairs@);
                    lemma_pairs_model_remove(before, i as int);
                }
            },
            None => {
                proof {
                    lemma_remove_key_absent(self.model(), v.model());
                }
            },
        }
        r
    }
}

// ------------------------------------------------------------------
// Lookup helper lemmas
// ------------------------------------------------------------------

/// Lookup restricted to pairs at or after position `i`.
pub open spec fn lookup_from_m(s: BindsM, v: VarM, i: int) -> Option<AtomM>
    recommends
        0 <= i <= s.len(),
{
    lookup_m(s.skip(i), v)
}

proof fn lemma_lookup_skip_unfold(s: BindsM, v: VarM, i: int)
    requires
        0 <= i < s.len(),
    ensures
        lookup_m(s.skip(i), v) == if s[i].0 == v {
            Some(s[i].1)
        } else {
            lookup_m(s.skip(i + 1), v)
        },
{
    assert(s.skip(i).len() > 0);
    assert(s.skip(i)[0] == s[i]);
    assert(s.skip(i).drop_first() =~= s.skip(i + 1));
}

proof fn lemma_lookup_from_hit(s: BindsM, v: VarM, i: int)
    requires
        0 <= i < s.len(),
        s[i].0 == v,
    ensures
        lookup_from_m(s, v, i) == Some(s[i].1),
{
    lemma_lookup_skip_unfold(s, v, i);
}

proof fn lemma_lookup_from_miss(s: BindsM, v: VarM, i: int)
    requires
        0 <= i < s.len(),
        s[i].0 != v,
    ensures
        lookup_from_m(s, v, i) == lookup_from_m(s, v, i + 1),
{
    lemma_lookup_skip_unfold(s, v, i);
}

proof fn lemma_lookup_from_end(s: BindsM, v: VarM)
    ensures
        lookup_from_m(s, v, s.len() as int) is None,
{
    assert(s.skip(s.len() as int) =~= Seq::<(VarM, AtomM)>::empty());
}

proof fn lemma_remove_key_at(s: BindsM, v: VarM, i: int)
    requires
        0 <= i < s.len(),
        s[i].0 == v,
        forall|j: int| 0 <= j < i ==> s[j].0 != v,
    ensures
        remove_key_m(s, v) =~= s.subrange(0, i) + s.skip(i + 1),
    decreases i,
{
    if i == 0 {
        assert(s.subrange(0, 0) =~= Seq::<(VarM, AtomM)>::empty());
        assert(remove_key_m(s, v) =~= s.drop_first());
        assert(s.drop_first() =~= s.skip(1));
    } else {
        assert(s[0].0 != v);
        assert(s.drop_first()[i - 1] == s[i]);
        lemma_remove_key_at(s.drop_first(), v, i - 1);
        assert(s.drop_first().subrange(0, i - 1) =~= s.subrange(1, i));
        assert(s.drop_first().skip(i) =~= s.skip(i + 1));
        assert(remove_key_m(s, v) =~= seq![s[0]] + remove_key_m(s.drop_first(), v));
    }
}

proof fn lemma_remove_key_absent(s: BindsM, v: VarM)
    requires
        lookup_m(s, v) is None,
    ensures
        remove_key_m(s, v) =~= s,
    decreases s.len(),
{
    if s.len() > 0 {
        lemma_remove_key_absent(s.drop_first(), v);
        assert(remove_key_m(s, v) =~= seq![s[0]] + remove_key_m(s.drop_first(), v));
    }
}

/// Removing index `i` from the pairs removes it from the model.
proof fn lemma_pairs_model_remove(s: Seq<(VariableAtom, Atom)>, i: int)
    requires
        0 <= i < s.len(),
    ensures
        pairs_model(s.remove(i)) =~= pairs_model(s).subrange(0, i) + pairs_model(s).skip(i + 1),
{
    lemma_pairs_model(s);
    lemma_pairs_model(s.remove(i));
}

/// Pushing a pair pushes its model.
pub proof fn lemma_pairs_model_push(s: Seq<(VariableAtom, Atom)>, p: (VariableAtom, Atom))
    ensures
        pairs_model(s.push(p)) == pairs_model(s).push((p.0.model(), p.1.model())),
{
    assert(s.push(p).drop_last() =~= s);
}

// ------------------------------------------------------------------
// Substitution and the occurs check
// ------------------------------------------------------------------

/// Whether variable `v` occurs anywhere in `m`.
pub open spec fn occurs_m(m: AtomM, v: VarM) -> bool
    decreases height_m(m), 1nat, 0nat,
{
    match m {
        AtomM::Var { v: w } => w == v,
        AtomM::Expr { children } => occurs_kids_m(children, v, children.len() as int),
        _ => false,
    }
}

/// Whether `v` occurs in one of the first `i` elements of `s`.
pub open spec fn occurs_kids_m(s: Seq<AtomM>, v: VarM, i: int) -> bool
    decreases 1 + height_seq_m(s), 0nat, i,
    via occurs_kids_m_decreases
{
    if i <= 0 || i > s.len() {
        false
    } else {
        occurs_kids_m(s, v, i - 1) || occurs_m(s[i - 1], v)
    }
}

#[via_fn]
proof fn occurs_kids_m_decreases(s: Seq<AtomM>, v: VarM, i: int) {
    if 0 < i <= s.len() {
        lemma_height_seq_elem(s, i - 1);
    }
}

/// Whether variable `v` occurs anywhere in `a`.
pub fn contains_var(a: &Atom, v: &VariableAtom) -> (r: bool)
    ensures
        r == occurs_m(a.model(), v.model()),
    decreases height_a(*a),
{
    match a {
        Atom::Variable(w) => w.name == v.name && w.id == v.id,
        Atom::Expression(e) => {
            proof {
                lemma_models_of(e.children@);
            }
            let n = e.children.len();
            let mut i: usize = 0;
            while i < n
                invariant
                    n == e.children@.len(),
                    *a == Atom::Expression(*e),
                    i <= n,
                    !occurs_kids_m(models_of(e.children@), v.model(), i as int),
                decreases n - i,
            {
                proof {
                    lemma_child_height(e, i as int);
                    lemma_models_of(e.children@);
                }
                if contains_var(&e.children[i], v) {
                    proof {
                        lemma_occurs_kids_mono(models_of(e.children@), v.model(), i + 1, n as int);
                    }
                    return true;
                }
                i = i + 1;
            }
            false
        },
        _ => false,
    }
}

/// If `v` occurs within the first `i` elements it occurs within the first
/// `j >= i` elements.
proof fn lemma_occurs_kids_mono(s: Seq<AtomM>, v: VarM, i: int, j: int)
    requires
        0 <= i <= j <= s.len(),
        occurs_kids_m(s, v, i),
    ensures
        occurs_kids_m(s, v, j),
    decreases j - i,
{
    if i < j {
        lemma_occurs_kids_mono(s, v, i, j - 1);
    }
}

/// Substitution: every variable of `m` is replaced by its resolution under
/// `b`, recursively into the resolved values, up to `fuel` re-resolutions.
pub open spec fn apply_m(m: AtomM, b: BindsM, fuel: nat) -> AtomM
    decreases fuel, height_m(m), 1nat, 0nat,
{
    match m {
        AtomM::Var { v } => match resolve_m(b, v) {
            None => m,
            Some(val) => if val is Var {
                val
            } else if fuel == 0 {
                val
            } else {
                apply_m(val, b, (fuel - 1) as nat)
            },
        },
        AtomM::Expr { children } => AtomM::Expr {
            children: apply_kids_m(children, b, fuel),
        },
        _ => m,
    }
}

/// Element-wise substitution over a sequence.
pub open spec fn apply_kids_m(s: Seq<AtomM>, b: BindsM, fuel: nat) -> Seq<AtomM>
    decreases fuel, 1 + height_seq_m(s), 0nat, s.len(),
{
    if s.len() == 0 {
        Seq::empty()
    } else {
        apply_kids_m(s.drop_last(), b, fuel).push(apply_m(s.last(), b, fuel))
    }
}

pub proof fn lemma_apply_kids_m(s: Seq<AtomM>, b: BindsM, fuel: nat)
    ensures
        apply_kids_m(s, b, fuel).len() == s.len(),
        forall|i: int|
            0 <= i < s.len() ==> #[trigger] apply_kids_m(s, b, fuel)[i] == apply_m(s[i], b, fuel),
    decreases s.len(),
{
    if s.len() > 0 {
        lemma_apply_kids_m(s.drop_last(), b, fuel);
    }
}

/// Substitutes every variable in `a` with its resolution under `b`,
/// recursively.
pub fn apply_with(a: &Atom, b: &Bindings, fuel: u64) -> (r: Atom)
    ensures
        r.model() == apply_m(a.model(), b.model(), fuel as nat),
    decreases fuel, height_a(*a), 1nat,
{
    match a {
        Atom::Variable(v) => match b.resolve(v) {
            None => clone_atom(a),
            Some(val) => {
                let is_var = match &val {
                    Atom::Variable(_) => true,
                    _ => false,
                };
                if is_var || fuel == 0 {
                    val
                } else {
                    apply_with(&val, b, fuel - 1)
                }
            },
        },
        Atom::Expression(e) => {
            let n = e.children.len();
            let mut cs: Vec<Atom> = Vec::new();
            let mut i: usize = 0;
            while i < n
                invariant
                    n == e.children@.len(),
                    *a == Atom::Expression(*e),
                    i <= n,
                    cs@.len() == i,
                    forall|j: int|
                        0 <= j < i ==> cs@[j].model() == apply_m(
                            models_of(e.children@)[j],
                            b.model(),
                            fuel as nat,
                        ),
                decreases n - i,
            {
                proof {
                    lemma_child_height(e, i as int);
                    lemma_models_of(e.children@);
                }
                let c = apply_with(&e.children[i], b, fuel);
                cs.push(c);
                i = i + 1;
            }
            proof {
                lemma_models_of(cs@);
                lemma_models_of(e.children@);
                lemma_apply_kids_m(models_of(e.children@), b.model(), fuel as nat);
                assert(models_of(cs@) =~= apply_kids_m(
                    models_of(e.children@),
                    b.model(),
                    fuel as nat,
                ));
            }
            Atom::Expression(ExpressionAtom { children: cs })
        },
        _ => clone_atom(a),
    }
}

/// Substitutes every variable in `atom` with its resolution under
/// `bindings`, recursively.
pub fn apply_bindings_to_atom(atom: &Atom, bindings: &Bindings) -> (r: Atom)
    ensures
        r.model() == apply_m(atom.model(), bindings.model(), MATCH_FUEL as nat),
{
    apply_with(atom, bindings, MATCH_FUEL)
}

// ------------------------------------------------------------------
// Insertion, cloning, equality
// ------------------------------------------------------------------

impl Bindings {
    /// Binds `v` to `val`, replacing any previous binding of `v`. The new
    /// pair goes to the end; the insertion order of the other pairs is
    /// kept.
    pub fn insert(&mut self, v: VariableAtom, val: Atom)
        ensures
            final(self).model() == remove_key_m(old(self).model(), v.model()).push(
                (v.model(), val.model()),
            ),
    {
        match self.lookup_idx(&v) {
            Some(i) => {
                proof {
                    lemma_pairs_model(self.pairs@);
                    lemma_remove_key_at(self.model(), v.model(), i as int);
                }
                let ghost before = self.pairs@;
                self.pairs.remove(i);
                proof {
                    lemma_pairs_model_remove(before, i as int);
                }
            },
            None => {
                proof {
                    lemma_remove_key_absent(self.model(), v.model());
                }
            },
        }
        let ghost mid = self.pairs@;
        self.pairs.push((v, val));
        proof {
            lemma_pairs_model_push(mid, (v, val));
        }
    }
}

/// Structural copies of binding pairs.
fn clone_pairs(v: &Vec<(VariableAtom, Atom)>) -> (r: Vec<(VariableAtom, Atom)>)
    ensures
        pairs_model(r@) == pairs_model(v@),
{
    let n = v.len();
    let mut out: Vec<(VariableAtom, Atom)> = Vec::new();
    let mut i: usize = 0;
    while i < n
        invariant
            n == v@.len(),
            i <= n,
            out@.len() == i,
            forall|j: int|
                0 <= j < i ==> (#[trigger] out@[j]).0.model() == v@[j].0.model() && out@[j].1.model()
                    == v@[j].1.model(),
        decreases n - i,
    {
        let p = &v[i];
        let c = (p.0.clone(), clone_atom(&p.1));
        out.push(c);
        i = i + 1;
    }
    proof {
        lemma_pairs_model(out@);
        lemma_pairs_model(v@);
        assert(pairs_model(out@) =~= pairs_model(v@));
    }
    out
}

impl Clone for Bindings {
    fn clone(&self) -> (r: Bindings)
        ensures
            r.model() == self.model(),
    {
        Bindings { pairs: clone_pairs(&self.pairs) }
    }
}

/// Whether two bindings hold the same pairs in the same order.
pub fn eq_bindings(a: &Bindings, b: &Bindings) -> (r: bool)
    ensures
        r == (a.model() == b.model()),
{
    proof {
        lemma_pairs_model(a.pairs@);
        lemma_pairs_model(b.pairs@);
    }
    if a.pairs.len() != b.pairs.len() {
        return false;
    }
    let n = a.pairs.len();
    let mut i: usize = 0;
    while i < n
        invariant
            n == a.pairs@.len(),
            n == b.pairs@.len(),
            i <= n,
            forall|j: int| 0 <= j < i ==> a.model()[j] == b.model()[j],
        decreases n - i,
    {
        proof {
            lemma_pairs_model(a.pairs@);
            lemma_pairs_model(b.pairs@);
        }
        let p = &a.pairs[i];
        let q = &b.pairs[i];
        if !(p.0.name == q.0.name && p.0.id == q.0.id) {
            proof {
                assert(a.model()[i as int] != b.model()[i as int]);
            }
            return false;
        }
        if !eq_atoms(&p.1, &q.1) {
            proof {
                assert(a.model()[i as int] != b.model()[i as int]);
            }
            return false;
        }
        i = i + 1;
    }
    proof {
        assert(a.model() =~= b.model());
    }
    true
}

impl PartialEq for Bindings {
    fn eq(&self, other: &Bindings) -> bool {
        eq_bindings(self, other)
    }
}

// ------------------------------------------------------------------
// Fresh-id renaming
// ------------------------------------------------------------------

/// A variable id shifted upward by `base`, when that stays within the id
/// range.
pub open spec fn shift_var_m(v: VarM, base: nat) -> VarM {
    if v.id + base <= u64::MAX {
        VarM { name: v.name, id: v.id + base }
    } else {
        v
    }
}

/// Every variable of `m` with its id shifted upward by `base`: the
/// alpha-renaming that keeps the variables of a stored atom apart from the
/// variables of a query pattern.
pub open spec fn rename_m(m: AtomM, base: nat) -> AtomM
    decreases height_m(m), 1nat, 0nat,
{
    match m {
        AtomM::Var { v } => AtomM::Var { v: shift_var_m(v, base) },
        AtomM::Expr { children } => AtomM::Expr { children: rename_kids_m(children, base) },
        _ => m,
    }
}

pub open spec fn rename_kids_m(s: Seq<AtomM>, base: nat) -> Seq<AtomM>
    decreases 1 + height_seq_m(s), 0nat, s.len(),
{
    if s.len() == 0 {
        Seq::empty()
    } else {
        rename_kids_m(s.drop_last(), base).push(rename_m(s.last(), base))
    }
}

pub proof fn lemma_rename_kids_m(s: Seq<AtomM>, base: nat)
    ensures
        rename_kids_m(s, base).len() == s.len(),
        forall|i: int|
            0 <= i < s.len() ==> #[trigger] rename_kids_m(s, base)[i] == rename_m(s[i], base),
    decreases s.len(),
{
    if s.len() > 0 {
        lemma_rename_kids_m(s.drop_last(), base);
    }
}

/// The inverse direction: every variable id at or above `base` shifted
/// back down.
pub open spec fn unshift_var_m(v: VarM, base: nat) -> VarM {
    if v.id >= base {
        VarM { name: v.name, id: (v.id - base) as nat }
    } else {
        v
    }
}

/// Every variable of `m` with an id at or above `base` shifted back down:
/// maps the fresh variables of a query answer back to the stored atom's
/// own variables.
pub open spec fn unrename_m(m: AtomM, base: nat) -> AtomM
    decreases height_m(m), 1nat, 0nat,
{
    match m {
        AtomM::Var { v } => AtomM::Var { v: unshift_var_m(v, base) },
        AtomM::Expr { children } => AtomM::Expr { children: unrename_kids_m(children, base) },
        _ => m,
    }
}

pub open spec fn unrename_kids_m(s: Seq<AtomM>, base: nat) -> Seq<AtomM>
    decreases 1 + height_seq_m(s), 0nat, s.len(),
{
    if s.len() == 0 {
        Seq::empty()
    } else {
        unrename_kids_m(s.drop_last(), base).push(unrename_m(s.last(), base))
    }
}

pub proof fn lemma_unrename_kids_m(s: Seq<AtomM>, base: nat)
    ensures
        unrename_kids_m(s, base).len() == s.len(),
        forall|i: int|
            0 <= i < s.len() ==> #[trigger] unrename_kids_m(s, base)[i] == unrename_m(s[i], base),
    decreases s.len(),
{
    if s.len() > 0 {
        lemma_unrename_kids_m(s.drop_last(), base);
    }
}

/// The largest variable id occurring in `m`, or zero.
pub open spec fn max_id_m(m: AtomM) -> nat
    decreases height_m(m), 1nat, 0nat,
{
    match m {
        AtomM::Var { v } => v.id,
        AtomM::Expr { children } => max_id_kids_m(children),
        _ => 0,
    }
}

pub open spec fn max_id_kids_m(s: Seq<AtomM>) -> nat
    decreases 1 + height_seq_m(s), 0nat, s.len(),
{
    if s.len() == 0 {
        0
    } else {
        let h = max_id_m(s.last());
        let r = max_id_kids_m(s.drop_last());
        if h > r {
            h
        } else {
            r
        }
    }
}

/// Every variable of `a` with its id shifted upward by `base`.
pub fn rename_offset(a: &Atom, base: u64) -> (r: Atom)
    ensures
        r.model() == rename_m(a.model(), base as nat),
    decreases height_a(*a),
{
    match a {
        Atom::Variable(v) => {
            if v.id <= u64::MAX - base {
                Atom::Variable(VariableAtom { name: v.name.clone(), id: v.id + base })
            } else {
                clone_atom(a)
            }
        },
        Atom::Expression(e) => {
            let n = e.children.len();
            let mut cs: Vec<Atom> = Vec::new();
            let mut i: usize = 0;
            while i < n
                invariant
                    n == e.children@.len(),
                    i <= n,
                    *a == Atom::Expression(*e),
                    cs@.len() == i,
                    forall|j: int|
                        0 <= j < i ==> cs@[j].model() == rename_m(
                            models_of(e.children@)[j],
                            base as nat,
                        ),
                decreases n - i,
            {
                proof {
                    lemma_child_height(e, i as int);
                    lemma_models_of(e.children@);
                }
                let c = rename_offset(&e.children[i], base);
                cs.push(c);
                i = i + 1;
            }
            proof {
                lemma_models_of(cs@);
                lemma_models_of(e.children@);
                lemma_rename_kids_m(models_of(e.children@), base as nat);
                assert(models_of(cs@) =~= rename_kids_m(models_of(e.children@), base as nat));
            }
            Atom::Expression(ExpressionAtom { children: cs })
        },
        _ => clone_atom(a),
    }
}

/// Every variable of `a` with an id at or above `base` shifted back down.
pub fn unrename_offset(a: &Atom, base: u64) -> (r: Atom)
    ensures
        r.model() == unrename_m(a.model(), base as nat),
    decreases height_a(*a),
{
    match a {
        Atom::Variable(v) => {
            if v.id >= base {
                Atom::Variable(VariableAtom { name: v.name.clone(), id: v.id - base })
            } else {
                clone_atom(a)
            }
        },
        Atom::Expression(e) => {
            let n = e.children.len();
            let mut cs: Vec<Atom> = Vec::new();
            let mut i: usize = 0;
            while i < n
                invariant
                    n == e.children@.len(),
                    i <= n,
                    *a == Atom::Expression(*e),
                    cs@.len() == i,
                    forall|j: int|
                        0 <= j < i ==> cs@[j].model() == unrename_m(
                            models_of(e.children@)[j],
                            base as nat,
                        ),
                decreases n - i,
            {
                proof {
                    lemma_child_height(e, i as int);
                    lemma_models_of(e.children@);
                }
                let c = unrename_offset(&e.children[i], base);
                cs.push(c);
                i = i + 1;
            }
            proof {
                lemma_models_of(cs@);
                lemma_models_of(e.children@);
                lemma_unrename_kids_m(models_of(e.children@), base as nat);
                assert(models_of(cs@) =~= unrename_kids_m(models_of(e.children@), base as nat));
            }
            Atom::Expression(ExpressionAtom { children: cs })
        },
        _ => clone_atom(a),
    }
}

/// The largest variable id occurring in `a`, or zero.
pub fn max_var_id(a: &Atom) -> (r: u64)
    ensures
        r as nat == max_id_m(a.model()),
    decreases height_a(*a),
{
    match a {
        Atom::Variable(v) => v.id,
        Atom::Expression(e) => {
            let n = e.children.len();
            let mut best: u64 = 0;
            let mut i: usize = 0;
            while i < n
                invariant
                    n == e.children@.len(),
                    i <= n,
                    *a == Atom::Expression(*e),
                    best as nat == max_id_kids_m(models_of(e.children@).take(i as int)),
                decreases n - i,
            {
                proof {
                    lemma_child_height(e, i as int);
                    lemma_models_of(e.children@);
                }
                let h = max_var_id(&e.children[i]);
                proof {
                    let s = models_of(e.children@);
                    assert(s.take(i + 1).drop_last() =~= s.take(i as int));
                    assert(s.take(i + 1).last() == s[i as int]);
                }
                if h > best {
                    best = h;
                }
                i = i + 1;
            }
            proof {
                lemma_models_of(e.children@);
                assert(models_of(e.children@).take(n as int) =~= models_of(e.children@));
            }
            best
        },
        _ => 0,
    }
}

// ------------------------------------------------------------------
// Variable collection
// ------------------------------------------------------------------

/// The variables of `m` appended to `acc` in first-occurrence order,
/// without duplicates.
pub open spec fn add_vars_m(m: AtomM, acc: Seq<VarM>) -> Seq<VarM>
    decreases height_m(m), 1nat, 0nat,
{
    match m {
        AtomM::Var { v } => if acc.contains(v) {
            acc
        } else {
            acc.push(v)
        },
        AtomM::Expr { children } => add_vars_kids_m(children, 0, acc),
        _ => acc,
    }
}

pub open spec fn add_vars_kids_m(s: Seq<AtomM>, i: int, acc: Seq<VarM>) -> Seq<VarM>
    decreases 1 + height_seq_m(s), 0nat, s.len() - i,
    via add_vars_kids_m_decreases
{
    if i < 0 || i >= s.len() {
        acc
    } else {
        add_vars_kids_m(s, i + 1, add_vars_m(s[i], acc))
    }
}

#[via_fn]
proof fn add_vars_kids_m_decreases(s: Seq<AtomM>, i: int, acc: Seq<VarM>) {
    if 0 <= i < s.len() {
        lemma_height_seq_elem(s, i);
    }
}

/// The variables of `m` in first-occurrence order.
pub open spec fn vars_m(m: AtomM) -> Seq<VarM> {
    add_vars_m(m, Seq::empty())
}

/// The models of a vector of variables.
pub open spec fn var_models_of(s: Seq<VariableAtom>) -> Seq<VarM>
    decreases s,
{
    if s.len() == 0 {
        Seq::empty()
    } else {
        var_models_of(s.drop_last()).push(s.last().model())
    }
}

pub proof fn lemma_var_models_of(s: Seq<VariableAtom>)
    ensures
        var_models_of(s).len() == s.len(),
        forall|i: int| 0 <= i < s.len() ==> #[trigger] var_models_of(s)[i] == s[i].model(),
    decreases s.len(),
{
    if s.len() > 0 {
        lemma_var_models_of(s.drop_last());
    }
}

pub proof fn lemma_var_models_of_push(s: Seq<VariableAtom>, v: VariableAtom)
    ensures
        var_models_of(s.push(v)) == var_models_of(s).push(v.model()),
{
    assert(s.push(v).drop_last() =~= s);
}

/// Appends the variables of `a` to `out` in first-occurrence order,
/// without duplicates.
fn collect_vars(out: &mut Vec<VariableAtom>, a: &Atom)
    ensures
        var_models_of(final(out)@) == add_vars_m(a.model(), var_models_of(old(out)@)),
    decreases height_a(*a),
{
    match a {
        Atom::Variable(v) => {
            proof {
                lemma_var_models_of(out@);
            }
            let n = out.len();
            let mut i: usize = 0;
            while i < n
                invariant
                    n == out@.len(),
                    i <= n,
                    out@ == old(out)@,
                    *a == Atom::Variable(*v),
                    forall|j: int| 0 <= j < i ==> var_models_of(out@)[j] != v.model(),
                decreases n - i,
            {
                proof {
                    lemma_var_models_of(out@);
                }
                let w = &out[i];
                if w.name == v.name && w.id == v.id {
                    proof {
                        assert(var_models_of(out@).contains(v.model())) by {
                            assert(var_models_of(out@)[i as int] == v.model());
                        }
                        assert(a.model() == AtomM::Var { v: v.model() });
                        assert(add_vars_m(a.model(), var_models_of(old(out)@))
                            == var_models_of(old(out)@));
                    }
                    return ;
                }
                i = i + 1;
            }
            proof {
                lemma_var_models_of(out@);
                assert(!var_models_of(out@).contains(v.model()));
            }
            let ghost before = out@;
            let vv = v.clone();
            out.push(vv);
            proof {
                lemma_var_models_of_push(before, vv);
                assert(before == old(out)@);
                assert(var_models_of(out@) == var_models_of(old(out)@).push(v.model()));
                assert(a.model() == AtomM::Var { v: v.model() });
                assert(add_vars_m(a.model(), var_models_of(old(out)@)) == var_models_of(
                    old(out)@,
                ).push(v.model()));
            }
        },
        Atom::Expression(e) => {
            let n = e.children.len();
            let mut i: usize = 0;
            while i < n
                invariant
                    n == e.children@.len(),
                    i <= n,
                    *a == Atom::Expression(*e),
                    add_vars_kids_m(
                        models_of(e.children@),
                        0,
                        var_models_of(old(out)@),
                    ) == add_vars_kids_m(models_of(e.children@), i as int, var_models_of(out@)),
                decreases n - i,
            {
                proof {
                    lemma_child_height(e, i as int);
                    lemma_models_of(e.children@);
                }
                collect_vars(out, &e.children[i]);
                i = i + 1;
            }
            proof {
                lemma_models_of(e.children@);
                assert(add_vars_kids_m(
                    models_of(e.children@),
                    n as int,
                    var_models_of(out@),
                ) == var_models_of(out@));
            }
        },
        _ => {},
    }
}

/// The variables of `a` in first-occurrence order.
pub fn pattern_vars(a: &Atom) -> (r: Vec<VariableAtom>)
    ensures
        var_models_of(r@) == vars_m(a.model()),
{
    let mut out: Vec<VariableAtom> = Vec::new();
    proof {
        assert(var_models_of(Seq::<VariableAtom>::empty()) =~= Seq::<VarM>::empty());
    }
    collect_vars(&mut out, a);
    out
}

// ------------------------------------------------------------------
// Unification
// ------------------------------------------------------------------

/// One unification step under bindings `b`, with `fuel` bounding how often
/// an already-bound variable may be re-unified against a new value.
///
/// A variable on either side binds to the atom on the other side, with the
/// left variable preferred when both sides are variables. A grounded value
/// matches by its own capability: the `%Undefined%` sentinel matches any
/// atom, an integer matches an equal atom. Symbols match by name.
/// Expressions match arity-wise, threading the bindings left to right.
pub open spec fn match_m(l: AtomM, r: AtomM, b: BindsM, fuel: nat) -> Option<BindsM>
    decreases fuel, height_m(l) + height_m(r), 1nat, 0nat,
{
    if l is Var && r is Var && l->v == r->v {
        Some(b)
    } else if l is Var {
        add_binding_m(b, l->v, r, fuel)
    } else if r is Var {
        add_binding_m(b, r->v, l, fuel)
    } else if l is Gnd {
        if l->g is UndefinedTypeMatch {
            Some(b)
        } else if l == r {
            Some(b)
        } else {
            None
        }
    } else if r is Gnd {
        if r->g is UndefinedTypeMatch {
            Some(b)
        } else {
            None
        }
    } else if l is Sym && r is Sym {
        if l->name == r->name {
            Some(b)
        } else {
            None
        }
    } else if l is Expr && r is Expr {
        if l->children.len() == r->children.len() {
            match_kids_m(l->children, r->children, 0, b, fuel)
        } else {
            None
        }
    } else {
        None
    }
}

/// Unification of the children from position `i` on, threading bindings.
pub open spec fn match_kids_m(xs: Seq<AtomM>, ys: Seq<AtomM>, i: int, b: BindsM, fuel: nat) -> Option<
    BindsM,
>
    decreases fuel, height_seq_m(xs) + height_seq_m(ys), 2nat, xs.len() - i,
    via match_kids_m_decreases
{
    if i < 0 || i >= xs.len() || xs.len() != ys.len() {
        Some(b)
    } else {
        match match_m(xs[i], ys[i], b, fuel) {
            None => None,
            Some(c) => match_kids_m(xs, ys, i + 1, c, fuel),
        }
    }
}

#[via_fn]
proof fn match_kids_m_decreases(xs: Seq<AtomM>, ys: Seq<AtomM>, i: int, b: BindsM, fuel: nat) {
    if 0 <= i < xs.len() && xs.len() == ys.len() {
        lemma_height_seq_elem(xs, i);
        lemma_height_seq_elem(ys, i);
    }
}

/// Records that `v` stands for `val`. When `v` is already bound, its
/// existing value is unified against `val` instead. When it is unbound,
/// the pair is inserted unless the substituted value contains `v` (the
/// occurs check that keeps chains cycle-free).
pub open spec fn add_binding_m(b: BindsM, v: VarM, val: AtomM, fuel: nat) -> Option<BindsM>
    decreases fuel, height_m(val), 0nat, 0nat,
{
    match lookup_m(b, v) {
        Some(existing) => {
            if fuel == 0 {
                None
            } else {
                match_m(existing, val, b, (fuel - 1) as nat)
            }
        },
        None => {
            let applied = apply_m(val, b, fuel);
            if applied == (AtomM::Var { v }) {
                Some(b)
            } else if occurs_m(applied, v) {
                None
            } else {
                Some(b.push((v, val)))
            }
        },
    }
}

/// The unifier's result on two atoms, starting from empty bindings.
pub open spec fn spec_match(l: AtomM, r: AtomM) -> Option<BindsM> {
    match_m(l, r, Seq::empty(), MATCH_FUEL as nat)
}

/// One unification step under bindings `b`.
fn match_with(l: &Atom, r: &Atom, b: &Bindings, fuel: u64) -> (res: Option<Bindings>)
    ensures
        match res {
            Some(c) => match_m(l.model(), r.model(), b.model(), fuel as nat) == Some(c.model()),
            None => match_m(l.model(), r.model(), b.model(), fuel as nat) is None,
        },
    decreases fuel, height_a(*l) + height_a(*r), 1nat, 0nat,
{
    match (l, r) {
        (Atom::Variable(v), _) => {
            if let Atom::Variable(w) = r {
                if v.name == w.name && v.id == w.id {
                    return Some(b.clone());
                }
            }
            add_binding(b, v, r, fuel)
        },
        (_, Atom::Variable(w)) => add_binding(b, w, l, fuel),
        (Atom::Grounded(g), _) => match g {
            GroundedValue::UndefinedTypeMatch => Some(b.clone()),
            GroundedValue::Int(_) => {
                if eq_atoms(l, r) {
                    Some(b.clone())
                } else {
                    None
                }
            },
        },
        (_, Atom::Grounded(g)) => match g {
            GroundedValue::UndefinedTypeMatch => Some(b.clone()),
            GroundedValue::Int(_) => None,
        },
        (Atom::Symbol(x), Atom::Symbol(y)) => {
            if *x == *y {
                Some(b.clone())
            } else {
                None
            }
        },
        (Atom::Expression(xs), Atom::Expression(ys)) => {
            proof {
                lemma_models_of(xs.children@);
                lemma_models_of(ys.children@);
            }
            if xs.children.len() != ys.children.len() {
                return None;
            }
            let ghost mxs = models_of(xs.children@);
            let ghost mys = models_of(ys.children@);
            let n = xs.children.len();
            let mut cur = b.clone();
            let mut i: usize = 0;
            while i < n
                invariant
                    n == xs.children@.len(),
                    n == ys.children@.len(),
                    i <= n,
                    *l == Atom::Expression(*xs),
                    *r == Atom::Expression(*ys),
                    mxs == models_of(xs.children@),
                    mys == models_of(ys.children@),
                    match_kids_m(mxs, mys, 0, b.model(), fuel as nat) == match_kids_m(
                        mxs,
                        mys,
                        i as int,
                        cur.model(),
                        fuel as nat,
                    ),
                decreases n - i,
            {
                proof {
                    lemma_child_height(xs, i as int);
                    lemma_child_height(ys, i as int);
                    lemma_models_of(xs.children@);
                    lemma_models_of(ys.children@);
                }
                let ghost prev = cur.model();
                match match_with(&xs.children[i], &ys.children[i], &cur, fuel) {
                    None => {
                        proof {
                            assert(match_m(mxs[i as int], mys[i as int], prev, fuel as nat)
                                is None);
                            assert(match_kids_m(mxs, mys, i as int, prev, fuel as nat) is None);
                            assert(l.model() == AtomM::Expr { children: mxs });
                            assert(r.model() == AtomM::Expr { children: mys });
                            assert(mxs.len() == n && mys.len() == n);
                            assert(match_m(l.model(), r.model(), b.model(), fuel as nat)
                                == match_kids_m(mxs, mys, 0, b.model(), fuel as nat));
                        }
                        return None;
                    },
                    Some(c) => {
                        cur = c;
                    },
                }
                i = i + 1;
            }
            Some(cur)
        },
        _ => None,
    }
}

/// Records that `v` stands for `val` in `b`.
fn add_binding(b: &Bindings, v: &VariableAtom, val: &Atom, fuel: u64) -> (res: Option<Bindings>)
    ensures
        match res {
            Some(c) => add_binding_m(b.model(), v.model(), val.model(), fuel as nat) == Some(
                c.model(),
            ),
            None => add_binding_m(b.model(), v.model(), val.model(), fuel as nat) is None,
        },
    decreases fuel, height_a(*val), 0nat, 0nat,
{
    match b.lookup_idx(v) {
        Some(i) => {
            if fuel == 0 {
                return None;
            }
            proof {
                lemma_pairs_model(b.pairs@);
            }
            let existing = clone_atom(&b.pairs[i].1);
            match_with(&existing, val, b, fuel - 1)
        },
        None => {
            let applied = apply_with(val, b, fuel);
            let same_var = match &applied {
                Atom::Variable(w) => w.name == v.name && w.id == v.id,
                _ => false,
            };
            if same_var {
                return Some(b.clone());
            }
            if contains_var(&applied, v) {
                return None;
            }
            let mut nb = b.clone();
            let ghost before = nb.pairs@;
            let vv = v.clone();
            let cval = clone_atom(val);
            nb.pairs.push((vv, cval));
            proof {
                lemma_pairs_model_push(before, (vv, cval));
                assert(pairs_model(before) == b.model());
            }
            Some(nb)
        },
    }
}

/// Unifies two atoms. The result carries at most one set of bindings: the
/// grounded values of this core match by equality, so a match never
/// branches.
pub fn match_atoms(left: &Atom, right: &Atom) -> (r: Vec<Bindings>)
    ensures
        r@.len() <= 1,
        (spec_match(left.model(), right.model()) is Some) == (r@.len() == 1),
        r@.len() == 1 ==> spec_match(left.model(), right.model()) == Some(r@[0].model()),
{
    let mut out: Vec<Bindings> = Vec::new();
    let empty = Bindings::new();
    match match_with(left, right, &empty, MATCH_FUEL) {
        Some(b) => out.push(b),
        None => {},
    }
    out
}

// ------------------------------------------------------------------
// Merge
// ------------------------------------------------------------------

/// Folds the pairs of `bp` from position `i` on into `acc`: a variable
/// bound in both must have its two values unify under the merged bindings.
pub open spec fn merge_from_m(acc: BindsM, bp: BindsM, i: int) -> Option<BindsM>
    decreases bp.len() - i,
{
    if i < 0 || i >= bp.len() {
        Some(acc)
    } else {
        match add_binding_m(acc, bp[i].0, bp[i].1, MATCH_FUEL as nat) {
            None => None,
            Some(c) => merge_from_m(c, bp, i + 1),
        }
    }
}

/// The merge of two sets of bindings.
pub open spec fn spec_merge(a: BindsM, b: BindsM) -> Option<BindsM> {
    merge_from_m(a, b, 0)
}

impl Bindings {
    /// Combines two sets of bindings. For each variable bound in both, the
    /// two values must unify under the merged bindings; otherwise the
    /// merge fails.
    pub fn merge(a: &Bindings, b: &Bindings) -> (r: Option<Bindings>)
        ensures
            match r {
                Some(c) => spec_merge(a.model(), b.model()) == Some(c.model()),
                None => spec_merge(a.model(), b.model()) is None,
            },
    {
        let n = b.pairs.len();
        let mut cur = a.clone();
        let mut i: usize = 0;
        proof {
            lemma_pairs_model(b.pairs@);
        }
        while i < n
            invariant
                n == b.pairs@.len(),
                i <= n,
                spec_merge(a.model(), b.model()) == merge_from_m(cur.model(), b.model(), i as int),
            decreases n - i,
        {
            proof {
                lemma_pairs_model(b.pairs@);
            }
            let p = &b.pairs[i];
            match add_binding(&cur, &p.0, &p.1, MATCH_FUEL) {
                None => {
                    return None;
                },
                Some(c) => {
                    cur = c;
                },
            }
            i = i + 1;
        }
        Some(cur)
    }
}

impl vstd::std_specs::cmp::PartialEqSpecImpl for Bindings {
    open spec fn obeys_eq_spec() -> bool {
        true
    }

    open spec fn eq_spec(&self, other: &Bindings) -> bool {
        self.model() == other.model()
    }
}

} // verus!
