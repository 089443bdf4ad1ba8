//! The knowledge base: a multiset of atoms held in insertion order,
//! answering pattern queries.
//!
//! A query alpha-renames the variables of each stored atom away from the
//! variables of the pattern (so rule variables can never capture query
//! variables), unifies the pattern against the renamed atom, and returns
//! one set of bindings per matching atom: each pattern variable that was
//! bound, mapped to its fully substituted value, with the fresh ids mapped
//! back to the stored atom's own variables. A query never mutates the
//! space.

use vstd::prelude::*;

use crate::atom::{
    clone_atom, eq_atoms, lemma_models_of, models_of, Atom, AtomM, VarM, VariableAtom,
};
use crate::matcher::{
    apply_m, apply_with, lemma_pairs_model_push, lemma_var_models_of, lookup_m, match_atoms,
    max_id_m, max_var_id, pattern_vars, rename_m, rename_offset, spec_match, unrename_m,
    unrename_offset, var_models_of, vars_m, BindsM, Bindings, MATCH_FUEL,
};

verus! {

/// The models of a sequence of bindings, element by element.
pub open spec fn binds_models_of(s: Seq<Bindings>) -> Seq<BindsM>
    decreases s,
{
    if s.len() == 0 {
        Seq::empty()
    } else {
        binds_models_of(s.drop_last()).push(s.last().model())
    }
}

pub proof fn lemma_binds_models_of(s: Seq<Bindings>)
    ensures
        binds_models_of(s).len() == s.len(),
        forall|i: int| 0 <= i < s.len() ==> #[trigger] binds_models_of(s)[i] == s[i].model(),
    decreases s.len(),
{
    if s.len() > 0 {
        lemma_binds_models_of(s.drop_last());
    }
}

pub proof fn lemma_binds_models_of_push(s: Seq<Bindings>, b: Bindings)
    ensures
        binds_models_of(s.push(b)) == binds_models_of(s).push(b.model()),
{
    assert(s.push(b).drop_last() =~= s);
}

/// The id offset a query uses to rename stored-atom variables away from
/// the pattern's variables.
pub open spec fn query_base(p: AtomM) -> nat {
    if max_id_m(p) + 1 <= u64::MAX {
        max_id_m(p) + 1
    } else {
        max_id_m(p)
    }
}

/// The answer bindings built from a raw match result: each pattern
/// variable in `vs` that is bound in `bm`, mapped to its fully
/// substituted value with fresh ids shifted back down by `base`.
pub open spec fn postproc_vars_m(vs: Seq<VarM>, bm: BindsM, base: nat) -> BindsM
    decreases vs.len(),
{
    if vs.len() == 0 {
        Seq::empty()
    } else {
        let rest = postproc_vars_m(vs.drop_last(), bm, base);
        let v = vs.last();
        if lookup_m(bm, v) is Some {
            rest.push((v, unrename_m(apply_m(AtomM::Var { v }, bm, MATCH_FUEL as nat), base)))
        } else {
            rest
        }
    }
}

/// The answer bindings for pattern `p` from raw match result `bm`.
pub open spec fn postproc_m(p: AtomM, bm: BindsM, base: nat) -> BindsM {
    postproc_vars_m(vars_m(p), bm, base)
}

/// The query results over the stored atoms from position `i` on.
pub open spec fn query_from_m(space: Seq<AtomM>, p: AtomM, i: int, base: nat) -> Seq<BindsM>
    decreases space.len() - i,
{
    if i < 0 || i >= space.len() {
        Seq::empty()
    } else {
        let rest = query_from_m(space, p, i + 1, base);
        match spec_match(p, rename_m(space[i], base)) {
            None => rest,
            Some(bm) => seq![postproc_m(p, bm, base)] + rest,
        }
    }
}

/// All answers of a query: one set of bindings per stored atom the
/// pattern unifies with, in storage order.
pub open spec fn spec_query(space: Seq<AtomM>, p: AtomM) -> Seq<BindsM> {
    query_from_m(space, p, 0, query_base(p))
}

/// The atoms with the first occurrence of `m` removed.
pub open spec fn remove_first_m(s: Seq<AtomM>, m: AtomM) -> Seq<AtomM>
    decreases s.len(),
{
    if s.len() == 0 {
        s
    } else if s[0] == m {
        s.drop_first()
    } else {
        seq![s[0]] + remove_first_m(s.drop_first(), m)
    }
}

proof fn lemma_remove_first_at(s: Seq<AtomM>, m: AtomM, i: int)
    requires
        0 <= i < s.len(),
        s[i] == m,
        forall|j: int| 0 <= j < i ==> s[j] != m,
    ensures
        remove_first_m(s, m) =~= s.subrange(0, i) + s.skip(i + 1),
    decreases i,
{
    if i == 0 {
        assert(s.subrange(0, 0) =~= Seq::<AtomM>::empty());
        assert(s.drop_first() =~= s.skip(1));
    } else {
        assert(s.drop_first()[i - 1] == s[i]);
        lemma_remove_first_at(s.drop_first(), m, i - 1);
        assert(s.drop_first().subrange(0, i - 1) =~= s.subrange(1, i));
        assert(s.drop_first().skip(i) =~= s.skip(i + 1));
    }
}

proof fn lemma_remove_first_absent(s: Seq<AtomM>, m: AtomM)
    requires
        forall|j: int| 0 <= j < s.len() ==> s[j] != m,
    ensures
        remove_first_m(s, m) =~= s,
    decreases s.len(),
{
    if s.len() > 0 {
        lemma_remove_first_absent(s.drop_first(), m);
    }
}

/// A multiset of atoms in insertion order, answering pattern queries.
#[derive(Debug)]
pub struct GroundingSpace {
    pub content: Vec<Atom>,
}

impl GroundingSpace {
    /// The mathematical model of this space: its stored atoms in order.
    pub open spec fn model(self) -> Seq<AtomM> {
        models_of(self.content@)
    }

    /// An empty space.
    pub fn new() -> (r: GroundingSpace)
        ensures
            r.model() == Seq::<AtomM>::empty(),
    {
        let r = GroundingSpace { content: Vec::new() };
        proof {
            assert(r.content@.len() == 0);
        }
        r
    }

    /// Appends an atom.
    pub fn add(&mut self, atom: Atom)
        ensures
            final(self).model() == old(self).model().push(atom.model()),
    {
        let ghost before = self.content@;
        self.content.push(atom);
        proof {
            assert(self.content@.drop_last() =~= before);
            lemma_models_of(before);
            lemma_models_of(self.content@);
            assert(final(self).model() =~= old(self).model().push(atom.model()));
        }
    }

    /// Removes the first stored atom structurally equal to `atom`;
    /// reports whether one was found.
    pub fn remove(&mut self, atom: &Atom) -> (r: bool)
        ensures
            final(self).model() == remove_first_m(old(self).model(), atom.model()),
            r == old(self).model().contains(atom.model()),
    {
        proof {
            lemma_models_of(self.content@);
        }
        let n = self.content.len();
        let mut i: usize = 0;
        while i < n
            invariant
                n == self.content@.len(),
                i <= n,
                self.content@ == old(self).content@,
                forall|j: int| 0 <= j < i ==> self.model()[j] != atom.model(),
            decreases n - i,
        {
            proof {
                lemma_models_of(self.content@);
            }
            if eq_atoms(&self.content[i], atom) {
                proof {
                    lemma_models_of(self.content@);
                    lemma_remove_first_at(self.model(), atom.model(), i as int);
                    assert(self.model().contains(atom.model())) by {
                        assert(self.model()[i as int] == atom.model());
                    }
                }
                let ghost before = self.content@;
                self.content.remove(i);
                proof {
                    lemma_models_of(before);
                    lemma_models_of(self.content@);
                    assert(models_of(self.content@) =~= models_of(before).subrange(0, i as int)
                        + models_of(before).skip(i + 1));
                }
                return true;
            }
            i = i + 1;
        }
        proof {
            lemma_models_of(self.content@);
            lemma_remove_first_absent(self.model(), atom.model());
            assert(!self.model().contains(atom.model()));
        }
        false
    }

    /// Answers a pattern query: one set of bindings per stored atom the
    /// pattern unifies with, in storage order. The space is not changed;
    /// the variables of stored atoms are renamed away from the pattern's
    /// variables while matching, and every answer speaks only of the
    /// pattern's variables and the stored atoms' own variables.
    pub fn query(&self, pattern: &Atom) -> (r: Vec<Bindings>)
        ensures
            binds_models_of(r@) == spec_query(self.model(), pattern.model()),
    {
        let vs = pattern_vars(pattern);
        let mb = max_var_id(pattern);
        let base: u64 = if mb < u64::MAX {
            mb + 1
        } else {
            mb
        };
        proof {
            assert(base as nat == query_base(pattern.model()));
        }
        let n = self.content.len();
        let mut out: Vec<Bindings> = Vec::new();
        let mut i: usize = 0;
        proof {
            lemma_models_of(self.content@);
            lemma_binds_models_of(out@);
            assert(binds_models_of(Seq::<Bindings>::empty()) =~= Seq::<BindsM>::empty());
        }
        while i < n
            invariant
                n == self.content@.len(),
                i <= n,
                base as nat == query_base(pattern.model()),
                var_models_of(vs@) == vars_m(pattern.model()),
                spec_query(self.model(), pattern.model()) == binds_models_of(out@)
                    + query_from_m(self.model(), pattern.model(), i as int, base as nat),
            decreases n - i,
        {
            proof {
                lemma_models_of(self.content@);
            }
            let renamed = rename_offset(&self.content[i], base);
            let ms = match_atoms(pattern, &renamed);
            if ms.len() > 0 {
                let b = &ms[0];
                let ghost bm = b.model();
                let k_n = vs.len();
                let mut ob = Bindings::new();
                let mut k: usize = 0;
                proof {
                    lemma_var_models_of(vs@);
                    assert(vs@.take(0int) =~= Seq::<VariableAtom>::empty());
                    assert(var_models_of(vs@.take(0int)) =~= Seq::<VarM>::empty());
                }
                while k < k_n
                    invariant
                        k_n == vs@.len(),
                        k <= k_n,
                        ob.model() == postproc_vars_m(
                            var_models_of(vs@.take(k as int)),
                            bm,
                            base as nat,
                        ),
                        b.model() == bm,
                        base as nat == query_base(pattern.model()),
                    decreases k_n - k,
                {
                    proof {
                        lemma_var_models_of(vs@);
                        lemma_var_models_of(vs@.take(k + 1));
                        lemma_var_models_of(vs@.take(k as int));
                        assert(var_models_of(vs@.take(k + 1)).drop_last() =~= var_models_of(
                            vs@.take(k as int),
                        ));
                        assert(var_models_of(vs@.take(k + 1)).last() == vs@[k as int].model());
                    }
                    let v = &vs[k];
                    if b.binds(v) {
                        let va = Atom::Variable(v.clone());
                        let val = apply_with(&va, b, MATCH_FUEL);
                        let u = unrename_offset(&val, base);
                        let ghost obp = ob.pairs@;
                        let vv = v.clone();
                        ob.pairs.push((vv, u));
                        proof {
                            lemma_pairs_model_push(obp, (vv, u));
                        }
                    }
                    proof {
                        assert(ob.model() == postproc_vars_m(
                            var_models_of(vs@.take(k + 1)),
                            bm,
                            base as nat,
                        ));
                    }
                    k = k + 1;
                }
                proof {
                    assert(vs@.take(k_n as int) =~= vs@);
                    assert(ob.model() == postproc_m(pattern.model(), bm, base as nat));
                }
                let ghost outp = out@;
                out.push(ob);
                proof {
                    lemma_binds_models_of_push(outp, ob);
                    assert(binds_models_of(out@) + query_from_m(
                        self.model(),
                        pattern.model(),
                        i + 1,
                        base as nat,
                    ) =~= binds_models_of(outp) + (seq![
                        postproc_m(pattern.model(), bm, base as nat),
                    ] + query_from_m(self.model(), pattern.model(), i + 1, base as nat)));
                    assert(query_from_m(self.model(), pattern.model(), i as int, base as nat)
                        == seq![postproc_m(pattern.model(), bm, base as nat)] + query_from_m(
                        self.model(),
                        pattern.model(),
                        i + 1,
                        base as nat,
                    ));
                }
            } else {
                proof {
                    assert(query_from_m(self.model(), pattern.model(), i as int, base as nat)
                        == query_from_m(self.model(), pattern.model(), i + 1, base as nat));
                }
            }
            i = i + 1;
        }
        proof {
            assert(query_from_m(self.model(), pattern.model(), n as int, base as nat)
                =~= Seq::<BindsM>::empty());
            assert(binds_models_of(out@) + Seq::<BindsM>::empty() =~= binds_models_of(out@));
        }
        out
    }
}

impl Clone for GroundingSpace {
    fn clone(&self) -> (r: GroundingSpace)
        ensures
            r.model() == self.model(),
    {
        GroundingSpace { content: crate::atom::clone_atoms(&self.content) }
    }
}

} // verus!
