//! The interpreter: a plan-based state machine that rewrites an atom by
//! repeatedly querying equation rules `(= lhs rhs)` in the space.
//!
//! One step reduces the leftmost innermost reducible sub-expression: the
//! equations matching it each yield a candidate, and every candidate is
//! followed. An atom with no reducible sub-expression is a result. The
//! machine's plan holds the atoms still to reduce and the results found so
//! far; only the `Execute` state is non-terminal.

use vstd::prelude::*;

use crate::atom::{
    clone_atom, clone_atoms, height_a, height_m, height_seq_m, lemma_child_height,
    lemma_height_seq_elem, lemma_models_of, models_of, Atom, AtomM, ExpressionAtom, VariableAtom,
};
use crate::matcher::max_var_id;
use crate::space::{binds_models_of, spec_query, GroundingSpace};
use crate::types::{fresh_x_m, resolved_of_m};

verus! {

/// Bound on how many steps a full interpretation may take before it is
/// abandoned; single stepping through the machine is not bounded.
pub const INTERP_FUEL: u64 = 1000000;

/// The expression `(= a $X)` that finds the rewrites of `a`.
pub open spec fn eq_query_m(a: AtomM) -> AtomM {
    AtomM::Expr {
        children: seq![AtomM::Sym { name: "="@ }, a, AtomM::Var { v: fresh_x_m(a) }],
    }
}

/// The candidate rewrites of `a`: for each equation `(= a' rhs)` in the
/// space that unifies with `a`, the instantiated `rhs`.
pub open spec fn spec_rewrites(space: Seq<AtomM>, a: AtomM) -> Seq<AtomM> {
    resolved_of_m(spec_query(space, eq_query_m(a)), fresh_x_m(a))
}

/// Each alternative placed into the expression at child position `i`.
pub open spec fn replace_alts_m(children: Seq<AtomM>, i: int, alts: Seq<AtomM>) -> Seq<AtomM>
    decreases alts.len(),
{
    if alts.len() == 0 {
        Seq::empty()
    } else {
        replace_alts_m(children, i, alts.drop_last()).push(
            AtomM::Expr { children: children.update(i, alts.last()) },
        )
    }
}

/// One rewrite of the leftmost innermost reducible sub-expression of `a`:
/// `None` when `a` is in normal form. A child is reduced before the whole
/// expression; an expression with no reducible child is rewritten by the
/// equations that match it.
pub open spec fn rw_m(space: Seq<AtomM>, a: AtomM) -> Option<Seq<AtomM>>
    decreases height_m(a), 1nat, 0nat,
{
    match a {
        AtomM::Expr { children } => match rw_kids_m(space, children, 0) {
            Some(alts) => Some(alts),
            None => {
                let rs = spec_rewrites(space, a);
                if rs.len() > 0 {
                    Some(rs)
                } else {
                    None
                }
            },
        },
        _ => None,
    }
}

/// The rewrites of the first reducible child at or after position `i`,
/// each placed back into the expression.
pub open spec fn rw_kids_m(space: Seq<AtomM>, children: Seq<AtomM>, i: int) -> Option<Seq<AtomM>>
    decreases 1 + height_seq_m(children), 0nat, children.len() - i,
    via rw_kids_m_decreases
{
    if i < 0 || i >= children.len() {
        None
    } else {
        match rw_m(space, children[i]) {
            Some(alts) => Some(replace_alts_m(children, i, alts)),
            None => rw_kids_m(space, children, i + 1),
        }
    }
}

#[via_fn]
proof fn rw_kids_m_decreases(space: Seq<AtomM>, children: Seq<AtomM>, i: int) {
    if 0 <= i < children.len() {
        lemma_height_seq_elem(children, i);
    }
}

/// Finds the candidate rewrites of `atom` by querying `(= atom $X)`.
fn query_rewrites(space: &GroundingSpace, atom: &Atom) -> (r: Vec<Atom>)
    ensures
        models_of(r@) == spec_rewrites(space.model(), atom.model()),
{
    let mid = max_var_id(atom);
    let base: u64 = if mid < u64::MAX {
        mid + 1
    } else {
        mid
    };
    let var_x = VariableAtom::new("X").make_unique(base);
    proof {
        assert(var_x.model() == fresh_x_m(atom.model()));
    }
    let mut cs: Vec<Atom> = Vec::new();
    cs.push(Atom::sym("="));
    cs.push(clone_atom(atom));
    cs.push(Atom::Variable(var_x.clone()));
    proof {
        lemma_models_of(cs@);
        assert(models_of(cs@) =~= eq_query_m(atom.model())->children);
    }
    let pattern = Atom::expr(cs);
    let answers = space.query(&pattern);
    crate::types::resolve_answers(&answers, &var_x)
}

/// One rewrite of the leftmost innermost reducible sub-expression of
/// `atom`; `None` when `atom` is in normal form.
fn rewrite_step(space: &GroundingSpace, atom: &Atom) -> (r: Option<Vec<Atom>>)
    ensures
        match r {
            Some(alts) => rw_m(space.model(), atom.model()) == Some(models_of(alts@)),
            None => rw_m(space.model(), atom.model()) is None,
        },
    decreases height_a(*atom),
{
    match atom {
        Atom::Expression(e) => {
            let ghost mch = models_of(e.children@);
            let n = e.children.len();
            let mut i: usize = 0;
            proof {
                lemma_models_of(e.children@);
            }
            while i < n
                invariant
                    n == e.children@.len(),
                    i <= n,
                    *atom == Atom::Expression(*e),
                    mch == models_of(e.children@),
                    rw_kids_m(space.model(), mch, 0) == rw_kids_m(space.model(), mch, i as int),
                decreases n - i,
            {
                proof {
                    lemma_child_height(e, i as int);
                    lemma_models_of(e.children@);
                }
                match rewrite_step(space, &e.children[i]) {
                    Some(alts) => {
                        // place each alternative back into the expression
                        let ghost altsm = models_of(alts@);
                        let a_n = alts.len();
                        let mut out: Vec<Atom> = Vec::new();
                        let mut k: usize = 0;
                        proof {
                            lemma_models_of(alts@);
                            assert(models_of(Seq::<Atom>::empty()) =~= Seq::<AtomM>::empty());
                            assert(altsm.take(0int) =~= Seq::<AtomM>::empty());
                        }
                        while k < a_n
                            invariant
                                a_n == alts@.len(),
                                k <= a_n,
                                n == e.children@.len(),
                                i < n,
                                *atom == Atom::Expression(*e),
                                mch == models_of(e.children@),
                                altsm == models_of(alts@),
                                models_of(out@) == replace_alts_m(mch, i as int, altsm.take(
                                    k as int,
                                )),
                            decreases a_n - k,
                        {
                            proof {
                                lemma_models_of(alts@);
                                assert(altsm.take(k + 1).drop_last() =~= altsm.take(k as int));
                                assert(altsm.take(k + 1).last() == altsm[k as int]);
                            }
                            let mut cs: Vec<Atom> = Vec::new();
                            let mut j: usize = 0;
                            while j < n
                                invariant
                                    n == e.children@.len(),
                                    j <= n,
                                    i < n,
                                    k < alts@.len(),
                                    *atom == Atom::Expression(*e),
                                    mch == models_of(e.children@),
                                    altsm == models_of(alts@),
                                    cs@.len() == j,
                                    forall|q: int|
                                        0 <= q < j ==> cs@[q].model() == mch.update(
                                            i as int,
                                            altsm[k as int],
                                        )[q],
                                decreases n - j,
                            {
                                proof {
                                    lemma_models_of(e.children@);
                                    lemma_models_of(alts@);
                                }
                                if j == i {
                                    let c = clone_atom(&alts[k]);
                                    cs.push(c);
                                } else {
                                    let c = clone_atom(&e.children[j]);
                                    cs.push(c);
                                }
                                j = j + 1;
                            }
                            proof {
                                lemma_models_of(cs@);
                                lemma_models_of(e.children@);
                                assert(models_of(cs@) =~= mch.update(i as int, altsm[k as int]));
                            }
                            let ghost outp = out@;
                            out.push(Atom::expr(cs));
                            proof {
                                assert(out@.drop_last() =~= outp);
                                lemma_models_of(outp);
                                lemma_models_of(out@);
                                assert(models_of(out@) =~= models_of(outp).push(
                                    out@.last().model(),
                                ));
                                assert(models_of(out@) =~= replace_alts_m(
                                    mch,
                                    i as int,
                                    altsm.take(k + 1),
                                ));
                            }
                            k = k + 1;
                        }
                        proof {
                            assert(altsm.take(a_n as int) =~= altsm);
                            assert(rw_kids_m(space.model(), mch, i as int) == Some(
                                replace_alts_m(mch, i as int, altsm),
                            ));
                        }
                        return Some(out);
                    },
                    None => {},
                }
                i = i + 1;
            }
            let rs = query_rewrites(space, atom);
            proof {
                lemma_models_of(rs@);
            }
            if rs.len() > 0 {
                Some(rs)
            } else {
                None
            }
        },
        _ => None,
    }
}

/// The three states of an interpretation: a plan still to run, the
/// results, or an error from a grounded operator.
#[derive(Debug)]
pub enum StepResult {
    Execute(Plan),
    Return(Vec<Atom>),
    Error(Atom, String),
}

/// The work of an interpretation: the atoms still to reduce, leftmost
/// first, and the results found so far.
#[derive(Debug)]
pub struct Plan {
    pub pending: Vec<Atom>,
    pub results: Vec<Atom>,
}

impl StepResult {
    /// Whether another step can run: only the `Execute` state is
    /// non-terminal.
    pub fn has_next(&self) -> (r: bool)
        ensures
            r == (self is Execute),
    {
        match self {
            StepResult::Execute(_) => true,
            _ => false,
        }
    }

    /// The results of a finished interpretation: the values of a
    /// `Return`, nothing for an `Error`. Asking a plan still to run for
    /// its result is a driver fault, so it is ruled out.
    pub fn get_result(self) -> (r: Vec<Atom>)
        requires
            !(self is Execute),
        ensures
            match self {
                StepResult::Return(vs) => models_of(r@) == models_of(vs@),
                _ => models_of(r@) == Seq::<AtomM>::empty(),
            },
    {
        match self {
            StepResult::Return(vs) => vs,
            _ => {
                let r: Vec<Atom> = Vec::new();
                proof {
                    assert(models_of(r@) =~= Seq::<AtomM>::empty());
                }
                r
            },
        }
    }
}

/// The plan that starts an interpretation of `expr`.
pub fn interpret_init(space: &GroundingSpace, expr: &Atom) -> (r: StepResult)
    ensures
        r is Execute,
        models_of(r->Execute_0.pending@) == seq![expr.model()],
        models_of(r->Execute_0.results@) == Seq::<AtomM>::empty(),
{
    let mut pending: Vec<Atom> = Vec::new();
    pending.push(clone_atom(expr));
    let results: Vec<Atom> = Vec::new();
    proof {
        lemma_models_of(pending@);
        assert(models_of(pending@) =~= seq![expr.model()]);
        assert(models_of(results@) =~= Seq::<AtomM>::empty());
    }
    StepResult::Execute(Plan { pending, results })
}

/// The plan state after one step: the first pending atom either moves to
/// the results (normal form) or is replaced by its rewrites.
pub open spec fn step_pair_m(
    space: Seq<AtomM>,
    pending: Seq<AtomM>,
    results: Seq<AtomM>,
) -> (Seq<AtomM>, Seq<AtomM>)
    recommends
        pending.len() > 0,
{
    match rw_m(space, pending[0]) {
        None => (pending.drop_first(), results.push(pending[0])),
        Some(alts) => (alts + pending.drop_first(), results),
    }
}

/// Runs one plan step. A terminal state is returned unchanged; a plan
/// with nothing pending returns its results; otherwise the first pending
/// atom is reduced once.
pub fn interpret_step(space: &GroundingSpace, step: StepResult) -> (r: StepResult)
    ensures
        step is Return ==> r is Return && models_of(r->Return_0@) == models_of(step->Return_0@),
        step is Error ==> r is Error && r->Error_0.model() == step->Error_0.model(),
        (step is Execute && step->Execute_0.pending@.len() == 0) ==> r is Return && models_of(
            r->Return_0@,
        ) == models_of(step->Execute_0.results@),
        (step is Execute && step->Execute_0.pending@.len() > 0) ==> {
            let next = step_pair_m(
                space.model(),
                models_of(step->Execute_0.pending@),
                models_of(step->Execute_0.results@),
            );
            r is Execute && models_of(r->Execute_0.pending@) == next.0 && models_of(
                r->Execute_0.results@,
            ) == next.1
        },
{
    match step {
        StepResult::Execute(plan) => {
            let Plan { pending, mut results } = plan;
            if pending.len() == 0 {
                return StepResult::Return(results);
            }
            let ghost pm = models_of(pending@);
            let ghost rm = models_of(results@);
            let first = &pending[0];
            proof {
                lemma_models_of(pending@);
            }
            match rewrite_step(space, first) {
                None => {
                    let moved = clone_atom(first);
                    let ghost resultsp = results@;
                    results.push(moved);
                    proof {
                        assert(results@.drop_last() =~= resultsp);
                        lemma_models_of(resultsp);
                        lemma_models_of(results@);
                        assert(models_of(results@) =~= rm.push(pm[0]));
                    }
                    let mut rest: Vec<Atom> = Vec::new();
                    let n = pending.len();
                    let mut i: usize = 1;
                    while i < n
                        invariant
                            n == pending@.len(),
                            1 <= i <= n,
                            pm == models_of(pending@),
                            rest@.len() == i - 1,
                            forall|j: int| 0 <= j < i - 1 ==> rest@[j].model() == pm[j + 1],
                        decreases n - i,
                    {
                        proof {
                            lemma_models_of(pending@);
                        }
                        let c = clone_atom(&pending[i]);
                        rest.push(c);
                        i = i + 1;
                    }
                    proof {
                        lemma_models_of(rest@);
                        assert(models_of(rest@) =~= pm.drop_first());
                    }
                    StepResult::Execute(Plan { pending: rest, results })
                },
                Some(alts) => {
                    let mut next: Vec<Atom> = alts;
                    let ghost altsm = models_of(next@);
                    let n = pending.len();
                    let mut i: usize = 1;
                    proof {
                        lemma_models_of(next@);
                    }
                    while i < n
                        invariant
                            n == pending@.len(),
                            1 <= i <= n,
                            pm == models_of(pending@),
                            altsm.len() <= next@.len(),
                            next@.len() == altsm.len() + i - 1,
                            models_of(next@) == altsm + pm.subrange(1, i as int),
                        decreases n - i,
                    {
                        proof {
                            lemma_models_of(pending@);
                            lemma_models_of(next@);
                        }
                        let c = clone_atom(&pending[i]);
                        let ghost nextp = next@;
                        next.push(c);
                        proof {
                            assert(next@.drop_last() =~= nextp);
                            lemma_models_of(nextp);
                            lemma_models_of(next@);
                            assert(models_of(next@) =~= altsm + pm.subrange(1, i + 1));
                        }
                        i = i + 1;
                    }
                    proof {
                        assert(pm.subrange(1, n as int) =~= pm.drop_first());
                        assert(models_of(next@) == altsm + pm.drop_first());
                    }
                    StepResult::Execute(Plan { pending: next, results })
                },
            }
        },
        other => other,
    }
}

/// The machine run to completion from the given plan state, up to `fuel`
/// steps; `None` when the bound is exhausted first.
pub open spec fn interp_run_m(
    space: Seq<AtomM>,
    pending: Seq<AtomM>,
    results: Seq<AtomM>,
    fuel: nat,
) -> Option<Seq<AtomM>>
    decreases fuel,
{
    if pending.len() == 0 {
        Some(results)
    } else if fuel == 0 {
        None
    } else {
        let next = step_pair_m(space, pending, results);
        interp_run_m(space, next.0, next.1, (fuel - 1) as nat)
    }
}

/// All results of interpreting `a`: the normal forms its rewrites reach,
/// in order; `None` when the interpretation exceeds the step bound.
pub open spec fn spec_interpret(space: Seq<AtomM>, a: AtomM) -> Option<Seq<AtomM>> {
    interp_run_m(space, seq![a], Seq::empty(), INTERP_FUEL as nat)
}

/// Interprets `expr` to completion: repeatedly reduces the leftmost
/// innermost reducible sub-expression by the space's equations, and
/// collects every normal form reached, in order. An interpretation that
/// exceeds the machine's step bound is reported as an error.
pub fn interpret(space: &GroundingSpace, expr: &Atom) -> (r: Result<Vec<Atom>, String>)
    ensures
        match spec_interpret(space.model(), expr.model()) {
            Some(vs) => r is Ok && models_of(r->Ok_0@) == vs,
            None => r is Err,
        },
{
    let mut sr = interpret_init(space, expr);
    let mut fuel: u64 = INTERP_FUEL;
    while sr.has_next() && fuel > 0
        invariant
            !(sr is Error),
            sr is Execute ==> interp_run_m(
                space.model(),
                models_of(sr->Execute_0.pending@),
                models_of(sr->Execute_0.results@),
                fuel as nat,
            ) == spec_interpret(space.model(), expr.model()),
            sr is Return ==> spec_interpret(space.model(), expr.model()) == Some(
                models_of(sr->Return_0@),
            ),
        decreases fuel,
    {
        let ghost oldp = models_of(sr->Execute_0.pending@);
        let ghost oldr = models_of(sr->Execute_0.results@);
        proof {
            lemma_models_of(sr->Execute_0.pending@);
        }
        sr = interpret_step(space, sr);
        fuel = fuel - 1;
        proof {
            if oldp.len() == 0 {
                assert(interp_run_m(space.model(), oldp, oldr, (fuel + 1) as nat) == Some(oldr));
            }
        }
    }
    match sr {
        StepResult::Return(vs) => Ok(vs),
        StepResult::Execute(plan) => {
            if plan.pending.len() == 0 {
                proof {
                    lemma_models_of(plan.pending@);
                    assert(interp_run_m(
                        space.model(),
                        models_of(plan.pending@),
                        models_of(plan.results@),
                        fuel as nat,
                    ) == Some(models_of(plan.results@)));
                }
                Ok(plan.results)
            } else {
                proof {
                    lemma_models_of(plan.pending@);
                }
                Err(String::from_str("interpretation did not finish within the step bound"))
            }
        },
        StepResult::Error(_, _) => Err(
            String::from_str("interpretation did not finish within the step bound"),
        ),
    }
}

} // verus!
