//! The atom term model: a tagged union of four kinds — symbol, variable,
//! grounded value, and compound expression — together with its mathematical
//! model, structural equality, cloning, and deep iteration over
//! sub-expressions.

use vstd::prelude::*;

verus! {

/// Mathematical model of a variable: a name and a distinguishing id.
/// Two variables are the same variable exactly when both agree.
pub struct VarM {
    pub name: Seq<char>,
    pub id: nat,
}

/// Mathematical model of a grounded host value.
pub enum GndM {
    /// An integer value carried by the host.
    Int { value: int },
    /// The sentinel that stands for the `%Undefined%` wildcard during type
    /// matching; it matches any atom.
    UndefinedTypeMatch,
}

/// Mathematical model of an atom.
pub enum AtomM {
    Sym { name: Seq<char> },
    Var { v: VarM },
    Gnd { g: GndM },
    Expr { children: Seq<AtomM> },
}

/// A variable atom: equality is by name and id together. A fresh-id
/// renaming produces a variable with the same name but a new id.
#[derive(Debug)]
pub struct VariableAtom {
    pub name: String,
    pub id: u64,
}

/// A grounded host value. The set of host values the core introspects is a
/// closed sum: integers, and the internal `%Undefined%` matching sentinel.
#[derive(Debug)]
pub enum GroundedValue {
    Int(i64),
    UndefinedTypeMatch,
}

/// An ordered, possibly empty, sequence of child atoms.
#[derive(Debug)]
pub struct ExpressionAtom {
    pub children: Vec<Atom>,
}

/// The canonical term: one of symbol, variable, grounded value, expression.
#[derive(Debug)]
pub enum Atom {
    Symbol(String),
    Variable(VariableAtom),
    Grounded(GroundedValue),
    Expression(ExpressionAtom),
}

impl VariableAtom {
    pub open spec fn model(self) -> VarM {
        VarM { name: self.name@, id: self.id as nat }
    }
}

impl GroundedValue {
    pub open spec fn model(self) -> GndM {
        match self {
            GroundedValue::Int(v) => GndM::Int { value: v as int },
            GroundedValue::UndefinedTypeMatch => GndM::UndefinedTypeMatch,
        }
    }
}

impl Atom {
    /// The mathematical model of this atom.
    pub open spec fn model(self) -> AtomM
        decreases self,
    {
        match self {
            Atom::Symbol(s) => AtomM::Sym { name: s@ },
            Atom::Variable(v) => AtomM::Var { v: v.model() },
            Atom::Grounded(g) => AtomM::Gnd { g: g.model() },
            Atom::Expression(e) => AtomM::Expr { children: models_of(e.children@) },
        }
    }
}

/// The models of a sequence of atoms, element by element.
pub open spec fn models_of(s: Seq<Atom>) -> Seq<AtomM>
    decreases s,
{
    if s.len() == 0 {
        Seq::empty()
    } else {
        models_of(s.drop_last()).push(s.last().model())
    }
}

/// `models_of` is the element-wise model map.
pub proof fn lemma_models_of(s: Seq<Atom>)
    ensures
        models_of(s).len() == s.len(),
        forall|i: int| 0 <= i < s.len() ==> #[trigger] models_of(s)[i] == s[i].model(),
    decreases s.len(),
{
    if s.len() > 0 {
        lemma_models_of(s.drop_last());
    }
}

/// Height of a model term; used as the termination measure of the
/// structurally recursive functions over atoms.
pub open spec fn height_m(m: AtomM) -> nat
    decreases m,
{
    match m {
        AtomM::Expr { children } => 1 + height_seq_m(children),
        _ => 0,
    }
}

/// Height of a sequence of model terms: the maximum element height.
pub open spec fn height_seq_m(s: Seq<AtomM>) -> nat
    decreases s,
{
    if s.len() == 0 {
        0
    } else {
        let h = height_m(s.last());
        let r = height_seq_m(s.drop_last());
        if h > r {
            h
        } else {
            r
        }
    }
}

/// Height of an atom, through its model.
pub open spec fn height_a(a: Atom) -> nat {
    height_m(a.model())
}

pub proof fn lemma_height_seq_elem(s: Seq<AtomM>, i: int)
    requires
        0 <= i < s.len(),
    ensures
        height_m(s[i]) <= height_seq_m(s),
    decreases s.len(),
{
    if i < s.len() - 1 {
        lemma_height_seq_elem(s.drop_last(), i);
    }
}

/// A child of an expression is lower than the expression itself.
pub proof fn lemma_child_height(e: &ExpressionAtom, i: int)
    requires
        0 <= i < e.children@.len(),
    ensures
        height_a(e.children@[i]) < height_a(Atom::Expression(*e)),
{
    lemma_models_of(e.children@);
    lemma_height_seq_elem(models_of(e.children@), i);
}

/// Structural equality of two atoms, in the sense of their models.
pub fn eq_atoms(a: &Atom, b: &Atom) -> (r: bool)
    ensures
        r == (a.model() == b.model()),
    decreases height_a(*a),
{
    match (a, b) {
        (Atom::Symbol(x), Atom::Symbol(y)) => *x == *y,
        (Atom::Variable(x), Atom::Variable(y)) => x.name == y.name && x.id == y.id,
        (Atom::Grounded(x), Atom::Grounded(y)) => match (x, y) {
            (GroundedValue::Int(v), GroundedValue::Int(w)) => *v == *w,
            (GroundedValue::UndefinedTypeMatch, GroundedValue::UndefinedTypeMatch) => true,
            _ => false,
        },
        (Atom::Expression(x), Atom::Expression(y)) => {
            if x.children.len() != y.children.len() {
                proof {
                    lemma_models_of(x.children@);
                    lemma_models_of(y.children@);
                }
                false
            } else {
                let n = x.children.len();
                let mut i: usize = 0;
                while i < n
                    invariant
                        n == x.children@.len(),
                        n == y.children@.len(),
                        i <= n,
                        *a == Atom::Expression(*x),
                        *b == Atom::Expression(*y),
                        forall|j: int|
                            0 <= j < i ==> x.children@[j].model() == y.children@[j].model(),
                    decreases n - i,
                {
                    proof {
                        lemma_child_height(x, i as int);
                    }
                    if !eq_atoms(&x.children[i], &y.children[i]) {
                        proof {
                            lemma_models_of(x.children@);
                            lemma_models_of(y.children@);
                            assert(models_of(x.children@)[i as int]
                                != models_of(y.children@)[i as int]);
                        }
                        return false;
                    }
                    i = i + 1;
                }
                proof {
                    assert forall|k: int|
                        0 <= k < models_of(x.children@).len() implies models_of(x.children@)[k]
                        == models_of(y.children@)[k] by {
                        lemma_models_of(x.children@);
                        lemma_models_of(y.children@);
                    }
                    lemma_models_of(x.children@);
                    lemma_models_of(y.children@);
                    assert(models_of(x.children@) =~= models_of(y.children@));
                }
                true
            }
        },
        _ => false,
    }
}

impl PartialEq for Atom {
    fn eq(&self, other: &Atom) -> bool {
        eq_atoms(self, other)
    }
}

impl vstd::std_specs::cmp::PartialEqSpecImpl for Atom {
    open spec fn obeys_eq_spec() -> bool {
        true
    }

    open spec fn eq_spec(&self, other: &Atom) -> bool {
        self.model() == other.model()
    }
}

impl PartialEq for VariableAtom {
    fn eq(&self, other: &VariableAtom) -> bool {
        self.name == other.name && self.id == other.id
    }
}

impl vstd::std_specs::cmp::PartialEqSpecImpl for VariableAtom {
    open spec fn obeys_eq_spec() -> bool {
        true
    }

    open spec fn eq_spec(&self, other: &VariableAtom) -> bool {
        self.model() == other.model()
    }
}

/// A structural copy of an atom.
pub fn clone_atom(a: &Atom) -> (r: Atom)
    ensures
        r.model() == a.model(),
    decreases height_a(*a),
{
    match a {
        Atom::Symbol(s) => Atom::Symbol(s.clone()),
        Atom::Variable(v) => Atom::Variable(VariableAtom { name: v.name.clone(), id: v.id }),
        Atom::Grounded(g) => Atom::Grounded(
            match g {
                GroundedValue::Int(v) => GroundedValue::Int(*v),
                GroundedValue::UndefinedTypeMatch => GroundedValue::UndefinedTypeMatch,
            },
        ),
        Atom::Expression(e) => {
            let n = e.children.len();
            let mut cs: Vec<Atom> = Vec::new();
            let mut i: usize = 0;
            while i < n
                invariant
                    n == e.children@.len(),
                    i <= n,
                    *a == Atom::Expression(*e),
                    cs@.len() == i,
                    forall|j: int| 0 <= j < i ==> cs@[j].model() == e.children@[j].model(),
                decreases n - i,
            {
                proof {
                    lemma_child_height(e, i as int);
                }
                let c = clone_atom(&e.children[i]);
                cs.push(c);
                i = i + 1;
            }
            proof {
                lemma_models_of(cs@);
                lemma_models_of(e.children@);
                assert(models_of(cs@) =~= models_of(e.children@));
            }
            Atom::Expression(ExpressionAtom { children: cs })
        },
    }
}

impl Clone for Atom {
    fn clone(&self) -> (r: Atom)
        ensures
            r.model() == self.model(),
    {
        clone_atom(self)
    }
}

impl Clone for VariableAtom {
    fn clone(&self) -> (r: VariableAtom)
        ensures
            r.model() == self.model(),
    {
        VariableAtom { name: self.name.clone(), id: self.id }
    }
}

impl VariableAtom {
    /// A variable with the given name and the initial id, as the parser
    /// produces it.
    pub fn new(name: &str) -> (r: VariableAtom)
        ensures
            r.model() == (VarM { name: name@, id: 0 }),
    {
        VariableAtom { name: name.to_owned(), id: 0 }
    }

    /// The same name under a new id: the fresh-id renaming that keeps rule
    /// variables apart from query variables.
    pub fn make_unique(&self, id: u64) -> (r: VariableAtom)
        ensures
            r.model() == (VarM { name: self.name@, id: id as nat }),
    {
        VariableAtom { name: self.name.clone(), id }
    }
}

/// The type atom of a grounded value.
pub open spec fn gnd_type_m(g: GndM) -> AtomM {
    match g {
        GndM::Int { .. } => AtomM::Sym { name: "i32"@ },
        GndM::UndefinedTypeMatch => AtomM::Sym { name: "Type"@ },
    }
}

impl GroundedValue {
    /// The type of the host value, itself an atom.
    pub fn type_(&self) -> (r: Atom)
        ensures
            r.model() == gnd_type_m(self.model()),
    {
        match self {
            GroundedValue::Int(_) => Atom::sym("i32"),
            GroundedValue::UndefinedTypeMatch => Atom::sym("Type"),
        }
    }
}

impl Atom {
    /// A symbol atom with the given name.
    pub fn sym(name: &str) -> (r: Atom)
        ensures
            r.model() == (AtomM::Sym { name: name@ }),
    {
        Atom::Symbol(name.to_owned())
    }

    /// A variable atom with the given name and the initial id.
    pub fn var(name: &str) -> (r: Atom)
        ensures
            r.model() == (AtomM::Var { v: VarM { name: name@, id: 0 } }),
    {
        Atom::Variable(VariableAtom::new(name))
    }

    /// An expression atom over the given children.
    pub fn expr(children: Vec<Atom>) -> (r: Atom)
        ensures
            r.model() == (AtomM::Expr { children: models_of(children@) }),
    {
        Atom::Expression(ExpressionAtom { children })
    }

    /// A grounded atom over the given host value.
    pub fn gnd(g: GroundedValue) -> (r: Atom)
        ensures
            r.model() == (AtomM::Gnd { g: g.model() }),
    {
        Atom::Grounded(g)
    }

    /// A grounded integer atom.
    pub fn value(v: i64) -> (r: Atom)
        ensures
            r.model() == (AtomM::Gnd { g: GndM::Int { value: v as int } }),
    {
        Atom::Grounded(GroundedValue::Int(v))
    }

    /// The expression payload, when this atom is an expression.
    pub fn as_expr(&self) -> (r: Option<&ExpressionAtom>)
        ensures
            match r {
                Some(e) => self.model() == (AtomM::Expr { children: models_of(e.children@) }),
                None => !(self.model() is Expr),
            },
    {
        match self {
            Atom::Expression(e) => Some(e),
            _ => None,
        }
    }
}

// ------------------------------------------------------------------
// Display
// ------------------------------------------------------------------

/// The decimal rendering of a single digit.
pub open spec fn dec_digit(d: nat) -> Seq<char> {
    if d == 0 {
        "0"@
    } else if d == 1 {
        "1"@
    } else if d == 2 {
        "2"@
    } else if d == 3 {
        "3"@
    } else if d == 4 {
        "4"@
    } else if d == 5 {
        "5"@
    } else if d == 6 {
        "6"@
    } else if d == 7 {
        "7"@
    } else if d == 8 {
        "8"@
    } else {
        "9"@
    }
}

/// The decimal rendering of a natural number.
pub open spec fn dec_of(n: nat) -> Seq<char>
    decreases n,
{
    if n < 10 {
        dec_digit(n)
    } else {
        dec_of(n / 10) + dec_digit(n % 10)
    }
}

/// The decimal rendering of an integer, with a leading minus sign when
/// negative.
pub open spec fn int_dec_of(v: int) -> Seq<char> {
    if v < 0 {
        "-"@ + dec_of((-v) as nat)
    } else {
        dec_of(v as nat)
    }
}

/// The textual rendering of an atom: a symbol is its name, a variable is a
/// dollar sign and its name, a grounded integer is its decimal value, and an
/// expression is its children's renderings joined by single spaces between
/// parentheses.
pub open spec fn display_m(m: AtomM) -> Seq<char>
    decreases m,
{
    match m {
        AtomM::Sym { name } => name,
        AtomM::Var { v } => "$"@ + v.name,
        AtomM::Gnd { g } => match g {
            GndM::Int { value } => int_dec_of(value),
            GndM::UndefinedTypeMatch => "%Undefined%"@,
        },
        AtomM::Expr { children } => "("@ + display_children(children) + ")"@,
    }
}

/// The renderings of a sequence of atoms, joined by single spaces.
pub open spec fn display_children(s: Seq<AtomM>) -> Seq<char>
    decreases s,
{
    if s.len() == 0 {
        Seq::empty()
    } else if s.len() == 1 {
        display_m(s[0])
    } else {
        display_children(s.drop_last()) + " "@ + display_m(s.last())
    }
}

/// Appends the decimal rendering of `n` to `out`.
fn write_u64_dec(out: &mut String, n: u64)
    ensures
        final(out)@ == old(out)@ + dec_of(n as nat),
    decreases n,
{
    if n >= 10 {
        write_u64_dec(out, n / 10);
    }
    let d = n % 10;
    match d {
        0 => out.append("0"),
        1 => out.append("1"),
        2 => out.append("2"),
        3 => out.append("3"),
        4 => out.append("4"),
        5 => out.append("5"),
        6 => out.append("6"),
        7 => out.append("7"),
        8 => out.append("8"),
        _ => out.append("9"),
    }
}

/// Appends the rendering of `a` to `out`.
fn write_atom(out: &mut String, a: &Atom)
    ensures
        final(out)@ == old(out)@ + display_m(a.model()),
    decreases height_a(*a),
{
    match a {
        Atom::Symbol(s) => out.append(s.as_str()),
        Atom::Variable(v) => {
            out.append("$");
            out.append(v.name.as_str());
        },
        Atom::Grounded(g) => match g {
            GroundedValue::Int(v) => {
                let value = *v;
                if value < 0 {
                    out.append("-");
                    let mag: u64 = (-(value as i128)) as u64;
                    write_u64_dec(out, mag);
                } else {
                    write_u64_dec(out, value as u64);
                }
            },
            GroundedValue::UndefinedTypeMatch => out.append("%Undefined%"),
        },
        Atom::Expression(e) => {
            out.append("(");
            let ghost open_done = out@;
            let n = e.children.len();
            let mut i: usize = 0;
            while i < n
                invariant
                    n == e.children@.len(),
                    i <= n,
                    *a == Atom::Expression(*e),
                    out@ == open_done + display_children(models_of(e.children@).take(i as int)),
                decreases n - i,
            {
                if i > 0 {
                    out.append(" ");
                }
                proof {
                    lemma_child_height(e, i as int);
                }
                write_atom(out, &e.children[i]);
                proof {
                    lemma_models_of(e.children@);
                    let s = models_of(e.children@);
                    assert(s.take(i + 1).drop_last() =~= s.take(i as int));
                    assert(s.take(i + 1).last() == s[i as int]);
                    if i == 0 {
                        assert(display_children(s.take(1)) == display_m(s[0]));
                        assert(out@ =~= open_done + display_children(s.take(i + 1)));
                    } else {
                        assert(out@ =~= open_done + display_children(s.take(i + 1)));
                    }
                }
                i = i + 1;
            }
            proof {
                lemma_models_of(e.children@);
                assert(models_of(e.children@).take(n as int) =~= models_of(e.children@));
            }
            out.append(")");
            proof {
                assert(final(out)@ =~= old(out)@ + display_m(a.model()));
            }
        },
    }
}

impl Atom {
    /// The textual rendering of this atom.
    pub fn to_text(&self) -> (r: String)
        ensures
            r@ == display_m(self.model()),
    {
        let mut out = String::new();
        write_atom(&mut out, self);
        out
    }
}

// ------------------------------------------------------------------
// Deep iteration over sub-expressions
// ------------------------------------------------------------------

/// The sub-expressions of a model term, in depth-first order with each
/// expression after its children; non-expression leaves are not included.
pub open spec fn sub_exprs_m(m: AtomM) -> Seq<AtomM>
    decreases m,
{
    match m {
        AtomM::Expr { children } => sub_exprs_children(children).push(m),
        _ => Seq::empty(),
    }
}

/// The concatenated sub-expressions of a sequence of model terms.
pub open spec fn sub_exprs_children(s: Seq<AtomM>) -> Seq<AtomM>
    decreases s,
{
    if s.len() == 0 {
        Seq::empty()
    } else {
        sub_exprs_children(s.drop_last()) + sub_exprs_m(s.last())
    }
}

/// Appends the sub-expressions of `a` to `out`.
fn collect_sub_exprs(out: &mut Vec<Atom>, a: &Atom)
    ensures
        models_of(final(out)@) == models_of(old(out)@) + sub_exprs_m(a.model()),
    decreases height_a(*a),
{
    proof {
        lemma_models_of(out@);
    }
    match a {
        Atom::Expression(e) => {
            let ghost start = out@;
            let n = e.children.len();
            let mut i: usize = 0;
            while i < n
                invariant
                    n == e.children@.len(),
                    i <= n,
                    *a == Atom::Expression(*e),
                    models_of(out@) == models_of(start) + sub_exprs_children(
                        models_of(e.children@).take(i as int),
                    ),
                decreases n - i,
            {
                proof {
                    lemma_child_height(e, i as int);
                }
                collect_sub_exprs(out, &e.children[i]);
                proof {
                    lemma_models_of(e.children@);
                    let s = models_of(e.children@);
                    assert(s.take(i + 1).drop_last() =~= s.take(i as int));
                    assert(s.take(i + 1).last() == s[i as int]);
                    assert(models_of(out@) =~= models_of(start) + sub_exprs_children(
                        s.take(i + 1),
                    ));
                }
                i = i + 1;
            }
            let c = clone_atom(a);
            let ghost before_push = out@;
            out.push(c);
            proof {
                lemma_models_of(e.children@);
                assert(models_of(e.children@).take(n as int) =~= models_of(e.children@));
                assert(out@.drop_last() =~= before_push);
                assert(models_of(out@) =~= models_of(before_push).push(a.model()));
                assert(models_of(out@) =~= models_of(start) + sub_exprs_m(a.model()));
            }
        },
        _ => {
            proof {
                assert(models_of(out@) =~= models_of(old(out)@) + sub_exprs_m(a.model()));
            }
        },
    }
}

/// Structural copies of a vector of atoms.
pub fn clone_atoms(v: &Vec<Atom>) -> (r: Vec<Atom>)
    ensures
        models_of(r@) == models_of(v@),
{
    let n = v.len();
    let mut out: Vec<Atom> = Vec::new();
    let mut i: usize = 0;
    while i < n
        invariant
            n == v@.len(),
            i <= n,
            out@.len() == i,
            forall|j: int| 0 <= j < i ==> out@[j].model() == v@[j].model(),
        decreases n - i,
    {
        let c = clone_atom(&v[i]);
        out.push(c);
        i = i + 1;
    }
    proof {
        lemma_models_of(out@);
        lemma_models_of(v@);
        assert(models_of(out@) =~= models_of(v@));
    }
    out
}

impl ExpressionAtom {
    /// The children of this expression.
    pub fn children(&self) -> (r: &Vec<Atom>)
        ensures
            r == &self.children,
    {
        &self.children
    }

    /// The sub-expressions of this expression, in depth-first order with
    /// each expression after its children.
    pub fn sub_expressions(&self) -> (r: Vec<Atom>)
        ensures
            models_of(r@) == sub_exprs_m(AtomM::Expr { children: models_of(self.children@) }),
    {
        let mut out: Vec<Atom> = Vec::new();
        let a = Atom::Expression(ExpressionAtom { children: clone_atoms(&self.children) });
        proof {
            lemma_models_of(out@);
            assert(models_of(Seq::<Atom>::empty()) =~= Seq::<AtomM>::empty());
        }
        collect_sub_exprs(&mut out, &a);
        out
    }
}

} // verus!
