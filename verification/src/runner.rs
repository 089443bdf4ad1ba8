//! The runner: parses atoms one at a time and either adds them to the
//! space or interprets them.
//!
//! The runner starts in adding mode. The distinguished `!` symbol switches
//! it to interpreting mode for the next atom; after every atom it falls
//! back to adding mode. When the `type-check` setting is `auto`, an atom
//! that fails validation yields `(Error atom BadType)` instead of being
//! rewritten.

use vstd::prelude::*;

use crate::atom::{clone_atom, eq_atoms, lemma_models_of, models_of, Atom, AtomM};
use crate::interpreter::{interpret, spec_interpret};
use crate::space::GroundingSpace;
use crate::text::{spec_parse, ParseAtomM, SExprParser, TokenCtor, Tokenizer};
use crate::types::{grt_m, lemma_models2_of, lemma_models2_of_push, models2_of, validate_atom};

verus! {

/// What the runner does with the next atom.
#[derive(Clone, Copy, Debug, PartialEq, Eq, Structural)]
pub enum Mode {
    ADD,
    INTERPRET,
}

/// The models of the settings, in order.
pub open spec fn settings_model(s: Seq<(String, String)>) -> Seq<(Seq<char>, Seq<char>)>
    decreases s,
{
    if s.len() == 0 {
        Seq::empty()
    } else {
        settings_model(s.drop_last()).push((s.last().0@, s.last().1@))
    }
}

pub proof fn lemma_settings_model(s: Seq<(String, String)>)
    ensures
        settings_model(s).len() == s.len(),
        forall|i: int| 0 <= i < s.len() ==> #[trigger] settings_model(s)[i] == (s[i].0@, s[i].1@),
    decreases s.len(),
{
    if s.len() > 0 {
        lemma_settings_model(s.drop_last());
    }
}

/// The value of the first entry with the given key, if any.
pub open spec fn lookup_setting_m(s: Seq<(Seq<char>, Seq<char>)>, key: Seq<char>) -> Option<
    Seq<char>,
>
    decreases s.len(),
{
    if s.len() == 0 {
        None
    } else if s[0].0 == key {
        Some(s[0].1)
    } else {
        lookup_setting_m(s.drop_first(), key)
    }
}

/// Whether automatic type checking is switched on.
pub open spec fn type_check_enabled_m(st: Seq<(Seq<char>, Seq<char>)>) -> bool {
    lookup_setting_m(st, "type-check"@) == Some("auto"@)
}

/// The error atom `(Error a BadType)`.
pub open spec fn error_atom_m(a: AtomM) -> AtomM {
    AtomM::Expr {
        children: seq![AtomM::Sym { name: "Error"@ }, a, AtomM::Sym { name: "BadType"@ }],
    }
}

/// The distinguished symbol that switches the runner to interpreting
/// mode.
pub open spec fn exec_sym_m() -> AtomM {
    AtomM::Sym { name: "!"@ }
}

/// What evaluating one atom yields: its error atom when automatic type
/// checking rejects it, the interpreter's results otherwise; `None` when
/// the interpretation exceeds its step bound.
pub open spec fn eval_m(
    space: Seq<AtomM>,
    st: Seq<(Seq<char>, Seq<char>)>,
    a: AtomM,
) -> Option<Seq<AtomM>> {
    if type_check_enabled_m(st) && grt_m(space, a).len() == 0 {
        Some(seq![error_atom_m(a)])
    } else {
        spec_interpret(space, a)
    }
}

/// The outcome of a run: the result lists and the final space, or a
/// failure (a parse error, an interpretation out of bounds, or an input
/// beyond the runner's step allowance).
pub enum RunM {
    Done(Seq<Seq<AtomM>>, Seq<AtomM>),
    Failed,
}

/// The runner's loop: parse one atom, act on it by mode, repeat.
pub open spec fn run_m(
    space: Seq<AtomM>,
    toks: Seq<(Seq<char>, TokenCtor)>,
    st: Seq<(Seq<char>, Seq<char>)>,
    text: Seq<char>,
    pos: nat,
    mode: Mode,
    acc: Seq<Seq<AtomM>>,
    fuel: nat,
) -> RunM
    decreases fuel,
{
    match spec_parse(text, toks, pos) {
        ParseAtomM::End(_) => RunM::Done(acc, space),
        ParseAtomM::Fail => RunM::Failed,
        ParseAtomM::Found(a, k) => {
            if fuel == 0 {
                RunM::Failed
            } else if a == exec_sym_m() {
                run_m(space, toks, st, text, k as nat, Mode::INTERPRET, acc, (fuel - 1) as nat)
            } else {
                match mode {
                    Mode::ADD => run_m(
                        space.push(a),
                        toks,
                        st,
                        text,
                        k as nat,
                        Mode::ADD,
                        acc,
                        (fuel - 1) as nat,
                    ),
                    Mode::INTERPRET => match eval_m(space, st, a) {
                        Some(vs) => run_m(
                            space,
                            toks,
                            st,
                            text,
                            k as nat,
                            Mode::ADD,
                            acc.push(vs),
                            (fuel - 1) as nat,
                        ),
                        None => RunM::Failed,
                    },
                }
            }
        },
    }
}

/// The runner's step allowance over a text: ample for one atom per
/// remaining character.
pub open spec fn run_fuel_m(len: nat, pos: nat) -> nat {
    if pos <= len && len - pos + 2 <= u64::MAX {
        (len - pos + 2) as nat
    } else {
        u64::MAX as nat
    }
}

/// A session: the space, the tokenizer, and the settings.
#[derive(Debug)]
pub struct Metta {
    pub space: GroundingSpace,
    pub tokenizer: Tokenizer,
    pub settings: Vec<(String, String)>,
    pub cwd: String,
}

impl Metta {
    /// A session over the given space and tokenizer, rooted in the
    /// current directory.
    pub fn new(space: GroundingSpace, tokenizer: Tokenizer) -> (r: Metta)
        ensures
            r.space.model() == space.model(),
            r.tokenizer.model() == tokenizer.model(),
            settings_model(r.settings@) == Seq::<(Seq<char>, Seq<char>)>::empty(),
    {
        Metta::from_space_cwd(space, tokenizer, String::from_str("."))
    }

    /// A session over the given space and tokenizer, rooted in the given
    /// working directory. The directory matters only to hosts that load
    /// modules from files, which is outside this core.
    pub fn from_space_cwd(space: GroundingSpace, tokenizer: Tokenizer, cwd: String) -> (r: Metta)
        ensures
            r.space.model() == space.model(),
            r.tokenizer.model() == tokenizer.model(),
            settings_model(r.settings@) == Seq::<(Seq<char>, Seq<char>)>::empty(),
    {
        let settings: Vec<(String, String)> = Vec::new();
        let r = Metta { space, tokenizer, settings, cwd };
        proof {
            assert(r.settings@.len() == 0);
        }
        r
    }

    /// Loads a module by name. The only module of the core, `stdlib`, is
    /// the standard library of grounded operators, which lives outside
    /// this core; loading it changes nothing here.
    pub fn load_module(&mut self, _name: &str)
        ensures
            *final(self) == *old(self),
    {
    }

    /// The knowledge base of this session.
    pub fn space(&self) -> (r: &GroundingSpace)
        ensures
            r == &self.space,
    {
        &self.space
    }

    /// The tokenizer of this session.
    pub fn tokenizer(&self) -> (r: &Tokenizer)
        ensures
            r == &self.tokenizer,
    {
        &self.tokenizer
    }

    /// The value of a setting, if set.
    pub fn get_setting(&self, key: &str) -> (r: Option<String>)
        ensures
            match r {
                Some(v) => lookup_setting_m(settings_model(self.settings@), key@) == Some(v@),
                None => lookup_setting_m(settings_model(self.settings@), key@) is None,
            },
    {
        proof {
            lemma_settings_model(self.settings@);
            assert(settings_model(self.settings@).skip(0) =~= settings_model(self.settings@));
        }
        let keys = key.to_owned();
        let n = self.settings.len();
        let mut i: usize = 0;
        while i < n
            invariant
                n == self.settings@.len(),
                i <= n,
                keys@ == key@,
                lookup_setting_m(settings_model(self.settings@), key@) == lookup_setting_from(
                    settings_model(self.settings@),
                    key@,
                    i as int,
                ),
            decreases n - i,
        {
            proof {
                lemma_settings_model(self.settings@);
                lemma_lookup_setting_unfold(settings_model(self.settings@), key@, i as int);
            }
            let p = &self.settings[i];
            if p.0 == keys {
                return Some(p.1.clone());
            }
            i = i + 1;
        }
        proof {
            lemma_lookup_setting_end(settings_model(self.settings@), key@);
        }
        None
    }

    /// Sets a setting; the newest value wins.
    pub fn set_setting(&mut self, key: String, value: String)
        ensures
            settings_model(final(self).settings@) == seq![(key@, value@)] + settings_model(
                old(self).settings@,
            ),
            final(self).space == old(self).space,
            final(self).tokenizer == old(self).tokenizer,
    {
        let ghost before = self.settings@;
        self.settings.insert(0, (key, value));
        proof {
            lemma_settings_model(before);
            lemma_settings_model(self.settings@);
            assert(settings_model(self.settings@) =~= seq![(key@, value@)] + settings_model(
                before,
            ));
        }
    }

    /// Adds an atom to the space.
    fn add_atom(&mut self, atom: Atom)
        ensures
            final(self).space.model() == old(self).space.model().push(atom.model()),
            final(self).tokenizer == old(self).tokenizer,
            final(self).settings == old(self).settings,
    {
        self.space.add(atom);
    }

    /// When automatic type checking is on and the atom fails validation,
    /// the error atom `(Error atom BadType)`; the atom itself otherwise.
    fn type_check(&self, atom: Atom) -> (r: Result<Atom, Atom>)
        ensures
            match r {
                Ok(a) => a.model() == atom.model() && !(type_check_enabled_m(
                    settings_model(self.settings@),
                ) && grt_m(self.space.model(), atom.model()).len() == 0),
                Err(ea) => ea.model() == error_atom_m(atom.model()) && type_check_enabled_m(
                    settings_model(self.settings@),
                ) && grt_m(self.space.model(), atom.model()).len() == 0,
            },
    {
        let auto = String::from_str("auto");
        let enabled = match self.get_setting("type-check") {
            Some(v) => v == auto,
            None => false,
        };
        if enabled && !validate_atom(&self.space, &atom) {
            let mut cs: Vec<Atom> = Vec::new();
            cs.push(Atom::sym("Error"));
            cs.push(atom);
            cs.push(Atom::sym("BadType"));
            proof {
                lemma_models_of(cs@);
                assert(models_of(cs@) =~= error_atom_m(cs@[1].model())->children);
            }
            Err(Atom::expr(cs))
        } else {
            Ok(atom)
        }
    }

    /// Evaluates one atom: when automatic type checking rejects it, its
    /// error atom alone; otherwise the interpreter's results. An
    /// interpretation beyond the step bound is an error.
    pub fn evaluate_atom(&self, atom: Atom) -> (r: Result<Vec<Atom>, String>)
        ensures
            match eval_m(
                self.space.model(),
                settings_model(self.settings@),
                atom.model(),
            ) {
                Some(vs) => r is Ok && models_of(r->Ok_0@) == vs,
                None => r is Err,
            },
    {
        match self.type_check(atom) {
            Err(ea) => {
                let mut out: Vec<Atom> = Vec::new();
                let ghost eam = ea.model();
                out.push(ea);
                proof {
                    lemma_models_of(out@);
                    assert(models_of(out@) =~= seq![eam]);
                }
                Ok(out)
            },
            Ok(a) => interpret(&self.space, &a),
        }
    }

    /// Runs a program: parses atoms one at a time, adding each to the
    /// space, except that an atom right after the `!` symbol is
    /// interpreted and its results collected. Stops at the end of the
    /// input with all collected result lists; a parse error or a failed
    /// interpretation stops the run with an error.
    pub fn run(&mut self, parser: &mut SExprParser) -> (r: Result<Vec<Vec<Atom>>, String>)
        requires
            old(parser).pos <= old(parser).text@.len(),
        ensures
            final(parser).text@ == old(parser).text@,
            final(parser).pos <= final(parser).text@.len(),
            final(self).tokenizer == old(self).tokenizer,
            final(self).settings == old(self).settings,
            match run_m(
                old(self).space.model(),
                old(self).tokenizer.model(),
                settings_model(old(self).settings@),
                old(parser).text@,
                old(parser).pos as nat,
                Mode::ADD,
                Seq::empty(),
                run_fuel_m(old(parser).text@.len(), old(parser).pos as nat),
            ) {
                RunM::Done(rs, sp) => r is Ok && models2_of(r->Ok_0@) == rs
                    && final(self).space.model() == sp,
                RunM::Failed => r is Err,
            },
    {
        let mut mode = Mode::ADD;
        let mut results: Vec<Vec<Atom>> = Vec::new();
        let n = parser.text.unicode_len();
        let remaining = n - parser.pos;
        let mut fuel: u64 = if (remaining as u64) <= u64::MAX - 2 {
            (remaining as u64) + 2
        } else {
            u64::MAX
        };
        proof {
            assert(fuel as nat == run_fuel_m(old(parser).text@.len(), old(parser).pos as nat));
            lemma_models2_of(results@);
            assert(models2_of(results@) =~= Seq::<Seq<AtomM>>::empty());
        }
        loop
            invariant
                parser.text@ == old(parser).text@,
                parser.pos <= parser.text@.len(),
                self.tokenizer == old(self).tokenizer,
                self.settings == old(self).settings,
                run_m(
                    old(self).space.model(),
                    old(self).tokenizer.model(),
                    settings_model(old(self).settings@),
                    old(parser).text@,
                    old(parser).pos as nat,
                    Mode::ADD,
                    Seq::empty(),
                    run_fuel_m(old(parser).text@.len(), old(parser).pos as nat),
                ) == run_m(
                    self.space.model(),
                    self.tokenizer.model(),
                    settings_model(self.settings@),
                    parser.text@,
                    parser.pos as nat,
                    mode,
                    models2_of(results@),
                    fuel as nat,
                ),
            decreases fuel,
        {
            let ghost pre_pos = parser.pos as nat;
            let ghost pre_space = self.space.model();
            let ghost pre_acc = models2_of(results@);
            let ghost pre_mode = mode;
            let ghost pre_fuel = fuel as nat;
            match parser.parse(&self.tokenizer) {
                Err(msg) => {
                    return Err(msg);
                },
                Ok(None) => {
                    return Ok(results);
                },
                Ok(Some(atom)) => {
                    if fuel == 0 {
                        return Err(
                            String::from_str("program exceeded the runner's step allowance"),
                        );
                    }
                    fuel = fuel - 1;
                    let excl = Atom::sym("!");
                    if eq_atoms(&atom, &excl) {
                        mode = Mode::INTERPRET;
                    } else {
                        match mode {
                            Mode::ADD => {
                                self.add_atom(atom);
                                mode = Mode::ADD;
                            },
                            Mode::INTERPRET => {
                                match self.evaluate_atom(atom) {
                                    Err(msg) => {
                                        return Err(msg);
                                    },
                                    Ok(vs) => {
                                        let ghost resultsp = results@;
                                        results.push(vs);
                                        proof {
                                            lemma_models2_of_push(resultsp, results@.last());
                                        }
                                    },
                                }
                                mode = Mode::ADD;
                            },
                        }
                    }
                },
            }
        }
    }
}

/// A fresh session over an empty space, with the common token rules
/// registered and the standard library module attached.
pub fn new_metta_rust() -> (r: Metta)
    ensures
        r.space.model() == Seq::<AtomM>::empty(),
        r.tokenizer.model() == common_tokens_m(),
        settings_model(r.settings@) == Seq::<(Seq<char>, Seq<char>)>::empty(),
{
    let mut tokenizer = Tokenizer::new();
    register_common_tokens(&mut tokenizer);
    proof {
        assert(tokenizer.model() =~= common_tokens_m());
    }
    let mut metta = Metta::new(GroundingSpace::new(), tokenizer);
    metta.load_module("stdlib");
    metta
}

// ------------------------------------------------------------------
// Reading whole programs
// ------------------------------------------------------------------

/// The token rules every session knows: a token of digits, with an
/// optional sign, becomes a grounded integer.
pub open spec fn common_tokens_m() -> Seq<(Seq<char>, TokenCtor)> {
    seq![("^[+-]?[0-9]+$"@, TokenCtor::IntValue)]
}

/// Registers the common token rules.
pub fn register_common_tokens(tokenizer: &mut Tokenizer)
    ensures
        final(tokenizer).model() == old(tokenizer).model() + common_tokens_m(),
{
    tokenizer.register_token(String::from_str("^[+-]?[0-9]+$"), TokenCtor::IntValue);
    proof {
        assert(final(tokenizer).model() =~= old(tokenizer).model() + common_tokens_m());
    }
}

/// The atoms of a program text, in order, read with the common token
/// rules; reading stops at a syntax error.
pub open spec fn space_atoms_m(text: Seq<char>, pos: nat, acc: Seq<AtomM>, fuel: nat) -> Seq<AtomM>
    decreases fuel,
{
    match spec_parse(text, common_tokens_m(), pos) {
        ParseAtomM::Found(a, k) => if fuel == 0 {
            acc
        } else {
            space_atoms_m(text, k as nat, acc.push(a), (fuel - 1) as nat)
        },
        _ => acc,
    }
}

/// A space holding the atoms of the given program text, read with the
/// common token rules.
pub fn metta_space(text: &str) -> (r: GroundingSpace)
    ensures
        r.model() == space_atoms_m(
            text@,
            0,
            Seq::empty(),
            run_fuel_m(text@.len(), 0),
        ),
{
    let mut tokenizer = Tokenizer::new();
    register_common_tokens(&mut tokenizer);
    proof {
        assert(tokenizer.model() =~= common_tokens_m());
    }
    let mut parser = SExprParser::new(text);
    let mut space = GroundingSpace::new();
    let n = parser.text.unicode_len();
    let mut fuel: u64 = if (n as u64) <= u64::MAX - 2 {
        (n as u64) + 2
    } else {
        u64::MAX
    };
    proof {
        assert(fuel as nat == run_fuel_m(text@.len(), 0));
    }
    loop
        invariant
            parser.text@ == text@,
            parser.pos <= parser.text@.len(),
            tokenizer.model() == common_tokens_m(),
            space_atoms_m(text@, 0, Seq::empty(), run_fuel_m(text@.len(), 0)) == space_atoms_m(
                text@,
                parser.pos as nat,
                space.model(),
                fuel as nat,
            ),
        decreases fuel,
    {
        match parser.parse(&tokenizer) {
            Ok(Some(atom)) => {
                if fuel == 0 {
                    return space;
                }
                fuel = fuel - 1;
                space.add(atom);
            },
            _ => {
                return space;
            },
        }
    }
}

/// The first atom of the given text, read with the common token rules,
/// if the text holds one.
pub fn metta_atom(text: &str) -> (r: Option<Atom>)
    ensures
        match spec_parse(text@, common_tokens_m(), 0) {
            ParseAtomM::Found(a, _) => r is Some && r->0.model() == a,
            _ => r is None,
        },
{
    let mut tokenizer = Tokenizer::new();
    register_common_tokens(&mut tokenizer);
    proof {
        assert(tokenizer.model() =~= common_tokens_m());
    }
    let mut parser = SExprParser::new(text);
    match parser.parse(&tokenizer) {
        Ok(Some(atom)) => Some(atom),
        _ => None,
    }
}

// ------------------------------------------------------------------
// Setting lookup helpers
// ------------------------------------------------------------------

/// Lookup restricted to the entries at or after position `i`.
pub open spec fn lookup_setting_from(s: Seq<(Seq<char>, Seq<char>)>, key: Seq<char>, i: int) -> Option<
    Seq<char>,
> {
    lookup_setting_m(s.skip(i), key)
}

proof fn lemma_lookup_setting_unfold(s: Seq<(Seq<char>, Seq<char>)>, key: Seq<char>, i: int)
    requires
        0 <= i < s.len(),
    ensures
        lookup_setting_from(s, key, i) == if s[i].0 == key {
            Some(s[i].1)
        } else {
            lookup_setting_from(s, key, i + 1)
        },
{
    assert(s.skip(i).len() > 0);
    assert(s.skip(i)[0] == s[i]);
    assert(s.skip(i).drop_first() =~= s.skip(i + 1));
}

proof fn lemma_lookup_setting_end(s: Seq<(Seq<char>, Seq<char>)>, key: Seq<char>)
    ensures
        lookup_setting_from(s, key, s.len() as int) is None,
{
    assert(s.skip(s.len() as int) =~= Seq::<(Seq<char>, Seq<char>)>::empty());
}

} // verus!
