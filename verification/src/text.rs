//! Surface text: the tokenizer registry and the s-expression parser.
//!
//! The tokenizer is an ordered list of (regular expression, constructor)
//! pairs; the last registered rule takes priority. The parser reads atoms
//! from text: tokens are whitespace-separated, `(` and `)` delimit
//! expressions, `$name` is a variable, `;` starts a comment running to the
//! end of the line, and a bare token is a symbol unless a registered rule
//! matches it.

use vstd::prelude::*;

use crate::atom::{Atom, AtomM, VarM};

verus! {

// ------------------------------------------------------------------
// Regular expressions (outside crate)
// ------------------------------------------------------------------

/// Whether `pattern` is a valid regular expression: what
/// `regex::Regex::new` accepts, a function of the pattern alone.
pub uninterp spec fn regex_ok(pattern: Seq<char>) -> bool;

/// Whether the regular expression `pattern` matches somewhere in `text`:
/// what `regex::Regex::is_match` returns, a function of the pattern and
/// the text alone.
pub uninterp spec fn regex_matches(pattern: Seq<char>, text: Seq<char>) -> bool;

/// Relies on `regex::Regex::new` and `regex::Regex::is_match`: whether the
/// pattern compiles is a function of the pattern, and whether a compiled
/// pattern matches somewhere in the text is a function of the pattern and
/// the text; an invalid pattern matches nothing.
#[verifier::external_body]
fn regex_is_match(pattern: &str, text: &str) -> (r: bool)
    ensures
        r == (regex_ok(pattern@) && regex_matches(pattern@, text@)),
{
    match regex::Regex::new(pattern) {
        Ok(re) => re.is_match(text),
        Err(_) => false,
    }
}

// ------------------------------------------------------------------
// Tokenizer
// ------------------------------------------------------------------

/// A constructor a token rule can invoke. The constructors the core knows
/// form a closed sum: a matching token becomes a grounded integer when its
/// text reads as one, and a plain symbol otherwise.
#[derive(Clone, Copy, Debug, PartialEq, Eq, Structural)]
pub enum TokenCtor {
    IntValue,
}

/// One registered rule: a regular expression and the constructor to run
/// on a matching token.
#[derive(Debug)]
pub struct TokenRule {
    pub pattern: String,
    pub ctor: TokenCtor,
}

/// An ordered sequence of token rules; the last registered takes priority.
#[derive(Debug)]
pub struct Tokenizer {
    pub rules: Vec<TokenRule>,
}

/// The models of the rules, in order.
pub open spec fn rules_model(s: Seq<TokenRule>) -> Seq<(Seq<char>, TokenCtor)>
    decreases s,
{
    if s.len() == 0 {
        Seq::empty()
    } else {
        rules_model(s.drop_last()).push((s.last().pattern@, s.last().ctor))
    }
}

pub proof fn lemma_rules_model(s: Seq<TokenRule>)
    ensures
        rules_model(s).len() == s.len(),
        forall|i: int|
            0 <= i < s.len() ==> #[trigger] rules_model(s)[i] == (s[i].pattern@, s[i].ctor),
    decreases s.len(),
{
    if s.len() > 0 {
        lemma_rules_model(s.drop_last());
    }
}

/// The constructor of the last rule at position below `i` whose pattern
/// matches the token, if any.
pub open spec fn find_rule_m(rules: Seq<(Seq<char>, TokenCtor)>, token: Seq<char>, i: int) -> Option<
    TokenCtor,
>
    decreases i,
{
    if i <= 0 || i > rules.len() {
        None
    } else if regex_ok(rules[i - 1].0) && regex_matches(rules[i - 1].0, token) {
        Some(rules[i - 1].1)
    } else {
        find_rule_m(rules, token, i - 1)
    }
}

/// The constructor the tokenizer assigns to a token, if any: that of the
/// last registered rule whose pattern matches.
pub open spec fn spec_find_token(rules: Seq<(Seq<char>, TokenCtor)>, token: Seq<char>) -> Option<
    TokenCtor,
> {
    find_rule_m(rules, token, rules.len() as int)
}

impl Tokenizer {
    /// The mathematical model: the registered (pattern, constructor)
    /// pairs in order.
    pub open spec fn model(self) -> Seq<(Seq<char>, TokenCtor)> {
        rules_model(self.rules@)
    }

    /// An empty tokenizer.
    pub fn new() -> (r: Tokenizer)
        ensures
            r.model() == Seq::<(Seq<char>, TokenCtor)>::empty(),
    {
        let r = Tokenizer { rules: Vec::new() };
        proof {
            assert(r.rules@.len() == 0);
        }
        r
    }

    /// Registers a rule; the newest rule takes priority over older ones.
    pub fn register_token(&mut self, pattern: String, ctor: TokenCtor)
        ensures
            final(self).model() == old(self).model().push((pattern@, ctor)),
    {
        let ghost before = self.rules@;
        self.rules.push(TokenRule { pattern, ctor });
        proof {
            assert(self.rules@.drop_last() =~= before);
        }
    }

    /// The constructor of the last registered rule whose pattern matches
    /// the token, if any.
    pub fn find_token(&self, token: &str) -> (r: Option<TokenCtor>)
        ensures
            r == spec_find_token(self.model(), token@),
    {
        proof {
            lemma_rules_model(self.rules@);
        }
        let n = self.rules.len();
        let mut i: usize = n;
        while i > 0
            invariant
                n == self.rules@.len(),
                i <= n,
                spec_find_token(self.model(), token@) == find_rule_m(self.model(), token@, i as int),
            decreases i,
        {
            proof {
                lemma_rules_model(self.rules@);
            }
            let rule = &self.rules[i - 1];
            if regex_is_match(rule.pattern.as_str(), token) {
                return Some(rule.ctor);
            }
            i = i - 1;
        }
        None
    }
}

impl Clone for Tokenizer {
    fn clone(&self) -> (r: Tokenizer)
        ensures
            r.model() == self.model(),
    {
        let n = self.rules.len();
        let mut rules: Vec<TokenRule> = Vec::new();
        let mut i: usize = 0;
        while i < n
            invariant
                n == self.rules@.len(),
                i <= n,
                rules@.len() == i,
                forall|j: int|
                    0 <= j < i ==> (#[trigger] rules@[j]).pattern@ == self.rules@[j].pattern@
                        && rules@[j].ctor == self.rules@[j].ctor,
            decreases n - i,
        {
            let rule = &self.rules[i];
            rules.push(TokenRule { pattern: rule.pattern.clone(), ctor: rule.ctor });
            i = i + 1;
        }
        proof {
            lemma_rules_model(rules@);
            lemma_rules_model(self.rules@);
            assert(rules_model(rules@) =~= rules_model(self.rules@));
        }
        Tokenizer { rules }
    }
}

// ------------------------------------------------------------------
// Reading integers
// ------------------------------------------------------------------

/// Whether `c` is a decimal digit.
pub open spec fn is_digit_m(c: char) -> bool {
    '0' <= c && c <= '9'
}

/// The value of a decimal digit.
pub open spec fn digit_val_m(c: char) -> int {
    c as int - '0' as int
}

/// Whether every character of `s` is a decimal digit.
pub open spec fn all_digits_m(s: Seq<char>) -> bool {
    forall|i: int| 0 <= i < s.len() ==> is_digit_m(s[i])
}

/// The value of a sequence of decimal digits.
pub open spec fn digits_val_m(s: Seq<char>) -> int
    decreases s.len(),
{
    if s.len() == 0 {
        0
    } else {
        digits_val_m(s.drop_last()) * 10 + digit_val_m(s.last())
    }
}

/// The integer a token reads as: an optional minus sign, then at least
/// one decimal digit, valuing within the signed 64-bit range.
pub open spec fn parse_int_m(s: Seq<char>) -> Option<int> {
    let neg = s.len() > 0 && s[0] == '-';
    let ds = if neg {
        s.drop_first()
    } else {
        s
    };
    if ds.len() == 0 || !all_digits_m(ds) {
        None
    } else {
        let v = if neg {
            -digits_val_m(ds)
        } else {
            digits_val_m(ds)
        };
        if i64::MIN <= v <= i64::MAX {
            Some(v)
        } else {
            None
        }
    }
}

/// A digit value never shrinks the running total.
proof fn lemma_digits_val_nonneg(s: Seq<char>)
    requires
        all_digits_m(s),
    ensures
        digits_val_m(s) >= 0,
    decreases s.len(),
{
    if s.len() > 0 {
        assert(all_digits_m(s.drop_last())) by {
            assert(forall|i: int| 0 <= i < s.len() - 1 ==> s.drop_last()[i] == s[i]);
        }
        lemma_digits_val_nonneg(s.drop_last());
    }
}

/// Reads a token as a signed 64-bit integer, if it is one.
pub fn parse_i64(token: &str) -> (r: Option<i64>)
    ensures
        match r {
            Some(v) => parse_int_m(token@) == Some(v as int),
            None => parse_int_m(token@) is None,
        },
{
    let n = token.unicode_len();
    if n == 0 {
        return None;
    }
    let first = token.get_char(0);
    let neg = first == '-';
    let start: usize = if neg {
        1
    } else {
        0
    };
    let ghost ds = if neg {
        token@.drop_first()
    } else {
        token@
    };
    if n == start {
        proof {
            assert(ds.len() == 0);
        }
        return None;
    }
    let mut acc: u64 = 0;
    let mut too_big = false;
    let mut i: usize = start;
    proof {
        assert(ds.len() == n - start);
        assert(ds =~= token@.skip(start as int));
        assert(digits_val_m(ds.take(0int)) == 0);
    }
    while i < n
        invariant
            n == token@.len(),
            start <= i <= n,
            start <= 1,
            neg == (token@.len() > 0 && token@[0] == '-'),
            (start == 1) == neg,
            ds == token@.skip(start as int),
            ds.len() == n - start,
            all_digits_m(ds.take(i - start)),
            !too_big ==> acc as int == digits_val_m(ds.take(i - start)),
            !too_big ==> acc <= 0x8000000000000000u64,
            too_big ==> digits_val_m(ds.take(i - start)) > 0x8000000000000000u64,
        decreases n - i,
    {
        let c = token.get_char(i);
        if !('0' <= c && c <= '9') {
            proof {
                assert(ds[i - start] == c);
                assert(!all_digits_m(ds)) by {
                    assert(!is_digit_m(ds[i - start]));
                }
            }
            return None;
        }
        let d: u64 = (c as u64) - 48;
        proof {
            assert(ds.take(i - start + 1).drop_last() =~= ds.take(i - start));
            assert(ds.take(i - start + 1).last() == ds[i - start]);
            assert(ds[i - start] == c);
            assert(digit_val_m(c) == d as int);
            lemma_digits_val_nonneg(ds.take(i - start));
        }
        if too_big {
            proof {
                assert(digits_val_m(ds.take(i - start + 1)) > 0x8000000000000000u64) by {
                    assert(digits_val_m(ds.take(i - start)) > 0x8000000000000000u64);
                    assert(digits_val_m(ds.take(i - start + 1)) == digits_val_m(
                        ds.take(i - start),
                    ) * 10 + digit_val_m(c));
                }
            }
        } else {
            if acc > 0xCCCCCCCCCCCCCCCu64 || acc * 10 > u64::MAX - d || acc * 10 + d
                > 0x8000000000000000u64 {
                proof {
                    assert(digits_val_m(ds.take(i - start + 1)) == acc as int * 10 + d as int);
                }
                too_big = true;
            } else {
                acc = acc * 10 + d;
            }
        }
        i = i + 1;
    }
    proof {
        assert(ds.take(n - start) =~= ds);
        assert(all_digits_m(ds));
    }
    if too_big {
        proof {
            assert(parse_int_m(token@) is None);
        }
        return None;
    }
    if neg {
        if acc == 0x8000000000000000u64 {
            proof {
                assert(-(acc as int) == i64::MIN);
            }
            return Some(i64::MIN);
        }
        let v: i64 = -((acc) as i64);
        return Some(v);
    }
    if acc == 0x8000000000000000u64 {
        return None;
    }
    Some(acc as i64)
}

// ------------------------------------------------------------------
// The s-expression parser
// ------------------------------------------------------------------

/// Whether `c` is whitespace.
pub open spec fn is_ws_m(c: char) -> bool {
    c == ' ' || c == '\t' || c == '\n' || c == '\r'
}

/// Whether `c` ends a bare token.
pub open spec fn is_break_m(c: char) -> bool {
    is_ws_m(c) || c == '(' || c == ')'
}

/// The position just after the current line: past the next newline, or
/// the end of the text.
pub open spec fn line_end_m(s: Seq<char>, i: int) -> int
    decreases s.len() - i,
{
    if i < 0 || i >= s.len() {
        s.len() as int
    } else if s[i] == '\n' {
        i + 1
    } else {
        line_end_m(s, i + 1)
    }
}

proof fn lemma_line_end_bounds(s: Seq<char>, i: int)
    requires
        0 <= i <= s.len(),
    ensures
        i <= line_end_m(s, i) <= s.len(),
    decreases s.len() - i,
{
    if i < s.len() && s[i] != '\n' {
        lemma_line_end_bounds(s, i + 1);
    }
}

/// The first position at or after `i` that holds neither whitespace nor a
/// comment.
pub open spec fn skip_ws_m(s: Seq<char>, i: int) -> int
    decreases s.len() - i, 1nat,
    via skip_ws_m_decreases
{
    if i < 0 || i >= s.len() {
        s.len() as int
    } else if is_ws_m(s[i]) {
        skip_ws_m(s, i + 1)
    } else if s[i] == ';' {
        skip_ws_m(s, line_end_m(s, i + 1))
    } else {
        i
    }
}

#[via_fn]
proof fn skip_ws_m_decreases(s: Seq<char>, i: int) {
    if 0 <= i < s.len() && !is_ws_m(s[i]) && s[i] == ';' {
        lemma_line_end_bounds(s, i + 1);
    }
}

proof fn lemma_skip_ws_bounds(s: Seq<char>, i: int)
    requires
        0 <= i <= s.len(),
    ensures
        i <= skip_ws_m(s, i) <= s.len(),
    decreases s.len() - i, 1nat,
{
    if i < s.len() {
        if is_ws_m(s[i]) {
            lemma_skip_ws_bounds(s, i + 1);
        } else if s[i] == ';' {
            lemma_line_end_bounds(s, i + 1);
            if line_end_m(s, i + 1) > i {
                lemma_skip_ws_bounds(s, line_end_m(s, i + 1));
            }
        }
    }
}

/// The first position at or after `i` that ends a bare token.
pub open spec fn word_end_m(s: Seq<char>, i: int) -> int
    decreases s.len() - i,
{
    if i < 0 || i >= s.len() {
        s.len() as int
    } else if is_break_m(s[i]) {
        i
    } else {
        word_end_m(s, i + 1)
    }
}

proof fn lemma_word_end_bounds(s: Seq<char>, i: int)
    requires
        0 <= i <= s.len(),
    ensures
        i <= word_end_m(s, i) <= s.len(),
    decreases s.len() - i,
{
    if i < s.len() && !is_break_m(s[i]) {
        lemma_word_end_bounds(s, i + 1);
    }
}

/// The atom a bare token stands for: what the constructor of the matching
/// tokenizer rule builds, or a plain symbol. A token matched by the
/// integer constructor that does not read as an integer stays a symbol.
pub open spec fn token_atom_m(toks: Seq<(Seq<char>, TokenCtor)>, w: Seq<char>) -> AtomM {
    match spec_find_token(toks, w) {
        Some(TokenCtor::IntValue) => match parse_int_m(w) {
            Some(v) => AtomM::Gnd { g: crate::atom::GndM::Int { value: v } },
            None => AtomM::Sym { name: w },
        },
        None => AtomM::Sym { name: w },
    }
}

/// The result of reading one atom: the atom and the next position, the
/// end of the input, or a syntax error.
pub enum ParseAtomM {
    Found(AtomM, int),
    End(int),
    Fail,
}

/// The result of reading an expression's children up to the closing
/// parenthesis.
pub enum ParseListM {
    FoundL(Seq<AtomM>, int),
    FailL,
}

/// Reads one atom starting at `i`: skips whitespace and comments, then
/// reads an expression at `(`, a variable at `$`, and a bare token
/// otherwise; a stray `)` is a syntax error, as is input nested deeper
/// than `fuel` allows.
pub open spec fn parse_atom_m(s: Seq<char>, toks: Seq<(Seq<char>, TokenCtor)>, i: int, fuel: nat) -> ParseAtomM
    decreases fuel,
{
    if fuel == 0 {
        ParseAtomM::Fail
    } else {
        let j = skip_ws_m(s, i);
        if j >= s.len() {
            ParseAtomM::End(j)
        } else if s[j] == ')' {
            ParseAtomM::Fail
        } else if s[j] == '(' {
            match parse_list_m(s, toks, j + 1, (fuel - 1) as nat) {
                ParseListM::FoundL(cs, k) => ParseAtomM::Found(AtomM::Expr { children: cs }, k),
                ParseListM::FailL => ParseAtomM::Fail,
            }
        } else if s[j] == '$' {
            let e = word_end_m(s, j + 1);
            ParseAtomM::Found(
                AtomM::Var { v: VarM { name: s.subrange(j + 1, e), id: 0 } },
                e,
            )
        } else {
            let e = word_end_m(s, j);
            ParseAtomM::Found(token_atom_m(toks, s.subrange(j, e)), e)
        }
    }
}

/// Reads an expression's children up to the closing parenthesis; running
/// out of input first is a syntax error.
pub open spec fn parse_list_m(s: Seq<char>, toks: Seq<(Seq<char>, TokenCtor)>, i: int, fuel: nat) -> ParseListM
    decreases fuel,
{
    if fuel == 0 {
        ParseListM::FailL
    } else {
        let j = skip_ws_m(s, i);
        if j >= s.len() {
            ParseListM::FailL
        } else if s[j] == ')' {
            ParseListM::FoundL(Seq::empty(), j + 1)
        } else {
            match parse_atom_m(s, toks, j, (fuel - 1) as nat) {
                ParseAtomM::Found(a, k) => match parse_list_m(s, toks, k, (fuel - 1) as nat) {
                    ParseListM::FoundL(cs, e) => ParseListM::FoundL(seq![a] + cs, e),
                    ParseListM::FailL => ParseListM::FailL,
                },
                _ => ParseListM::FailL,
            }
        }
    }
}

/// The recursion allowance for a parse starting at `pos`: ample for any
/// input whose nesting the machine could hold.
pub open spec fn parse_fuel_m(len: nat, pos: nat) -> nat {
    if pos <= len && 2 * (len - pos) + 4 <= u64::MAX {
        (2 * (len - pos) + 4) as nat
    } else {
        u64::MAX as nat
    }
}

/// The result of reading one atom at `pos`.
pub open spec fn spec_parse(s: Seq<char>, toks: Seq<(Seq<char>, TokenCtor)>, pos: nat) -> ParseAtomM {
    parse_atom_m(s, toks, pos as int, parse_fuel_m(s.len(), pos))
}

/// One atom read from the text, or the end of the input, or a syntax
/// error message.
enum ParseOut {
    Found(Atom, usize),
    End(usize),
    Fail,
}

/// Skips whitespace and comments starting at `i`.
fn skip_ws_x(text: &str, n: usize, i: usize) -> (r: usize)
    requires
        n == text@.len(),
        i <= n,
    ensures
        r == skip_ws_m(text@, i as int),
        i <= r <= n,
{
    let mut cur = i;
    while cur < n
        invariant
            n == text@.len(),
            i <= cur <= n,
            skip_ws_m(text@, i as int) == skip_ws_m(text@, cur as int),
        decreases n - cur,
    {
        let c = text.get_char(cur);
        if c == ' ' || c == '\t' || c == '\n' || c == '\r' {
            cur = cur + 1;
        } else if c == ';' {
            let mut k = cur + 1;
            while k < n && text.get_char(k) != '\n'
                invariant
                    n == text@.len(),
                    cur + 1 <= k <= n,
                    line_end_m(text@, cur + 1) == line_end_m(text@, k as int),
                decreases n - k,
            {
                k = k + 1;
            }
            if k < n {
                proof {
                    assert(line_end_m(text@, k as int) == k + 1);
                }
                cur = k + 1;
            } else {
                proof {
                    assert(line_end_m(text@, k as int) == n);
                }
                cur = k;
            }
        } else {
            proof {
                lemma_skip_ws_bounds(text@, i as int);
            }
            return cur;
        }
    }
    proof {
        lemma_skip_ws_bounds(text@, i as int);
    }
    cur
}

/// Finds the end of the bare token starting at `i`.
fn word_end_x(text: &str, n: usize, i: usize) -> (r: usize)
    requires
        n == text@.len(),
        i <= n,
    ensures
        r == word_end_m(text@, i as int),
        i <= r <= n,
{
    let mut cur = i;
    while cur < n
        invariant
            n == text@.len(),
            i <= cur <= n,
            word_end_m(text@, i as int) == word_end_m(text@, cur as int),
        decreases n - cur,
    {
        let c = text.get_char(cur);
        if c == ' ' || c == '\t' || c == '\n' || c == '\r' || c == '(' || c == ')' {
            proof {
                lemma_word_end_bounds(text@, i as int);
            }
            return cur;
        }
        cur = cur + 1;
    }
    proof {
        lemma_word_end_bounds(text@, i as int);
    }
    cur
}

/// Copies `text[from..to]` into an owned string.
fn substring_x(text: &str, from: usize, to: usize) -> (r: String)
    requires
        from <= to <= text@.len(),
    ensures
        r@ == text@.subrange(from as int, to as int),
{
    text.substring_char(from, to).to_owned()
}

/// The atom a bare token stands for, by the tokenizer's rules.
fn token_atom_x(tokenizer: &Tokenizer, w: String) -> (r: Atom)
    ensures
        r.model() == token_atom_m(tokenizer.model(), w@),
{
    match tokenizer.find_token(w.as_str()) {
        Some(TokenCtor::IntValue) => match parse_i64(w.as_str()) {
            Some(v) => Atom::value(v),
            None => Atom::Symbol(w),
        },
        None => Atom::Symbol(w),
    }
}

/// Reads one atom starting at `pos`.
fn parse_atom_x(text: &str, tokenizer: &Tokenizer, pos: usize, fuel: u64) -> (r: ParseOut)
    requires
        pos <= text@.len(),
    ensures
        match r {
            ParseOut::Found(a, k) => parse_atom_m(text@, tokenizer.model(), pos as int, fuel as nat)
                == ParseAtomM::Found(a.model(), k as int) && k <= text@.len(),
            ParseOut::End(k) => parse_atom_m(text@, tokenizer.model(), pos as int, fuel as nat)
                == ParseAtomM::End(k as int) && k <= text@.len(),
            ParseOut::Fail => parse_atom_m(text@, tokenizer.model(), pos as int, fuel as nat)
                == ParseAtomM::Fail,
        },
    decreases fuel,
{
    if fuel == 0 {
        return ParseOut::Fail;
    }
    let n = text.unicode_len();
    let j = skip_ws_x(text, n, pos);
    if j >= n {
        return ParseOut::End(j);
    }
    let c = text.get_char(j);
    if c == ')' {
        return ParseOut::Fail;
    }
    if c == '(' {
        match parse_list_x(text, tokenizer, j + 1, fuel - 1) {
            ParseListOut::FoundL(cs, k) => {
                proof {
                    crate::atom::lemma_models_of(cs@);
                }
                ParseOut::Found(Atom::expr(cs), k)
            },
            ParseListOut::FailL => ParseOut::Fail,
        }
    } else if c == '$' {
        let e = word_end_x(text, n, j + 1);
        let name = substring_x(text, j + 1, e);
        ParseOut::Found(Atom::Variable(crate::atom::VariableAtom { name, id: 0 }), e)
    } else {
        let e = word_end_x(text, n, j);
        let w = substring_x(text, j, e);
        ParseOut::Found(token_atom_x(tokenizer, w), e)
    }
}

/// The children read up to the closing parenthesis, or a syntax error.
enum ParseListOut {
    FoundL(Vec<Atom>, usize),
    FailL,
}

/// Reads an expression's children up to the closing parenthesis.
fn parse_list_x(text: &str, tokenizer: &Tokenizer, pos: usize, fuel: u64) -> (r: ParseListOut)
    requires
        pos <= text@.len(),
    ensures
        match r {
            ParseListOut::FoundL(cs, k) => parse_list_m(
                text@,
                tokenizer.model(),
                pos as int,
                fuel as nat,
            ) == ParseListM::FoundL(crate::atom::models_of(cs@), k as int) && k <= text@.len(),
            ParseListOut::FailL => parse_list_m(text@, tokenizer.model(), pos as int, fuel as nat)
                == ParseListM::FailL,
        },
    decreases fuel,
{
    if fuel == 0 {
        return ParseListOut::FailL;
    }
    let n = text.unicode_len();
    let j = skip_ws_x(text, n, pos);
    if j >= n {
        return ParseListOut::FailL;
    }
    let c = text.get_char(j);
    if c == ')' {
        let cs: Vec<Atom> = Vec::new();
        proof {
            assert(crate::atom::models_of(cs@) =~= Seq::<AtomM>::empty());
        }
        return ParseListOut::FoundL(cs, j + 1);
    }
    match parse_atom_x(text, tokenizer, j, fuel - 1) {
        ParseOut::Found(a, k) => {
            match parse_list_x(text, tokenizer, k, fuel - 1) {
                ParseListOut::FoundL(rest, e) => {
                    let mut cs: Vec<Atom> = Vec::new();
                    cs.push(a);
                    let r_n = rest.len();
                    let mut q: usize = 0;
                    proof {
                        crate::atom::lemma_models_of(rest@);
                        crate::atom::lemma_models_of(cs@);
                    }
                    while q < r_n
                        invariant
                            r_n == rest@.len(),
                            q <= r_n,
                            cs@.len() == q + 1,
                            cs@[0].model() == a.model(),
                            forall|t: int|
                                0 <= t < q ==> cs@[t + 1].model() == crate::atom::models_of(
                                    rest@,
                                )[t],
                        decreases r_n - q,
                    {
                        proof {
                            crate::atom::lemma_models_of(rest@);
                        }
                        let cc = crate::atom::clone_atom(&rest[q]);
                        cs.push(cc);
                        q = q + 1;
                    }
                    proof {
                        crate::atom::lemma_models_of(cs@);
                        crate::atom::lemma_models_of(rest@);
                        assert(crate::atom::models_of(cs@) =~= seq![a.model()]
                            + crate::atom::models_of(rest@));
                    }
                    ParseListOut::FoundL(cs, e)
                },
                ParseListOut::FailL => ParseListOut::FailL,
            }
        },
        ParseOut::End(_) => ParseListOut::FailL,
        ParseOut::Fail => ParseListOut::FailL,
    }
}

/// A parser reading atoms from a text, one at a time.
#[derive(Debug)]
pub struct SExprParser {
    pub text: String,
    pub pos: usize,
}

impl SExprParser {
    /// A parser over the given text, at its start.
    pub fn new(text: &str) -> (r: SExprParser)
        ensures
            r.text@ == text@,
            r.pos == 0,
    {
        SExprParser { text: text.to_owned(), pos: 0 }
    }

    /// Reads the next atom. `Ok(None)` is the end of the input; a stray
    /// closing parenthesis, an unclosed expression, or input nested
    /// beyond the machine's allowance is a syntax error.
    pub fn parse(&mut self, tokenizer: &Tokenizer) -> (r: Result<Option<Atom>, String>)
        requires
            old(self).pos <= old(self).text@.len(),
        ensures
            final(self).text@ == old(self).text@,
            final(self).pos <= final(self).text@.len(),
            match spec_parse(old(self).text@, tokenizer.model(), old(self).pos as nat) {
                ParseAtomM::Found(a, k) => r is Ok && r->Ok_0 is Some && r->Ok_0->0.model() == a
                    && final(self).pos == k,
                ParseAtomM::End(k) => r is Ok && r->Ok_0 is None && final(self).pos == k,
                ParseAtomM::Fail => r is Err && final(self).pos == old(self).pos,
            },
    {
        let n = self.text.unicode_len();
        let remaining = n - self.pos;
        let fuel: u64 = if (remaining as u64) <= (u64::MAX - 4) / 2 {
            2 * (remaining as u64) + 4
        } else {
            u64::MAX
        };
        proof {
            assert(fuel as nat == parse_fuel_m(self.text@.len(), self.pos as nat));
        }
        match parse_atom_x(self.text.as_str(), tokenizer, self.pos, fuel) {
            ParseOut::Found(a, k) => {
                self.pos = k;
                Ok(Some(a))
            },
            ParseOut::End(k) => {
                self.pos = k;
                Ok(None)
            },
            ParseOut::Fail => Err(String::from_str("syntax error in expression text")),
        }
    }
}

} // verus!
