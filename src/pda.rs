//! Pushdown automata: the machine, its transition lookup, the builder from a
//! description, and the step-wise runtime.
use vstd::prelude::*;
use std::collections::VecDeque;
use crate::decl::{
    atom_decl, atom_of, check_states, check_symbols, decl, decl_diff, declared_mismatch, entry, items_decl,
    items_of, states_ok, symbol_ok, symbols_of, symbols_ok, SymbolError,
};
use crate::parse::{is_state_char, parse, spec_parse, ConfigView, Position};
use crate::text::{chars_of, contains_char, contains_str, copy_strings, name1, name2, str_set, subset_str};

verus! {

pub type State = String;
pub type InputSymbol = char;
pub type StackSymbol = char;
/// (state, input symbol or none for an epsilon move, stack top)
pub type TransL = (State, Option<InputSymbol>, StackSymbol);
/// (next state, symbols pushed; the first ends on top)
pub type TransR = (State, Vec<StackSymbol>);
pub type Trans = (TransL, TransR);

/// The written form of the absent input symbol and of the empty push.
pub const EPSILON: char = '_';

pub open spec fn key_view(k: TransL) -> (Seq<char>, Option<char>, char) {
    (k.0@, k.1, k.2)
}

pub open spec fn value_view(v: TransR) -> (Seq<char>, Seq<char>) {
    (v.0@, v.1@)
}

/// The transition function the rules denote; a later rule for the same key
/// overrides an earlier one.
pub open spec fn delta_map(d: Seq<Trans>) -> Map<(Seq<char>, Option<char>, char), (Seq<char>, Seq<char>)>
    decreases d.len(),
{
    if d.len() == 0 {
        Map::empty()
    } else {
        delta_map(d.drop_last()).insert(key_view(d.last().0), value_view(d.last().1))
    }
}

#[derive(Debug)]
pub struct PushDownAutomata {
    q: Vec<State>,
    s: Vec<InputSymbol>,
    g: Vec<StackSymbol>,
    q0: State,
    z0: StackSymbol,
    f: Vec<State>,
    delta: Vec<Trans>,
}

proof fn lemma_delta_dom(d: Seq<Trans>, k: (Seq<char>, Option<char>, char))
    ensures
        delta_map(d).contains_key(k) <==> exists|i: int| 0 <= i < d.len() && key_view(#[trigger] d[i].0) == k,
    decreases d.len(),
{
    if d.len() > 0 {
        let p = d.drop_last();
        lemma_delta_dom(p, k);
        if exists|i: int| 0 <= i < p.len() && key_view(#[trigger] p[i].0) == k {
            let i = choose|i: int| 0 <= i < p.len() && key_view(#[trigger] p[i].0) == k;
            assert(d[i] == p[i]);
        }
        if exists|i: int| 0 <= i < d.len() && key_view(#[trigger] d[i].0) == k {
            let i = choose|i: int| 0 <= i < d.len() && key_view(#[trigger] d[i].0) == k;
            if i < d.len() - 1 {
                assert(d[i] == p[i]);
            }
        }
    }
}

proof fn lemma_delta_last(d: Seq<Trans>, k: (Seq<char>, Option<char>, char), i: int)
    requires
        0 <= i < d.len(),
        key_view(d[i].0) == k,
        forall|j: int| i < j < d.len() ==> key_view(#[trigger] d[j].0) != k,
    ensures
        delta_map(d).contains_key(k),
        delta_map(d)[k] == value_view(d[i].1),
    decreases d.len(),
{
    if i < d.len() - 1 {
        let p = d.drop_last();
        assert(key_view(d[d.len() - 1].0) != k);
        assert(p[i] == d[i]);
        assert forall|j: int| i < j < p.len() implies key_view(#[trigger] p[j].0) != k by {
            assert(p[j] == d[j]);
        }
        lemma_delta_last(p, k, i);
    }
}

fn same_input(a: Option<char>, b: Option<char>) -> (r: bool)
    ensures
        r == (a == b),
{
    match (a, b) {
        (None, None) => true,
        (Some(x), Some(y)) => x == y,
        _ => false,
    }
}

impl PushDownAutomata {
    pub closed spec fn spec_q(&self) -> Set<Seq<char>> {
        str_set(self.q@)
    }

    pub closed spec fn spec_s(&self) -> Set<char> {
        self.s@.to_set()
    }

    pub closed spec fn spec_g(&self) -> Set<char> {
        self.g@.to_set()
    }

    pub closed spec fn spec_q0(&self) -> Seq<char> {
        self.q0@
    }

    pub closed spec fn spec_z0(&self) -> char {
        self.z0
    }

    pub closed spec fn spec_f(&self) -> Set<Seq<char>> {
        str_set(self.f@)
    }

    pub closed spec fn spec_rules(&self) -> Seq<Trans> {
        self.delta@
    }

    pub open spec fn spec_delta(&self) -> Map<(Seq<char>, Option<char>, char), (Seq<char>, Seq<char>)> {
        delta_map(self.spec_rules())
    }

    /// The move for state `q`, input head `a` and stack top `x`: a move on
    /// `a` when there is one, else an epsilon move, else none.
    pub open spec fn spec_get(&self, q: Seq<char>, a: Option<char>, x: char) -> Option<
        (Option<char>, (Seq<char>, Seq<char>)),
    > {
        if self.spec_delta().contains_key((q, a, x)) {
            Some((a, self.spec_delta()[(q, a, x)]))
        } else if self.spec_delta().contains_key((q, None, x)) {
            Some((None, self.spec_delta()[(q, None, x)]))
        } else {
            None
        }
    }

    /// A rule's parts are declared: states in `Q`, its input symbol in `S`,
    /// its stack symbols in `G`.
    pub open spec fn rule_wf(&self, t: Trans) -> bool {
        &&& self.spec_q().contains(t.0.0@)
        &&& self.spec_q().contains(t.1.0@)
        &&& (t.0.1 matches Some(a) ==> self.spec_s().contains(a))
        &&& self.spec_g().contains(t.0.2)
        &&& forall|j: int| 0 <= j < t.1.1@.len() ==> self.spec_g().contains(#[trigger] t.1.1@[j])
    }

    /// The machine satisfies the 7-tuple's invariants.
    pub open spec fn wf(&self) -> bool {
        &&& self.spec_q().contains(self.spec_q0())
        &&& self.spec_g().contains(self.spec_z0())
        &&& self.spec_f().subset_of(self.spec_q())
        &&& !self.spec_s().contains(EPSILON)
        &&& !self.spec_g().contains(EPSILON)
        &&& forall|k: int| 0 <= k < self.spec_rules().len() ==> self.rule_wf(#[trigger] self.spec_rules()[k])
    }

    /// The index of the first position of `s` that is not an input symbol,
    /// if any.
    pub fn input_valid(&self, s: &str) -> (r: Result<(), usize>)
        ensures
            r is Ok <==> (forall|i: int| 0 <= i < s@.len() ==> self.spec_s().contains(#[trigger] s@[i])),
            r matches Err(i) ==> i < s@.len() && !self.spec_s().contains(s@[i as int])
                && forall|j: int| 0 <= j < i ==> self.spec_s().contains(#[trigger] s@[j]),
    {
        let chars = chars_of(s);
        let mut i: usize = 0;
        while i < chars.len()
            invariant
                chars@ == s@,
                i <= chars.len(),
                forall|j: int| 0 <= j < i ==> self.spec_s().contains(#[trigger] s@[j]),
            decreases chars.len() - i,
        {
            if !contains_char(&self.s, chars[i]) {
                return Err(i);
            }
            i = i + 1;
        }
        Ok(())
    }

    #[allow(non_snake_case)]
    pub fn Q(&self) -> (r: &Vec<State>)
        ensures
            str_set(r@) == self.spec_q(),
    {
        &self.q
    }

    #[allow(non_snake_case)]
    pub fn S(&self) -> (r: &Vec<InputSymbol>)
        ensures
            r@.to_set() == self.spec_s(),
    {
        &self.s
    }

    #[allow(non_snake_case)]
    pub fn G(&self) -> (r: &Vec<StackSymbol>)
        ensures
            r@.to_set() == self.spec_g(),
    {
        &self.g
    }

    pub fn q0(&self) -> (r: State)
        ensures
            r@ == self.spec_q0(),
    {
        self.q0.clone()
    }

    pub fn z0(&self) -> (r: StackSymbol)
        ensures
            r == self.spec_z0(),
    {
        self.z0
    }

    #[allow(non_snake_case)]
    pub fn F(&self) -> (r: &Vec<State>)
        ensures
            str_set(r@) == self.spec_f(),
    {
        &self.f
    }

    pub fn delta(&self) -> (r: &Vec<Trans>)
        ensures
            r@ == self.spec_rules(),
    {
        &self.delta
    }

    /// The index of the rule for exactly this key, if any.
    fn find(&self, q: &State, a: Option<InputSymbol>, x: StackSymbol) -> (r: Option<usize>)
        ensures
            match r {
                None => !self.spec_delta().contains_key((q@, a, x)),
                Some(i) => i < self.spec_rules().len() && self.spec_delta().contains_key((q@, a, x))
                    && self.spec_delta()[(q@, a, x)] == value_view(self.spec_rules()[i as int].1),
            },
    {
        proof {
            lemma_delta_dom(self.delta@, (q@, a, x));
        }
        let mut i: usize = self.delta.len();
        while i > 0
            invariant
                i <= self.delta@.len(),
                forall|j: int| i <= j < self.delta@.len() ==> key_view(#[trigger] self.delta@[j].0) != (q@, a, x),
            decreases i,
        {
            let k = &self.delta[i - 1].0;
            if k.0 == *q && same_input(k.1, a) && k.2 == x {
                proof {
                    lemma_delta_last(self.delta@, (q@, a, x), i - 1);
                }
                return Some(i - 1);
            }
            i = i - 1;
        }
        None
    }

    /// The move for state `q`, input head `a` and stack top `x`, with the
    /// input symbol it consumes (none for an epsilon move). A move on `a` is
    /// preferred to an epsilon move.
    #[allow(non_snake_case)]
    pub fn get<'a>(&'a self, q: &State, a: Option<InputSymbol>, X: StackSymbol) -> (r: Option<
        (Option<InputSymbol>, &'a (State, Vec<StackSymbol>)),
    >)
        ensures
            match r {
                None => self.spec_get(q@, a, X) is None,
                Some((used, t)) => self.spec_get(q@, a, X) == Some((used, value_view(*t))),
            },
            self.spec_delta().contains_key((q@, a, X)) ==> (r matches Some((used, t)) && used == a
                && value_view(*t) == self.spec_delta()[(q@, a, X)]),
    {
        match self.find(q, a, X) {
            Some(i) => {
                return Some((a, &self.delta[i].1));
            },
            None => {},
        }
        match self.find(q, None, X) {
            Some(i) => Some((None, &self.delta[i].1)),
            None => None,
        }
    }
}

#[allow(non_camel_case_types)]
#[derive(Debug, Clone)]
pub enum SpecError {
    /// The declared names differ from the expected ones by these.
    DeclItem(Vec<String>),
    /// A declaration has the wrong shape (set or atom).
    Type(String),
    QChar(State, char),
    SChar(char),
    GChar(char),
    MultiCharSymbol(String),
    q0NotInQ,
    z0NotInG,
    TLen(Vec<String>),
    TInvalidState(String),
    TInvalidSymbol(char),
    FNotSubsetQ,
}

#[derive(Debug, Clone)]
pub enum ParseError {
    Syntax(crate::parse::ParseError),
    Spec(SpecError),
}

/// The names a pushdown automaton description declares.
pub open spec fn pda_names() -> Set<Seq<char>> {
    set![seq!['Q'], seq!['S'], seq!['G'], seq!['q', '0'], seq!['z', '0'], seq!['F']]
}

/// The declarations are those expected, each of the right shape, and they
/// agree with one another.
pub open spec fn pda_decls_ok(c: ConfigView) -> bool {
    let q = items_of(decl(c, seq!['Q']));
    let s = items_of(decl(c, seq!['S']));
    let g = items_of(decl(c, seq!['G']));
    let q0 = atom_of(decl(c, seq!['q', '0']));
    let z0 = atom_of(decl(c, seq!['z', '0']));
    let f = items_of(decl(c, seq!['F']));
    &&& c.store.dom() == pda_names()
    &&& decl(c, seq!['Q']) is Items && states_ok(q)
    &&& decl(c, seq!['S']) is Items && symbols_ok(s, false)
    &&& decl(c, seq!['G']) is Items && symbols_ok(g, false)
    &&& decl(c, seq!['q', '0']) is Str
    &&& decl(c, seq!['z', '0']) is Str && z0.len() == 1
    &&& decl(c, seq!['F']) is Items && states_ok(f)
    &&& q.contains(q0)
    &&& symbols_of(g).contains(z0[0])
    &&& f.subset_of(q)
}

/// The input symbol a token names; `_` names none.
pub open spec fn input_of(tok: Seq<char>) -> Option<char> {
    if tok[0] == EPSILON {
        None
    } else {
        Some(tok[0])
    }
}

/// The symbols a token pushes; `_` pushes none.
pub open spec fn push_of(tok: Seq<char>) -> Seq<char> {
    if tok == seq![EPSILON] {
        Seq::empty()
    } else {
        tok
    }
}

/// A transition's tokens `q a X p beta` fit the declarations.
pub open spec fn pda_trans_ok(t: Seq<Seq<char>>, q: Set<Seq<char>>, s: Set<char>, g: Set<char>) -> bool {
    &&& t.len() == 5
    &&& q.contains(t[0]) && q.contains(t[3])
    &&& t[1].len() == 1 && t[2].len() == 1
    &&& (t[1][0] == EPSILON || s.contains(t[1][0]))
    &&& t[2][0] != EPSILON && g.contains(t[2][0])
    &&& forall|j: int| 0 <= j < push_of(t[4]).len() ==> g.contains(#[trigger] push_of(t[4])[j])
}

/// What an error says of the transition tokens `t` that it was raised on.
pub open spec fn pda_rule_error(e: SpecError, t: Seq<Seq<char>>, q: Set<Seq<char>>, s: Set<char>, g: Set<char>) -> bool {
    match e {
        SpecError::TLen(_) => t.len() != 5,
        SpecError::TInvalidState(st) => t.len() == 5 && !q.contains(st@) && (st@ == t[0] || st@ == t[3]),
        SpecError::MultiCharSymbol(v) => t.len() == 5 && (v@ == t[1] || v@ == t[2]) && v@.len() != 1,
        SpecError::TInvalidSymbol(ch) => t.len() == 5 && ((t[1] == seq![ch] && ch != EPSILON && !s.contains(ch)) || (
        t[2] == seq![ch] && (ch == EPSILON || !g.contains(ch))) || (push_of(t[4]).contains(ch) && !g.contains(ch))),
        _ => false,
    }
}

/// The declaration of `v` is a set where an atom is expected, or the
/// reverse.
pub open spec fn pda_shape_error(c: ConfigView, v: Seq<char>) -> bool {
    ||| (v == seq!['q', '0'] && decl(c, v) is Items)
    ||| (v == seq!['z', '0'] && decl(c, v) is Items)
    ||| (v == seq!['Q'] && decl(c, v) is Str)
    ||| (v == seq!['S'] && decl(c, v) is Str)
    ||| (v == seq!['G'] && decl(c, v) is Str)
    ||| (v == seq!['F'] && decl(c, v) is Str)
}

/// What an error says of declarations that it was raised on.
pub open spec fn pda_decl_error(e: SpecError, c: ConfigView) -> bool {
    let q = items_of(decl(c, seq!['Q']));
    let s = items_of(decl(c, seq!['S']));
    let g = items_of(decl(c, seq!['G']));
    let z0 = atom_of(decl(c, seq!['z', '0']));
    let f = items_of(decl(c, seq!['F']));
    match e {
        SpecError::DeclItem(d) => c.store.dom() != pda_names() && str_set(d@) == decl_diff(c.store.dom(), pda_names()),
        SpecError::Type(v) => pda_shape_error(c, v@),
        SpecError::QChar(st, ch) => (q.contains(st@) || f.contains(st@)) && st@.contains(ch) && !is_state_char(ch),
        SpecError::SChar(ch) => s.contains(seq![ch]) && !symbol_ok(seq![ch], false),
        SpecError::GChar(ch) => g.contains(seq![ch]) && !symbol_ok(seq![ch], false),
        SpecError::MultiCharSymbol(v) => (s.contains(v@) || g.contains(v@) || z0 == v@) && v@.len() != 1,
        SpecError::q0NotInQ => !q.contains(atom_of(decl(c, seq!['q', '0']))),
        SpecError::z0NotInG => !symbols_of(g).contains(z0[0]),
        SpecError::FNotSubsetQ => !f.subset_of(q),
        _ => false,
    }
}

/// `rule` is what the tokens `t` describe.
pub open spec fn rule_from(rule: Trans, t: Seq<Seq<char>>) -> bool {
    &&& key_view(rule.0) == (t[0], input_of(t[1]), t[2][0])
    &&& value_view(rule.1) == (t[3], push_of(t[4]))
}

/// The description is accepted.
pub open spec fn pda_config_ok(c: ConfigView) -> bool {
    &&& pda_decls_ok(c)
    &&& forall|k: int|
        0 <= k < c.trans.len() ==> pda_trans_ok(
            #[trigger] c.trans[k].1,
            items_of(decl(c, seq!['Q'])),
            symbols_of(items_of(decl(c, seq!['S']))),
            symbols_of(items_of(decl(c, seq!['G']))),
        )
}

impl PushDownAutomata {
    /// The machine is the one the accepted configuration describes.
    pub open spec fn described_by(&self, c: ConfigView) -> bool {
        &&& self.spec_q() == items_of(decl(c, seq!['Q']))
        &&& self.spec_s() == symbols_of(items_of(decl(c, seq!['S'])))
        &&& self.spec_g() == symbols_of(items_of(decl(c, seq!['G'])))
        &&& self.spec_q0() == atom_of(decl(c, seq!['q', '0']))
        &&& self.spec_z0() == atom_of(decl(c, seq!['z', '0']))[0]
        &&& self.spec_f() == items_of(decl(c, seq!['F']))
        &&& self.spec_rules().len() == c.trans.len()
        &&& forall|k: int| 0 <= k < c.trans.len() ==> rule_from(#[trigger] self.spec_rules()[k], c.trans[k].1)
    }
}

/// Lifts one transition's tokens to a rule, checking them against the
/// declared states and symbols.
fn build_rule(t: &Vec<String>, q: &Vec<State>, s: &Vec<InputSymbol>, g: &Vec<StackSymbol>) -> (r: Result<Trans, SpecError>)
    ensures
        r is Ok <==> pda_trans_ok(t@.map_values(|w: String| w@), str_set(q@), s@.to_set(), g@.to_set()),
        r matches Ok(rule) ==> rule_from(rule, t@.map_values(|w: String| w@)),
        r matches Err(e) ==> pda_rule_error(e, t@.map_values(|w: String| w@), str_set(q@), s@.to_set(), g@.to_set()),
{
    let ghost tv = t@.map_values(|w: String| w@);
    if t.len() != 5 {
        return Err(SpecError::TLen(t.clone()));
    }
    assert(tv[1] == t@[1]@ && tv[2] == t@[2]@ && tv[3] == t@[3]@ && tv[0] == t@[0]@ && tv[4] == t@[4]@);
    if !contains_str(q, &t[3]) {
        return Err(SpecError::TInvalidState(t[3].clone()));
    }
    if !contains_str(q, &t[0]) {
        return Err(SpecError::TInvalidState(t[0].clone()));
    }
    let a_chars = chars_of(t[1].as_str());
    let x_chars = chars_of(t[2].as_str());
    if a_chars.len() != 1 {
        return Err(SpecError::MultiCharSymbol(t[1].clone()));
    }
    if x_chars.len() != 1 {
        return Err(SpecError::MultiCharSymbol(t[2].clone()));
    }
    assert(a_chars@ =~= seq![a_chars[0]]);
    assert(x_chars@ =~= seq![x_chars[0]]);
    let a = if a_chars[0] == EPSILON {
        None
    } else {
        if !contains_char(s, a_chars[0]) {
            assert(!s@.to_set().contains(a_chars[0]));
            return Err(SpecError::TInvalidSymbol(a_chars[0]));
        }
        assert(s@.to_set().contains(a_chars[0]));
        Some(a_chars[0])
    };
    let x = x_chars[0];
    if x == EPSILON || !contains_char(g, x) {
        assert(x == EPSILON || !g@.to_set().contains(x));
        return Err(SpecError::TInvalidSymbol(x));
    }
    assert(g@.to_set().contains(x));
    let b_chars = chars_of(t[4].as_str());
    let beta: Vec<StackSymbol> = if b_chars.len() == 1 && b_chars[0] == EPSILON {
        assert(b_chars@ =~= seq![EPSILON]);
        Vec::new()
    } else {
        assert(b_chars@ != seq![EPSILON]);
        b_chars
    };
    assert(beta@ =~= push_of(tv[4]));
    let mut j: usize = 0;
    while j < beta.len()
        invariant
            tv == t@.map_values(|w: String| w@),
            t@.len() == 5,
            beta@ == push_of(tv[4]),
            j <= beta@.len(),
            forall|m: int| 0 <= m < j ==> g@.to_set().contains(#[trigger] beta@[m]),
        decreases beta@.len() - j,
    {
        if !contains_char(g, beta[j]) {
            assert(!g@.to_set().contains(beta@[j as int]));
            assert(push_of(tv[4]).contains(beta@[j as int]));
            return Err(SpecError::TInvalidSymbol(beta[j]));
        }
        assert(g@.to_set().contains(beta@[j as int]));
        j = j + 1;
    }
    Ok(((t[0].clone(), a, x), (t[3].clone(), beta)))
}

fn symbol_error(e: SymbolError, input: bool) -> (r: SpecError)
    ensures
        match e {
            SymbolError::MultiChar(x) => r matches SpecError::MultiCharSymbol(y) && y@ == x@,
            SymbolError::BadChar(ch) => if input {
                r matches SpecError::SChar(d) && d == ch
            } else {
                r matches SpecError::GChar(d) && d == ch
            },
        },
{
    match e {
        SymbolError::MultiChar(x) => SpecError::MultiCharSymbol(x),
        SymbolError::BadChar(ch) => if input {
            SpecError::SChar(ch)
        } else {
            SpecError::GChar(ch)
        },
    }
}

impl PushDownAutomata {
    /// The automaton a configuration's declarations describe, without rules.
    fn from_decls(c: &crate::parse::Config) -> (r: Result<PushDownAutomata, (Position, ParseError)>)
        ensures
            r is Ok <==> pda_decls_ok(c@),
            c@.store.dom() != pda_names() ==> (r matches Err((_, ParseError::Spec(SpecError::DeclItem(d))))
                && str_set(d@) == decl_diff(c@.store.dom(), pda_names())),
            r matches Ok(m) ==> m.spec_rules().len() == 0 && m.described_by(
                ConfigView { store: c@.store, trans: Seq::empty() },
            ),
            r matches Err((_, e)) ==> (e matches ParseError::Spec(se) && pda_decl_error(se, c@)),
    {
        let q_name = name1('Q');
        let s_name = name1('S');
        let g_name = name1('G');
        let q0_name = name2('q', '0');
        let z0_name = name2('z', '0');
        let f_name = name1('F');
        let mut names: Vec<String> = Vec::new();
        names.push(q_name.clone());
        names.push(s_name.clone());
        names.push(g_name.clone());
        names.push(q0_name.clone());
        names.push(z0_name.clone());
        names.push(f_name.clone());
        proof {
            assert(str_set(names@) =~= pda_names()) by {
                assert forall|x: Seq<char>| pda_names().contains(x) implies str_set(names@).contains(x) by {
                    if x == seq!['Q'] { assert(names@[0]@ == x); }
                    if x == seq!['S'] { assert(names@[1]@ == x); }
                    if x == seq!['G'] { assert(names@[2]@ == x); }
                    if x == seq!['q', '0'] { assert(names@[3]@ == x); }
                    if x == seq!['z', '0'] { assert(names@[4]@ == x); }
                    if x == seq!['F'] { assert(names@[5]@ == x); }
                }
            }
        }
        let diff = declared_mismatch(&c.store, &names);
        if diff.len() > 0 {
            proof {
                assert(str_set(diff@).contains(diff@[0]@));
                assert(c@.store.dom() != pda_names()) by {
                    if c@.store.dom() == pda_names() {
                        assert(decl_diff(c@.store.dom(), pda_names()) =~= Set::empty());
                    }
                }
            }
            return Err((Position::default(), ParseError::Spec(SpecError::DeclItem(diff))));
        }
        assert(c@.store.dom() =~= pda_names()) by {
            assert forall|x: Seq<char>| c@.store.dom().contains(x) <==> pda_names().contains(x) by {
                if c@.store.dom().contains(x) != pda_names().contains(x) {
                    assert(decl_diff(c@.store.dom(), pda_names()).contains(x));
                    let m = choose|m: int| 0 <= m < diff@.len() && diff@[m]@ == x;
                }
            }
        }
        let q_items = match items_decl(c, &q_name) {
            Ok(v) => v,
            Err(p) => {
                return Err((p, ParseError::Spec(SpecError::Type(q_name.clone()))));
            },
        };
        match check_states(q_items) {
            Ok(()) => {},
            Err((st, ch)) => {
                assert(items_of(decl(c@, seq!['Q'])).contains(st@));
                let i = entry(c, &q_name);
                return Err((c.store[i].1.0.duplicate(), ParseError::Spec(SpecError::QChar(st, ch))));
            },
        }
        let s_items = match items_decl(c, &s_name) {
            Ok(v) => v,
            Err(p) => {
                return Err((p, ParseError::Spec(SpecError::Type(s_name.clone()))));
            },
        };
        let s = match check_symbols(s_items, false) {
            Ok(v) => v,
            Err(e) => {
                let i = entry(c, &s_name);
                return Err((c.store[i].1.0.duplicate(), ParseError::Spec(symbol_error(e, true))));
            },
        };
        let g_items = match items_decl(c, &g_name) {
            Ok(v) => v,
            Err(p) => {
                return Err((p, ParseError::Spec(SpecError::Type(g_name.clone()))));
            },
        };
        let g = match check_symbols(g_items, false) {
            Ok(v) => v,
            Err(e) => {
                let i = entry(c, &g_name);
                return Err((c.store[i].1.0.duplicate(), ParseError::Spec(symbol_error(e, false))));
            },
        };
        let q0 = match atom_decl(c, &q0_name) {
            Ok(v) => v,
            Err(p) => {
                return Err((p, ParseError::Spec(SpecError::Type(q0_name.clone()))));
            },
        };
        let z0_text = match atom_decl(c, &z0_name) {
            Ok(v) => v,
            Err(p) => {
                return Err((p, ParseError::Spec(SpecError::Type(z0_name.clone()))));
            },
        };
        let z0_chars = chars_of(z0_text.as_str());
        if z0_chars.len() != 1 {
            let i = entry(c, &z0_name);
            return Err((c.store[i].1.0.duplicate(), ParseError::Spec(SpecError::MultiCharSymbol(z0_text.clone()))));
        }
        let z0 = z0_chars[0];
        let f_items = match items_decl(c, &f_name) {
            Ok(v) => v,
            Err(p) => {
                return Err((p, ParseError::Spec(SpecError::Type(f_name.clone()))));
            },
        };
        match check_states(f_items) {
            Ok(()) => {},
            Err((st, ch)) => {
                assert(items_of(decl(c@, seq!['F'])).contains(st@));
                let i = entry(c, &f_name);
                return Err((c.store[i].1.0.duplicate(), ParseError::Spec(SpecError::QChar(st, ch))));
            },
        }
        if !contains_str(q_items, q0) {
            return Err((Position::default(), ParseError::Spec(SpecError::q0NotInQ)));
        }
        if !contains_char(&g, z0) {
            assert(!g@.to_set().contains(z0));
            return Err((Position::default(), ParseError::Spec(SpecError::z0NotInG)));
        }
        assert(g@.to_set().contains(z0));
        if !subset_str(f_items, q_items) {
            return Err((Position::default(), ParseError::Spec(SpecError::FNotSubsetQ)));
        }
        Ok(PushDownAutomata {
            q: copy_strings(q_items),
            s,
            g,
            q0: q0.clone(),
            z0,
            f: copy_strings(f_items),
            delta: Vec::new(),
        })
    }
}

/// An accepted description yields an automaton that satisfies its
/// invariants.
proof fn lemma_described_wf(m: PushDownAutomata, c: ConfigView)
    requires
        pda_config_ok(c),
        m.described_by(c),
    ensures
        m.wf(),
{
    let s = items_of(decl(c, seq!['S']));
    let g = items_of(decl(c, seq!['G']));
    assert(!m.spec_s().contains(EPSILON)) by {
        if m.spec_s().contains(EPSILON) {
            assert(s.contains(seq![EPSILON]));
            assert(crate::decl::symbol_ok(seq![EPSILON], false));
        }
    }
    assert(!m.spec_g().contains(EPSILON)) by {
        if m.spec_g().contains(EPSILON) {
            assert(g.contains(seq![EPSILON]));
            assert(crate::decl::symbol_ok(seq![EPSILON], false));
        }
    }
    assert forall|k: int| 0 <= k < m.spec_rules().len() implies m.rule_wf(#[trigger] m.spec_rules()[k]) by {
        let t = c.trans[k].1;
        assert(pda_trans_ok(t, m.spec_q(), m.spec_s(), m.spec_g()));
        assert(rule_from(m.spec_rules()[k], t));
    }
}

impl PushDownAutomata {
    /// Builds an automaton from its description, or says where and why the
    /// description is rejected.
    pub fn from_str(s: &str) -> (r: Result<PushDownAutomata, (Position, ParseError)>)
        ensures
            match spec_parse(s@, 5) {
                Err((p, e)) => (r matches Err((p2, ParseError::Syntax(e2))) && p2@ == p && e2 == e),
                Ok(c) => {
                    &&& (r is Ok <==> pda_config_ok(c))
                    &&& (c.store.dom() != pda_names() ==> (r matches Err((_, ParseError::Spec(SpecError::DeclItem(d))))
                        && str_set(d@) == decl_diff(c.store.dom(), pda_names())))
                    &&& (r matches Ok(m) ==> m.wf() && m.described_by(c))
                    &&& (r matches Err((p, e)) ==> e matches ParseError::Spec(se) && ((!pda_decls_ok(c)
                        && pda_decl_error(se, c)) || (pda_decls_ok(c) && exists|k: int|
                        0 <= k < c.trans.len() && p@ == c.trans[k].0 && pda_rule_error(
                            se,
                            #[trigger] c.trans[k].1,
                            items_of(decl(c, seq!['Q'])),
                            symbols_of(items_of(decl(c, seq!['S']))),
                            symbols_of(items_of(decl(c, seq!['G']))),
                        ) && forall|j: int|
                            0 <= j < k ==> pda_trans_ok(
                                #[trigger] c.trans[j].1,
                                items_of(decl(c, seq!['Q'])),
                                symbols_of(items_of(decl(c, seq!['S']))),
                                symbols_of(items_of(decl(c, seq!['G']))),
                            ))))
                },
            },
    {
        let c = match parse(s, 5) {
            Ok(c) => c,
            Err((p, e)) => {
                return Err((p, ParseError::Syntax(e)));
            },
        };
        let mut m = Self::from_decls(&c)?;
        let ghost q = m.spec_q();
        let ghost sy = m.spec_s();
        let ghost g = m.spec_g();
        let mut k: usize = 0;
        while k < c.trans.len()
            invariant
                spec_parse(s@, 5) == Ok::<ConfigView, ((Seq<char>, nat, nat), crate::parse::ParseError)>(c@),
                pda_decls_ok(c@),
                m.described_by(ConfigView { store: c@.store, trans: c@.trans.take(k as int) }),
                q == items_of(decl(c@, seq!['Q'])),
                sy == symbols_of(items_of(decl(c@, seq!['S']))),
                g == symbols_of(items_of(decl(c@, seq!['G']))),
                k <= c.trans@.len(),
                forall|j: int| 0 <= j < k ==> pda_trans_ok(#[trigger] c@.trans[j].1, q, sy, g),
            decreases c.trans@.len() - k,
        {
            let e = &c.trans[k];
            assert(c@.trans[k as int].1 == e.1@.map_values(|w: String| w@));
            match build_rule(&e.1, &m.q, &m.s, &m.g) {
                Ok(rule) => {
                    let ghost before = m.delta@;
                    m.delta.push(rule);
                    assert(m.delta@ =~= before.push(rule));
                    assert forall|j: int| 0 <= j < k + 1 implies rule_from(
                        #[trigger] m.spec_rules()[j],
                        c@.trans.take(k as int + 1)[j].1,
                    ) by {
                        if j < k {
                            assert(c@.trans.take(k as int + 1)[j] == c@.trans.take(k as int)[j]);
                            assert(m.spec_rules()[j] == before[j]);
                        }
                    }
                },
                Err(err) => {
                    proof {
                        assert(!pda_trans_ok(c@.trans[k as int].1, q, sy, g));
                        assert(!pda_config_ok(c@));
                    }
                    let p = e.0.duplicate();
                    assert(p@ == c@.trans[k as int].0);
                    return Err((p, ParseError::Spec(err)));
                },
            }
            k = k + 1;
        }
        assert(c@.trans.take(c@.trans.len() as int) =~= c@.trans);
        proof {
            lemma_described_wf(m, c@);
        }
        Ok(m)
    }
}

impl std::str::FromStr for PushDownAutomata {
    type Err = (Position, ParseError);

    fn from_str(s: &str) -> Result<PushDownAutomata, (Position, ParseError)> {
        PushDownAutomata::from_str(s)
    }
}

/// A running pushdown automaton: control state, unread input and stack.
pub struct ArchState {
    pda: PushDownAutomata,
    step: usize,
    state: State,
    /// Unread input, next symbol first.
    input: VecDeque<InputSymbol>,
    /// The stack, top first.
    stack: VecDeque<StackSymbol>,
}

#[derive(Debug, Clone, PartialEq, Eq, Structural)]
pub enum Exception {
    /// The input holds a character outside the input alphabet at `col`.
    InvalidInput { col: usize },
    Accept,
    Reject,
}

impl ArchState {
    pub closed spec fn spec_pda(&self) -> PushDownAutomata {
        self.pda
    }

    pub closed spec fn spec_step(&self) -> nat {
        self.step as nat
    }

    pub closed spec fn spec_state(&self) -> Seq<char> {
        self.state@
    }

    pub closed spec fn spec_input(&self) -> Seq<char> {
        self.input@
    }

    pub closed spec fn spec_stack(&self) -> Seq<char> {
        self.stack@
    }

    /// The whole input is read and the state is final.
    pub open spec fn accepting(&self) -> bool {
        self.spec_input().len() == 0 && self.spec_pda().spec_f().contains(self.spec_state())
    }

    /// The next input symbol, if any.
    pub open spec fn peek(&self) -> Option<char> {
        if self.spec_input().len() > 0 {
            Some(self.spec_input()[0])
        } else {
            None
        }
    }

    /// The move the automaton makes now, if any.
    pub open spec fn next_move(&self) -> Option<(Option<char>, (Seq<char>, Seq<char>))> {
        if self.spec_stack().len() == 0 {
            None
        } else {
            self.spec_pda().spec_get(self.spec_state(), self.peek(), self.spec_stack()[0])
        }
    }

    pub open spec fn same_as(&self, other: ArchState) -> bool {
        &&& other.spec_pda() == self.spec_pda()
        &&& other.spec_step() == self.spec_step()
        &&& other.spec_state() == self.spec_state()
        &&& other.spec_input() == self.spec_input()
        &&& other.spec_stack() == self.spec_stack()
    }

    /// Starts the automaton on an input: its initial state, the whole input
    /// unread, and the initial stack symbol alone on the stack.
    pub fn new(pda: PushDownAutomata, input: &str) -> (r: Result<Self, Exception>)
        ensures
            r is Ok <==> (forall|i: int| 0 <= i < input@.len() ==> pda.spec_s().contains(#[trigger] input@[i])),
            r matches Err(e) ==> e matches Exception::InvalidInput { col } && col < input@.len()
                && !pda.spec_s().contains(input@[col as int])
                && forall|j: int| 0 <= j < col ==> pda.spec_s().contains(#[trigger] input@[j]),
            r matches Ok(a) ==> {
                &&& a.spec_pda() == pda
                &&& a.spec_step() == 0
                &&& a.spec_state() == pda.spec_q0()
                &&& a.spec_input() == input@
                &&& a.spec_stack() == seq![pda.spec_z0()]
            },
    {
        match pda.input_valid(input) {
            Ok(()) => {},
            Err(col) => {
                return Err(Exception::InvalidInput { col });
            },
        }
        let q0 = pda.q0();
        let z0 = pda.z0();
        let chars = chars_of(input);
        let mut queue: VecDeque<InputSymbol> = VecDeque::new();
        let mut i: usize = 0;
        while i < chars.len()
            invariant
                i <= chars@.len(),
                queue@ == chars@.take(i as int),
            decreases chars@.len() - i,
        {
            queue.push_back(chars[i]);
            i = i + 1;
            assert(queue@ =~= chars@.take(i as int));
        }
        assert(queue@ =~= input@);
        let mut stack: VecDeque<StackSymbol> = VecDeque::new();
        stack.push_back(z0);
        assert(stack@ =~= seq![z0]);
        Ok(ArchState { pda, step: 0, state: q0, input: queue, stack })
    }

    pub fn machine(&self) -> (r: &PushDownAutomata)
        ensures
            *r == self.spec_pda(),
    {
        &self.pda
    }

    /// The number of steps taken.
    pub fn steps(&self) -> (r: usize)
        ensures
            r == self.spec_step(),
    {
        self.step
    }

    pub fn state(&self) -> (r: &State)
        ensures
            r@ == self.spec_state(),
    {
        &self.state
    }

    /// The unread input, next symbol first.
    pub fn remaining(&self) -> (r: Vec<InputSymbol>)
        ensures
            r@ == self.spec_input(),
    {
        let mut v: Vec<InputSymbol> = Vec::new();
        let mut j: usize = 0;
        while j < self.input.len()
            invariant
                j <= self.input@.len(),
                v@ == self.input@.take(j as int),
            decreases self.input@.len() - j,
        {
            v.push(self.input[j]);
            j = j + 1;
            assert(v@ =~= self.input@.take(j as int));
        }
        assert(v@ =~= self.input@);
        v
    }

    /// The stack, top first.
    pub fn stack(&self) -> (r: Vec<StackSymbol>)
        ensures
            r@ == self.spec_stack(),
    {
        let mut v: Vec<StackSymbol> = Vec::new();
        let mut j: usize = 0;
        while j < self.stack.len()
            invariant
                j <= self.stack@.len(),
                v@ == self.stack@.take(j as int),
            decreases self.stack@.len() - j,
        {
            v.push(self.stack[j]);
            j = j + 1;
            assert(v@ =~= self.stack@.take(j as int));
        }
        assert(v@ =~= self.stack@);
        v
    }

    /// One step: accept when the input is read in a final state; otherwise
    /// make the move for the state, the next input symbol and the stack
    /// top, or reject when there is none.
    pub fn step(&mut self) -> (r: Result<(), Exception>)
        requires
            old(self).spec_step() < usize::MAX,
        ensures
            match r {
                Err(Exception::Accept) => old(self).accepting() && old(self).same_as(*final(self)),
                Err(Exception::Reject) => {
                    &&& !old(self).accepting()
                    &&& old(self).next_move() is None
                    &&& old(self).same_as(*final(self))
                },
                Err(Exception::InvalidInput { .. }) => false,
                Ok(()) => {
                    &&& !old(self).accepting()
                    &&& match old(self).next_move() {
                        Some((used, (p, beta))) => {
                            &&& final(self).spec_pda() == old(self).spec_pda()
                            &&& final(self).spec_step() == old(self).spec_step() + 1
                            &&& final(self).spec_state() == p
                            &&& final(self).spec_stack() == beta + old(self).spec_stack().drop_first()
                            &&& final(self).spec_input() == if used is Some {
                                old(self).spec_input().drop_first()
                            } else {
                                old(self).spec_input()
                            }
                        },
                        None => false,
                    }
                },
            },
            (r == Err::<(), Exception>(Exception::Accept)) <==> old(self).accepting(),
            old(self).spec_stack().len() == 0 && !old(self).accepting() ==> r == Err::<(), Exception>(Exception::Reject),
            (r is Ok && (old(self).next_move() matches Some((None, _)))) ==> final(self).peek() == old(self).peek(),
    {
        if self.input.len() == 0 && contains_str(&self.pda.f, &self.state) {
            return Err(Exception::Accept);
        }
        let a: Option<InputSymbol> = if self.input.len() > 0 {
            Some(self.input[0])
        } else {
            None
        };
        if self.stack.len() == 0 {
            return Err(Exception::Reject);
        }
        let x = self.stack[0];
        match self.pda.get(&self.state, a, x) {
            Some((used, t)) => {
                let ghost input0 = self.input@;
                if used.is_some() {
                    let _ = self.input.pop_front();
                }
                let ghost input1 = self.input@;
                assert(input1 == if used is Some { input0.drop_first() } else { input0 });
                let ghost rest = self.stack@.drop_first();
                let _ = self.stack.pop_front();
                assert(self.stack@ =~= rest);
                self.state = t.0.clone();
                let beta = &t.1;
                let mut j: usize = beta.len();
                while j > 0
                    invariant
                        j <= beta@.len(),
                        self.stack@ == beta@.subrange(j as int, beta@.len() as int) + rest,
                        self.step == old(self).step,
                        old(self).step < usize::MAX,
                        self.pda == old(self).pda,
                        self.state@ == t.0@,
                        self.input@ == input1,
                        *beta == t.1,
                    decreases j,
                {
                    self.stack.push_front(beta[j - 1]);
                    j = j - 1;
                    assert(self.stack@ =~= beta@.subrange(j as int, beta@.len() as int) + rest);
                }
                assert(beta@.subrange(0, beta@.len() as int) =~= beta@);
                self.step = self.step + 1;
                Ok(())
            },
            None => Err(Exception::Reject),
        }
    }
}

} // verus!
