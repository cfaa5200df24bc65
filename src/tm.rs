//! Multi-tape Turing machines: the machine, its wildcard-aware rule matcher,
//! the builder from a description, and the step-wise runtime.
use vstd::prelude::*;
use std::collections::VecDeque;
use crate::decl::{
    atom_decl, atom_of, check_states, check_symbols, decimal, decl, declared_mismatch, decl_diff, entry,
    is_digit, items_decl, items_of, parse_usize, states_ok, symbols_of, symbols_ok, SymbolError,
};
use crate::parse::{is_state_char, is_symbol_char, parse, spec_parse, valid_symbol_char, Config, ConfigView, Position, Value, ValueView};
use crate::text::{chars_of, contains_char, contains_str, copy_strings, name1, name2, str_set, string_of, subset_char, subset_str};

verus! {

pub type State = String;
pub type InputSymbol = char;
pub type TapeSymbol = char;
/// (state, symbols read on each tape)
pub type TransL = (State, Vec<TapeSymbol>);
/// (symbols written on each tape, head moves, next state)
pub type TransR = (Vec<TapeSymbol>, Vec<Direction>, State);
pub type DeltaType = Vec<(TransL, TransR)>;

/// The wildcard in rules: any non-blank symbol when read, the symbol read
/// when written.
pub const WILDCARD: char = '*';

#[derive(Debug, Clone, Copy, PartialEq, Eq, Structural)]
pub enum Direction {
    Left,
    Right,
    Stay,
}

impl Direction {
    /// `l`, `r` and `*` name the three moves.
    pub open spec fn spec_from_char(c: char) -> Option<Direction> {
        if c == 'l' {
            Some(Direction::Left)
        } else if c == 'r' {
            Some(Direction::Right)
        } else if c == '*' {
            Some(Direction::Stay)
        } else {
            None
        }
    }

    pub fn try_from(c: char) -> (r: Result<Direction, ()>)
        ensures
            r is Ok <==> Self::spec_from_char(c) is Some,
            r matches Ok(d) ==> Self::spec_from_char(c) == Some(d),
    {
        match c {
            'l' => Ok(Direction::Left),
            'r' => Ok(Direction::Right),
            '*' => Ok(Direction::Stay),
            _ => Err(()),
        }
    }

    pub fn to_char(&self) -> (r: char)
        ensures
            Self::spec_from_char(r) == Some(*self),
    {
        match self {
            Direction::Left => 'l',
            Direction::Right => 'r',
            Direction::Stay => '*',
        }
    }
}

/// Whether a rule's read pattern `pat` accepts the symbol `syn` under the head.
pub open spec fn slot_matches(pat: char, syn: char, blank: char) -> bool {
    if pat == WILDCARD {
        syn != blank
    } else {
        pat == syn
    }
}

/// The symbol left on a cell that held `syn` by a rule writing `nsyn`.
pub open spec fn written(syn: char, nsyn: char) -> char {
    if nsyn == WILDCARD {
        syn
    } else {
        nsyn
    }
}

pub open spec fn rule_matches(
    rule: (TransL, TransR),
    q: Seq<char>,
    content: Seq<char>,
    blank: char,
) -> bool {
    &&& rule.0.0@ == q
    &&& forall|i: int|
        0 <= i < content.len() ==> slot_matches(#[trigger] rule.0.1@[i], content[i], blank)
}

/// What a rule writes on the tapes when it fires on `content`.
pub open spec fn emitted(rule: (TransL, TransR), content: Seq<char>) -> Seq<char> {
    Seq::new(content.len(), |i: int| written(content[i], rule.1.0@[i]))
}

#[derive(Clone, Debug)]
pub struct TuringMachine {
    n: usize,
    q: Vec<State>,
    s: Vec<InputSymbol>,
    g: Vec<TapeSymbol>,
    q0: State,
    b: TapeSymbol,
    f: Vec<State>,
    delta: DeltaType,
}

impl TuringMachine {
    pub closed spec fn spec_n(&self) -> nat {
        self.n as nat
    }

    pub closed spec fn spec_q(&self) -> Set<Seq<char>> {
        str_set(self.q@)
    }

    pub closed spec fn spec_s(&self) -> Set<char> {
        self.s@.to_set()
    }

    pub closed spec fn spec_g(&self) -> Set<char> {
        self.g@.to_set()
    }

    pub closed spec fn spec_q0(&self) -> Seq<char> {
        self.q0@
    }

    pub closed spec fn spec_b(&self) -> char {
        self.b
    }

    pub closed spec fn spec_f(&self) -> Set<Seq<char>> {
        str_set(self.f@)
    }

    pub closed spec fn spec_delta(&self) -> Seq<(TransL, TransR)> {
        self.delta@
    }

    /// Each rule is well formed: its states are declared, its three strings
    /// have one entry per tape, its symbols are tape symbols or the wildcard,
    /// and it writes the wildcard only where it reads it.
    pub open spec fn rule_wf(&self, rule: (TransL, TransR)) -> bool {
        &&& self.spec_q().contains(rule.0.0@)
        &&& self.spec_q().contains(rule.1.2@)
        &&& rule.0.1@.len() == self.spec_n()
        &&& rule.1.0@.len() == self.spec_n()
        &&& rule.1.1@.len() == self.spec_n()
        &&& forall|i: int|
            0 <= i < self.spec_n() ==> {
                &&& (#[trigger] rule.0.1@[i] == WILDCARD || self.spec_g().contains(rule.0.1@[i]))
                &&& (rule.1.0@[i] == WILDCARD || self.spec_g().contains(rule.1.0@[i]))
                &&& (rule.0.1@[i] != WILDCARD ==> rule.1.0@[i] != WILDCARD)
            }
    }

    /// The machine satisfies the 7-tuple's invariants.
    pub open spec fn wf(&self) -> bool {
        &&& self.spec_n() >= 1
        &&& self.spec_q().contains(self.spec_q0())
        &&& self.spec_g().contains(self.spec_b())
        &&& self.spec_f().subset_of(self.spec_q())
        &&& self.spec_s().subset_of(self.spec_g())
        &&& !self.spec_s().contains('_')
        &&& forall|k: int| 0 <= k < self.spec_delta().len() ==> self.rule_wf(#[trigger] self.spec_delta()[k])
    }

    /// Rule `k` is the first one, in declaration order, that matches.
    pub open spec fn is_first_match(&self, q: Seq<char>, content: Seq<char>, k: int) -> bool {
        &&& 0 <= k < self.spec_delta().len()
        &&& rule_matches(self.spec_delta()[k], q, content, self.spec_b())
        &&& forall|j: int|
            0 <= j < k ==> !rule_matches(#[trigger] self.spec_delta()[j], q, content, self.spec_b())
    }

    /// The index of the first position of `input` that is not an input
    /// symbol, if any.
    pub fn input_valid(&self, input: &str) -> (r: Result<(), usize>)
        ensures
            r is Ok <==> (forall|i: int| 0 <= i < input@.len() ==> self.spec_s().contains(#[trigger] input@[i])),
            r matches Err(i) ==> i < input@.len() && !self.spec_s().contains(input@[i as int])
                && forall|j: int| 0 <= j < i ==> self.spec_s().contains(#[trigger] input@[j]),
    {
        let chars = crate::text::chars_of(input);
        let mut i: usize = 0;
        while i < chars.len()
            invariant
                chars@ == input@,
                i <= chars.len(),
                forall|j: int| 0 <= j < i ==> self.spec_s().contains(#[trigger] input@[j]),
            decreases chars.len() - i,
        {
            if !contains_char(&self.s, chars[i]) {
                return Err(i);
            }
            i = i + 1;
        }
        Ok(())
    }

    #[allow(non_snake_case)]
    pub fn N(&self) -> (r: usize)
        ensures
            r == self.spec_n(),
    {
        self.n
    }

    #[allow(non_snake_case)]
    pub fn Q(&self) -> (r: &Vec<State>)
        ensures
            str_set(r@) == self.spec_q(),
    {
        &self.q
    }

    #[allow(non_snake_case)]
    pub fn S(&self) -> (r: &Vec<InputSymbol>)
        ensures
            r@.to_set() == self.spec_s(),
    {
        &self.s
    }

    #[allow(non_snake_case)]
    pub fn G(&self) -> (r: &Vec<TapeSymbol>)
        ensures
            r@.to_set() == self.spec_g(),
    {
        &self.g
    }

    pub fn q0(&self) -> (r: &State)
        ensures
            r@ == self.spec_q0(),
    {
        &self.q0
    }

    #[allow(non_snake_case)]
    pub fn B(&self) -> (r: TapeSymbol)
        ensures
            r == self.spec_b(),
    {
        self.b
    }

    #[allow(non_snake_case)]
    pub fn F(&self) -> (r: &Vec<State>)
        ensures
            str_set(r@) == self.spec_f(),
    {
        &self.f
    }

    pub fn delta(&self) -> (r: &DeltaType)
        ensures
            r@ == self.spec_delta(),
    {
        &self.delta
    }

    /// The first rule, in declaration order, that matches state `q` and the
    /// symbols `content` under the heads, with its write tuple resolved.
    pub fn get(&self, q: &State, content: &[TapeSymbol]) -> (r: Option<TransR>)
        requires
            self.wf(),
        ensures
            content@.len() != self.spec_n() ==> r is None,
            content@.len() == self.spec_n() ==> match r {
                None => forall|k: int|
                    0 <= k < self.spec_delta().len() ==> !rule_matches(
                        #[trigger] self.spec_delta()[k],
                        q@,
                        content@,
                        self.spec_b(),
                    ),
                Some(t) => exists|k: int|
                    #[trigger] self.is_first_match(q@, content@, k) && t.0@ == emitted(
                        self.spec_delta()[k],
                        content@,
                    ) && t.1@ == self.spec_delta()[k].1.1@ && t.2@ == self.spec_delta()[k].1.2@,
            },
    {
        if content.len() != self.n {
            return None;
        }
        let mut k: usize = 0;
        while k < self.delta.len()
            invariant
                self.wf(),
                content@.len() == self.spec_n(),
                k <= self.delta@.len(),
                forall|j: int|
                    0 <= j < k ==> !rule_matches(#[trigger] self.delta@[j], q@, content@, self.b),
            decreases self.delta.len() - k,
        {
            let rule = &self.delta[k];
            proof {
                assert(self.rule_wf(self.spec_delta()[k as int]));
            }
            if rule.0.0 == *q {
                let ots = &rule.0.1;
                let nts = &rule.1.0;
                let mut rnts: Vec<TapeSymbol> = Vec::new();
                let mut ok = true;
                let mut i: usize = 0;
                while i < self.n
                    invariant_except_break
                        ok,
                    invariant
                        self.wf(),
                        content@.len() == self.spec_n(),
                        ots@.len() == self.spec_n(),
                        nts@.len() == self.spec_n(),
                        *rule == self.delta@[k as int],
                        k < self.delta@.len(),
                        i <= self.n,
                        rnts@.len() == i,
                        forall|j: int| 0 <= j < i ==> slot_matches(#[trigger] ots@[j], content@[j], self.b),
                        forall|j: int| 0 <= j < i ==> #[trigger] rnts@[j] == written(content@[j], nts@[j]),
                    ensures
                        ok ==> i == self.n,
                        !ok ==> i < self.n && !slot_matches(ots@[i as int], content@[i as int], self.b),
                    decreases self.n - i,
                {
                    let pat = ots[i];
                    let syn = content[i];
                    let nsyn = nts[i];
                    let hit = if pat == WILDCARD {
                        syn != self.b
                    } else {
                        pat == syn
                    };
                    if !hit {
                        ok = false;
                        break;
                    }
                    if nsyn == WILDCARD {
                        rnts.push(syn);
                    } else {
                        rnts.push(nsyn);
                    }
                    i = i + 1;
                }
                if !ok {
                    proof {
                        assert(!rule_matches(self.delta@[k as int], q@, content@, self.b));
                    }
                }
                if ok {
                    proof {
                        assert(rnts@ =~= emitted(self.delta@[k as int], content@));
                        assert(self.is_first_match(q@, content@, k as int));
                    }
                    return Some((rnts, rule.1.1.clone(), rule.1.2.clone()));
                }
            }
            k = k + 1;
        }
        None
    }
}

/// A head as (logical index, offset into the buffer).
pub open spec fn head_view(h: (isize, usize)) -> (int, int) {
    (h.0 as int, h.1 as int)
}

/// Writes `sym` under the head, then moves the head one cell, growing the
/// buffer by a blank where the head would leave it.
pub open spec fn shift(tape: Seq<char>, head: (int, int), sym: char, dir: Direction, b: char) -> (
    Seq<char>,
    (int, int),
) {
    let t = tape.update(head.1, sym);
    match dir {
        Direction::Stay => (t, head),
        Direction::Left => if head.1 == 0 {
            (seq![b] + t, (head.0 - 1, 0))
        } else {
            (t, (head.0 - 1, head.1 - 1))
        },
        Direction::Right => if head.1 == t.len() - 1 {
            (t.push(b), (head.0 + 1, head.1 + 1))
        } else {
            (t, (head.0 + 1, head.1 + 1))
        },
    }
}

/// Drops blanks from the back of the buffer while they lie past the head.
pub open spec fn trim_back(t: Seq<char>, off: int, b: char) -> Seq<char>
    decreases t.len(),
{
    if t.len() > 0 && t.len() > off + 1 && t.last() == b {
        trim_back(t.drop_last(), off, b)
    } else {
        t
    }
}

/// Drops blanks from the front of the buffer while they lie before the head;
/// the head's offset follows.
pub open spec fn trim_front(t: Seq<char>, off: int, b: char) -> (Seq<char>, int)
    decreases t.len(),
{
    if off > 0 && t.len() > 0 && t[0] == b {
        trim_front(t.drop_first(), off - 1, b)
    } else {
        (t, off)
    }
}

/// One tape's part of a step: write, move, then trim idle blanks.
pub open spec fn moved(tape: Seq<char>, head: (int, int), sym: char, dir: Direction, b: char) -> (
    Seq<char>,
    (int, int),
) {
    let (t1, h1) = shift(tape, head, sym, dir, b);
    let t2 = trim_back(t1, h1.1, b);
    let (t3, off) = trim_front(t2, h1.1, b);
    (t3, (h1.0, off))
}

/// No idle blank at either end of the buffer beyond the head.
pub open spec fn is_trimmed(t: Seq<char>, off: int, b: char) -> bool {
    &&& (t.len() > off + 1 ==> t.last() != b)
    &&& (off > 0 ==> t[0] != b)
}

pub open spec fn strip_front(t: Seq<char>, b: char) -> Seq<char>
    decreases t.len(),
{
    if t.len() > 0 && t[0] == b {
        strip_front(t.drop_first(), b)
    } else {
        t
    }
}

pub open spec fn strip_back(t: Seq<char>, b: char) -> Seq<char>
    decreases t.len(),
{
    if t.len() > 0 && t.last() == b {
        strip_back(t.drop_last(), b)
    } else {
        t
    }
}

/// A tape's contents with its leading and trailing blanks removed.
pub open spec fn strip_blanks(t: Seq<char>, b: char) -> Seq<char> {
    strip_back(strip_front(t, b), b)
}

proof fn lemma_trim_back(t: Seq<char>, off: int, b: char)
    requires
        0 <= off < t.len(),
    ensures
        off < trim_back(t, off, b).len() <= t.len(),
        trim_back(t, off, b) =~= t.subrange(0, trim_back(t, off, b).len() as int),
        trim_back(t, off, b).len() > off + 1 ==> trim_back(t, off, b).last() != b,
    decreases t.len(),
{
    if t.len() > 0 && t.len() > off + 1 && t.last() == b {
        lemma_trim_back(t.drop_last(), off, b);
    }
}

proof fn lemma_trim_front(t: Seq<char>, off: int, b: char)
    requires
        0 <= off < t.len(),
        t.len() > off + 1 ==> t.last() != b,
    ensures
        0 <= trim_front(t, off, b).1 <= off,
        trim_front(t, off, b).1 < trim_front(t, off, b).0.len(),
        trim_front(t, off, b).0 =~= t.subrange(off - trim_front(t, off, b).1, t.len() as int),
        is_trimmed(trim_front(t, off, b).0, trim_front(t, off, b).1, b),
    decreases t.len(),
{
    if off > 0 && t.len() > 0 && t[0] == b {
        lemma_trim_front(t.drop_first(), off - 1, b);
    }
}

/// After a tape's part of a step the head lies inside its buffer and no
/// idle blank remains at either end beyond the head.
pub proof fn lemma_moved_trimmed(tape: Seq<char>, head: (int, int), sym: char, dir: Direction, b: char)
    requires
        0 <= head.1 < tape.len(),
    ensures
        0 <= moved(tape, head, sym, dir, b).1.1 < moved(tape, head, sym, dir, b).0.len(),
        is_trimmed(moved(tape, head, sym, dir, b).0, moved(tape, head, sym, dir, b).1.1, b),
{
    let (t1, h1) = shift(tape, head, sym, dir, b);
    lemma_trim_back(t1, h1.1, b);
    lemma_trim_front(trim_back(t1, h1.1, b), h1.1, b);
}

/// Writes `sym` under the head, moves it per `dir` and trims the buffer.
fn move_tape(tape: &mut VecDeque<TapeSymbol>, head: &mut (isize, usize), sym: char, dir: Direction, b: char)
    requires
        old(head).1 < old(tape)@.len(),
        isize::MIN < old(head).0 < isize::MAX,
    ensures
        (final(tape)@, head_view(*final(head))) == moved(old(tape)@, head_view(*old(head)), sym, dir, b),
{
    let ghost t0 = tape@;
    let ghost h0 = head_view(*head);
    let off = head.1;
    let _ = tape.remove(off);
    tape.insert(off, sym);
    assert(tape@ =~= t0.update(off as int, sym));
    match dir {
        Direction::Stay => {},
        Direction::Left => {
            if head.1 == 0 {
                tape.push_front(b);
            } else {
                head.1 = head.1 - 1;
            }
            head.0 = head.0 - 1;
        },
        Direction::Right => {
            if head.1 == tape.len() - 1 {
                tape.push_back(b);
            }
            head.1 = head.1 + 1;
            head.0 = head.0 + 1;
        },
    }
    let ghost t1 = tape@;
    assert((t1, head_view(*head)) == shift(t0, h0, sym, dir, b));
    let ghost off1 = head.1 as int;
    let ghost lg = head.0;
    while tape.len() > head.1 + 1 && tape[tape.len() - 1] == b
        invariant
            head.1 == off1,
            off1 < tape@.len(),
            trim_back(tape@, off1, b) == trim_back(t1, off1, b),
        decreases tape@.len(),
    {
        let ghost prev = tape@;
        let _ = tape.pop_back();
        assert(tape@ =~= prev.drop_last());
    }
    assert(tape@ == trim_back(t1, off1, b));
    let ghost t2 = tape@;
    while head.1 > 0 && tape[0] == b
        invariant
            head.1 < tape@.len(),
            head.1 <= off1,
            head.0 == lg,
            trim_front(tape@, head.1 as int, b) == trim_front(t2, off1, b),
        decreases tape@.len(),
    {
        let ghost prev = tape@;
        let _ = tape.pop_front();
        assert(tape@ =~= prev.drop_first());
        head.1 = head.1 - 1;
    }
    assert(trim_front(tape@, head.1 as int, b) == (tape@, head.1 as int));
}


#[allow(non_camel_case_types)]
#[derive(Debug, Clone)]
pub enum SpecError {
    /// The declared names differ from the expected ones by these.
    DeclItem(Vec<String>),
    MultiCharSymbol(String),
    QChar(char),
    GChar(char),
    SChar(char),
    /// A declaration has the wrong shape (set or atom), or `N` is no number.
    Type(String),
    /// `N` is zero.
    TapeNumber,
    q0NotInQ,
    BNotInG,
    FNotSubsetQ,
    SNotSubsetG,
    TLen(Vec<String>),
    TtsLen(Vec<String>),
    TInvalidState(String),
    TInvalidSymbol(char),
    TInvalidDirection,
    TGlob(String, String),
}

#[derive(Debug, Clone)]
pub enum ParseError {
    Syntax(crate::parse::ParseError),
    Spec(SpecError),
}

/// The names a Turing machine description declares.
pub open spec fn tm_names() -> Set<Seq<char>> {
    set![seq!['N'], seq!['Q'], seq!['S'], seq!['G'], seq!['q', '0'], seq!['B'], seq!['F']]
}

/// The declarations are those expected, each of the right shape, and they
/// agree with one another.
pub open spec fn tm_decls_ok(c: ConfigView) -> bool {
    let n = atom_of(decl(c, seq!['N']));
    let q = items_of(decl(c, seq!['Q']));
    let s = items_of(decl(c, seq!['S']));
    let g = items_of(decl(c, seq!['G']));
    let q0 = atom_of(decl(c, seq!['q', '0']));
    let b = atom_of(decl(c, seq!['B']));
    let f = items_of(decl(c, seq!['F']));
    &&& c.store.dom() == tm_names()
    &&& decl(c, seq!['N']) is Str && n.len() > 0 && (forall|j: int| 0 <= j < n.len() ==> is_digit(#[trigger] n[j]))
        && 1 <= decimal(n) <= usize::MAX
    &&& decl(c, seq!['Q']) is Items && states_ok(q)
    &&& decl(c, seq!['S']) is Items && symbols_ok(s, false)
    &&& decl(c, seq!['G']) is Items && symbols_ok(g, true)
    &&& decl(c, seq!['q', '0']) is Str
    &&& decl(c, seq!['B']) is Str && b.len() == 1 && is_symbol_char(b[0])
    &&& decl(c, seq!['F']) is Items && states_ok(f)
    &&& q.contains(q0)
    &&& symbols_of(g).contains(b[0])
    &&& f.subset_of(q)
    &&& symbols_of(s).subset_of(symbols_of(g))
}

/// A transition's tokens `q read write dir p` fit the declarations.
pub open spec fn tm_trans_ok(t: Seq<Seq<char>>, q: Set<Seq<char>>, g: Set<char>, n: nat) -> bool {
    &&& t.len() == 5
    &&& t[1].len() == n && t[2].len() == n && t[3].len() == n
    &&& q.contains(t[0]) && q.contains(t[4])
    &&& forall|i: int| 0 <= i < n ==> (#[trigger] Direction::spec_from_char(t[3][i])) is Some
    &&& forall|i: int|
        0 <= i < n ==> {
            &&& (#[trigger] t[1][i] != WILDCARD ==> t[2][i] != WILDCARD)
            &&& (t[1][i] == WILDCARD || g.contains(t[1][i]))
            &&& (t[2][i] == WILDCARD || g.contains(t[2][i]))
        }
}

/// What an error says of the transition tokens `t` that it was raised on.
pub open spec fn tm_rule_error(e: SpecError, t: Seq<Seq<char>>, q: Set<Seq<char>>, g: Set<char>, n: nat) -> bool {
    match e {
        SpecError::TLen(_) => t.len() != 5,
        SpecError::TtsLen(_) => t.len() == 5 && (t[1].len() != n || t[2].len() != n || t[3].len() != n),
        SpecError::TInvalidState(st) => t.len() == 5 && !q.contains(st@) && (st@ == t[0] || st@ == t[4]),
        SpecError::TInvalidDirection => t.len() == 5 && exists|i: int|
            0 <= i < t[3].len() && (#[trigger] Direction::spec_from_char(t[3][i])) is None,
        SpecError::TGlob(x, y) => t.len() == 5 && x@ == t[1] && y@ == t[2] && exists|i: int|
            0 <= i < n && #[trigger] x@[i] != WILDCARD && y@[i] == WILDCARD,
        SpecError::TInvalidSymbol(ch) => t.len() == 5 && ch != WILDCARD && !g.contains(ch) && exists|i: int|
            0 <= i < n && (#[trigger] t[1][i] == ch || t[2][i] == ch),
        _ => false,
    }
}

/// Some name in `set` holds the character `ch`.
pub open spec fn names_hold(set: Set<Seq<char>>, ch: char) -> bool {
    exists|x: Seq<char>| set.contains(x) && #[trigger] x.contains(ch)
}

/// The declaration of `v` is a set where an atom is expected, or the
/// reverse.
pub open spec fn tm_shape_error(c: ConfigView, v: Seq<char>) -> bool {
    ||| (v == seq!['N'] && decl(c, v) is Items)
    ||| (v == seq!['q', '0'] && decl(c, v) is Items)
    ||| (v == seq!['B'] && decl(c, v) is Items)
    ||| (v == seq!['Q'] && decl(c, v) is Str)
    ||| (v == seq!['S'] && decl(c, v) is Str)
    ||| (v == seq!['G'] && decl(c, v) is Str)
    ||| (v == seq!['F'] && decl(c, v) is Str)
}

/// What an error says of declarations that it was raised on.
pub open spec fn tm_decl_error(e: SpecError, c: ConfigView) -> bool {
    let n = atom_of(decl(c, seq!['N']));
    let q = items_of(decl(c, seq!['Q']));
    let s = items_of(decl(c, seq!['S']));
    let g = items_of(decl(c, seq!['G']));
    let b = atom_of(decl(c, seq!['B']));
    let f = items_of(decl(c, seq!['F']));
    match e {
        SpecError::DeclItem(d) => c.store.dom() != tm_names() && str_set(d@) == decl_diff(c.store.dom(), tm_names()),
        SpecError::Type(v) => tm_shape_error(c, v@) || (v@ == n && !(n.len() > 0 && (forall|j: int|
            0 <= j < n.len() ==> is_digit(#[trigger] n[j])) && decimal(n) <= usize::MAX)),
        SpecError::TapeNumber => decimal(n) == 0,
        SpecError::QChar(ch) => (names_hold(q, ch) || names_hold(f, ch)) && !is_state_char(ch),
        SpecError::SChar(ch) => s.contains(seq![ch]) && !crate::decl::symbol_ok(seq![ch], false),
        SpecError::GChar(ch) => (g.contains(seq![ch]) && !crate::decl::symbol_ok(seq![ch], true)) || (b == seq![ch]
            && !is_symbol_char(ch)),
        SpecError::MultiCharSymbol(v) => (s.contains(v@) || g.contains(v@) || b == v@) && v@.len() != 1,
        SpecError::q0NotInQ => !q.contains(atom_of(decl(c, seq!['q', '0']))),
        SpecError::BNotInG => !symbols_of(g).contains(b[0]),
        SpecError::FNotSubsetQ => !f.subset_of(q),
        SpecError::SNotSubsetG => !symbols_of(s).subset_of(symbols_of(g)),
        _ => false,
    }
}

/// `rule` is what the tokens `t` describe.
pub open spec fn rule_from(rule: (TransL, TransR), t: Seq<Seq<char>>) -> bool {
    &&& rule.0.0@ == t[0]
    &&& rule.0.1@ == t[1]
    &&& rule.1.0@ == t[2]
    &&& rule.1.1@.len() == t[3].len()
    &&& forall|i: int| 0 <= i < t[3].len() ==> Direction::spec_from_char(t[3][i]) == Some(#[trigger] rule.1.1@[i])
    &&& rule.1.2@ == t[4]
}

/// The description is accepted.
pub open spec fn tm_config_ok(c: ConfigView) -> bool {
    &&& tm_decls_ok(c)
    &&& forall|k: int|
        0 <= k < c.trans.len() ==> tm_trans_ok(
            #[trigger] c.trans[k].1,
            items_of(decl(c, seq!['Q'])),
            symbols_of(items_of(decl(c, seq!['G']))),
            decimal(atom_of(decl(c, seq!['N']))),
        )
}

impl TuringMachine {
    /// The machine is the one the accepted configuration describes.
    pub open spec fn described_by(&self, c: ConfigView) -> bool {
        &&& self.spec_n() == decimal(atom_of(decl(c, seq!['N'])))
        &&& self.spec_q() == items_of(decl(c, seq!['Q']))
        &&& self.spec_s() == symbols_of(items_of(decl(c, seq!['S'])))
        &&& self.spec_g() == symbols_of(items_of(decl(c, seq!['G'])))
        &&& self.spec_q0() == atom_of(decl(c, seq!['q', '0']))
        &&& self.spec_b() == atom_of(decl(c, seq!['B']))[0]
        &&& self.spec_f() == items_of(decl(c, seq!['F']))
        &&& self.spec_delta().len() == c.trans.len()
        &&& forall|k: int| 0 <= k < c.trans.len() ==> rule_from(#[trigger] self.spec_delta()[k], c.trans[k].1)
    }
}

/// Lifts one transition's tokens to a rule, checking them against the
/// declared states, tape symbols and tape count.
fn build_rule(t: &Vec<String>, q: &Vec<State>, g: &Vec<TapeSymbol>, n: usize) -> (r: Result<(TransL, TransR), SpecError>)
    ensures
        r is Ok <==> tm_trans_ok(t@.map_values(|w: String| w@), str_set(q@), g@.to_set(), n as nat),
        r matches Ok(rule) ==> rule_from(rule, t@.map_values(|w: String| w@)),
        r matches Err(e) ==> tm_rule_error(e, t@.map_values(|w: String| w@), str_set(q@), g@.to_set(), n as nat),
{
    let ghost tv = t@.map_values(|w: String| w@);
    if t.len() != 5 {
        return Err(SpecError::TLen(t.clone()));
    }
    assert(tv[1] == t@[1]@ && tv[2] == t@[2]@ && tv[3] == t@[3]@ && tv[0] == t@[0]@ && tv[4] == t@[4]@);
    let x = chars_of(t[1].as_str());
    let y = chars_of(t[2].as_str());
    let d = chars_of(t[3].as_str());
    if x.len() != n || y.len() != n || d.len() != n {
        return Err(SpecError::TtsLen(t.clone()));
    }
    if !contains_str(q, &t[0]) {
        return Err(SpecError::TInvalidState(t[0].clone()));
    }
    if !contains_str(q, &t[4]) {
        return Err(SpecError::TInvalidState(t[4].clone()));
    }
    let mut dirs: Vec<Direction> = Vec::new();
    let mut i: usize = 0;
    while i < n
        invariant
            tv == t@.map_values(|w: String| w@),
            t@.len() == 5,
            x@ == tv[1],
            y@ == tv[2],
            d@ == tv[3],
            x@.len() == n,
            y@.len() == n,
            d@.len() == n,
            str_set(q@).contains(tv[0]),
            str_set(q@).contains(tv[4]),
            i <= n,
            dirs@.len() == i,
            forall|j: int| 0 <= j < i ==> Direction::spec_from_char(d@[j]) == Some(#[trigger] dirs@[j]),
        decreases n - i,
    {
        match Direction::try_from(d[i]) {
            Ok(dir) => dirs.push(dir),
            Err(()) => {
                assert(Direction::spec_from_char(tv[3][i as int]) is None);
                return Err(SpecError::TInvalidDirection);
            },
        }
        i = i + 1;
    }
    let mut i: usize = 0;
    while i < n
        invariant
            tv == t@.map_values(|w: String| w@),
            t@.len() == 5,
            x@ == tv[1],
            y@ == tv[2],
            d@ == tv[3],
            x@.len() == n,
            y@.len() == n,
            d@.len() == n,
            str_set(q@).contains(tv[0]),
            str_set(q@).contains(tv[4]),
            dirs@.len() == n,
            forall|j: int| 0 <= j < n ==> Direction::spec_from_char(d@[j]) == Some(#[trigger] dirs@[j]),
            i <= n,
            forall|j: int|
                0 <= j < i ==> {
                    &&& (#[trigger] x@[j] != WILDCARD ==> y@[j] != WILDCARD)
                    &&& (x@[j] == WILDCARD || g@.to_set().contains(x@[j]))
                    &&& (y@[j] == WILDCARD || g@.to_set().contains(y@[j]))
                },
        decreases n - i,
    {
        if x[i] != WILDCARD && y[i] == WILDCARD {
            let gx = t[1].clone();
            let gy = t[2].clone();
            assert(gx@[i as int] != WILDCARD && gy@[i as int] == WILDCARD);
            return Err(SpecError::TGlob(gx, gy));
        }
        if !contains_char(g, x[i]) && x[i] != WILDCARD {
            assert(!g@.to_set().contains(x[i as int]) && tv[1][i as int] == x[i as int]);
            return Err(SpecError::TInvalidSymbol(x[i]));
        }
        if !contains_char(g, y[i]) && y[i] != WILDCARD {
            assert(!g@.to_set().contains(y[i as int]) && tv[2][i as int] == y[i as int]);
            return Err(SpecError::TInvalidSymbol(y[i]));
        }
        assert(g@.contains(x@[i as int]) ==> g@.to_set().contains(x@[i as int]));
        assert(g@.contains(y@[i as int]) ==> g@.to_set().contains(y@[i as int]));
        i = i + 1;
    }
    assert forall|i: int| 0 <= i < n implies (#[trigger] Direction::spec_from_char(tv[3][i])) is Some by {
        assert(Direction::spec_from_char(d@[i]) == Some(dirs@[i]));
    }
    assert forall|i: int|
        0 <= i < n implies {
            &&& (#[trigger] tv[1][i] != WILDCARD ==> tv[2][i] != WILDCARD)
            &&& (tv[1][i] == WILDCARD || g@.to_set().contains(tv[1][i]))
            &&& (tv[2][i] == WILDCARD || g@.to_set().contains(tv[2][i]))
        } by {
        assert(x@[i] == tv[1][i]);
    }
    Ok(((t[0].clone(), x), (y, dirs, t[4].clone())))
}

fn symbol_error(e: SymbolError, input: bool) -> (r: SpecError)
    ensures
        match e {
            SymbolError::MultiChar(x) => r matches SpecError::MultiCharSymbol(y) && y@ == x@,
            SymbolError::BadChar(ch) => if input {
                r matches SpecError::SChar(d) && d == ch
            } else {
                r matches SpecError::GChar(d) && d == ch
            },
        },
{
    match e {
        SymbolError::MultiChar(x) => SpecError::MultiCharSymbol(x),
        SymbolError::BadChar(ch) => if input {
            SpecError::SChar(ch)
        } else {
            SpecError::GChar(ch)
        },
    }
}

impl TuringMachine {
    /// The machine a configuration's declarations describe, without rules.
    fn from_decls(c: &Config) -> (r: Result<TuringMachine, (Position, ParseError)>)
        ensures
            r is Ok <==> tm_decls_ok(c@),
            c@.store.dom() != tm_names() ==> (r matches Err((_, ParseError::Spec(SpecError::DeclItem(d))))
                && str_set(d@) == decl_diff(c@.store.dom(), tm_names())),
            r matches Ok(tm) ==> tm.spec_delta().len() == 0 && tm.described_by(
                ConfigView { store: c@.store, trans: Seq::empty() },
            ),
            r matches Err((_, e)) ==> (e matches ParseError::Spec(se) && tm_decl_error(se, c@)),
    {
        let n_name = name1('N');
        let q_name = name1('Q');
        let s_name = name1('S');
        let g_name = name1('G');
        let q0_name = name2('q', '0');
        let b_name = name1('B');
        let f_name = name1('F');
        let mut names: Vec<String> = Vec::new();
        names.push(n_name.clone());
        names.push(q_name.clone());
        names.push(s_name.clone());
        names.push(g_name.clone());
        names.push(q0_name.clone());
        names.push(b_name.clone());
        names.push(f_name.clone());
        proof {
            assert(str_set(names@) =~= tm_names()) by {
                assert forall|x: Seq<char>| tm_names().contains(x) implies str_set(names@).contains(x) by {
                    if x == seq!['N'] { assert(names@[0]@ == x); }
                    if x == seq!['Q'] { assert(names@[1]@ == x); }
                    if x == seq!['S'] { assert(names@[2]@ == x); }
                    if x == seq!['G'] { assert(names@[3]@ == x); }
                    if x == seq!['q', '0'] { assert(names@[4]@ == x); }
                    if x == seq!['B'] { assert(names@[5]@ == x); }
                    if x == seq!['F'] { assert(names@[6]@ == x); }
                }
            }
        }
        let diff = declared_mismatch(&c.store, &names);
        if diff.len() > 0 {
            proof {
                assert(str_set(diff@).contains(diff@[0]@));
                assert(c@.store.dom() != tm_names()) by {
                    if c@.store.dom() == tm_names() {
                        assert(decl_diff(c@.store.dom(), tm_names()) =~= Set::empty());
                    }
                }
            }
            return Err((Position::default(), ParseError::Spec(SpecError::DeclItem(diff))));
        }
        assert(c@.store.dom() =~= tm_names()) by {
            assert forall|x: Seq<char>| c@.store.dom().contains(x) <==> tm_names().contains(x) by {
                if c@.store.dom().contains(x) != tm_names().contains(x) {
                    assert(decl_diff(c@.store.dom(), tm_names()).contains(x));
                    let m = choose|m: int| 0 <= m < diff@.len() && diff@[m]@ == x;
                }
            }
        }
        // N
        let n_text = match atom_decl(c, &n_name) {
            Ok(v) => v,
            Err(p) => {
                return Err((p, ParseError::Spec(SpecError::Type(n_name.clone()))));
            },
        };
        let n = match parse_usize(n_text) {
            Some(n) => n,
            None => {
                let i = entry(c, &n_name);
                return Err((c.store[i].1.0.clone(), ParseError::Spec(SpecError::Type(n_text.clone()))));
            },
        };
        if n == 0 {
            let i = entry(c, &n_name);
            return Err((c.store[i].1.0.clone(), ParseError::Spec(SpecError::TapeNumber)));
        }
        // Q
        let q_items = match items_decl(c, &q_name) {
            Ok(v) => v,
            Err(p) => {
                return Err((p, ParseError::Spec(SpecError::Type(q_name.clone()))));
            },
        };
        match check_states(q_items) {
            Ok(()) => {},
            Err((bad, ch)) => {
                assert(items_of(decl(c@, seq!['Q'])).contains(bad@) && bad@.contains(ch));
                let i = entry(c, &q_name);
                return Err((c.store[i].1.0.clone(), ParseError::Spec(SpecError::QChar(ch))));
            },
        }
        // S
        let s_items = match items_decl(c, &s_name) {
            Ok(v) => v,
            Err(p) => {
                return Err((p, ParseError::Spec(SpecError::Type(s_name.clone()))));
            },
        };
        let s = match check_symbols(s_items, false) {
            Ok(v) => v,
            Err(e) => {
                let i = entry(c, &s_name);
                return Err((c.store[i].1.0.clone(), ParseError::Spec(symbol_error(e, true))));
            },
        };
        // G
        let g_items = match items_decl(c, &g_name) {
            Ok(v) => v,
            Err(p) => {
                return Err((p, ParseError::Spec(SpecError::Type(g_name.clone()))));
            },
        };
        let g = match check_symbols(g_items, true) {
            Ok(v) => v,
            Err(e) => {
                let i = entry(c, &g_name);
                return Err((c.store[i].1.0.clone(), ParseError::Spec(symbol_error(e, false))));
            },
        };
        // q0
        let q0 = match atom_decl(c, &q0_name) {
            Ok(v) => v,
            Err(p) => {
                return Err((p, ParseError::Spec(SpecError::Type(q0_name.clone()))));
            },
        };
        // B
        let b_text = match atom_decl(c, &b_name) {
            Ok(v) => v,
            Err(p) => {
                return Err((p, ParseError::Spec(SpecError::Type(b_name.clone()))));
            },
        };
        let b_chars = chars_of(b_text.as_str());
        if b_chars.len() != 1 {
            let i = entry(c, &b_name);
            return Err((c.store[i].1.0.clone(), ParseError::Spec(SpecError::MultiCharSymbol(b_text.clone()))));
        }
        let b = b_chars[0];
        assert(b_chars@ =~= seq![b]);
        if !valid_symbol_char(b) {
            let i = entry(c, &b_name);
            return Err((c.store[i].1.0.clone(), ParseError::Spec(SpecError::GChar(b))));
        }
        // F
        let f_items = match items_decl(c, &f_name) {
            Ok(v) => v,
            Err(p) => {
                return Err((p, ParseError::Spec(SpecError::Type(f_name.clone()))));
            },
        };
        match check_states(f_items) {
            Ok(()) => {},
            Err((bad, ch)) => {
                assert(items_of(decl(c@, seq!['F'])).contains(bad@) && bad@.contains(ch));
                let i = entry(c, &f_name);
                return Err((c.store[i].1.0.clone(), ParseError::Spec(SpecError::QChar(ch))));
            },
        }
        // how the declarations relate
        if !contains_str(q_items, q0) {
            return Err((Position::default(), ParseError::Spec(SpecError::q0NotInQ)));
        }
        if !contains_char(&g, b) {
            assert(!g@.to_set().contains(b));
            return Err((Position::default(), ParseError::Spec(SpecError::BNotInG)));
        }
        assert(g@.to_set().contains(b));
        if !subset_str(f_items, q_items) {
            return Err((Position::default(), ParseError::Spec(SpecError::FNotSubsetQ)));
        }
        if !subset_char(&s, &g) {
            return Err((Position::default(), ParseError::Spec(SpecError::SNotSubsetG)));
        }
        let tm = TuringMachine {
            n,
            q: copy_strings(q_items),
            s,
            g,
            q0: q0.clone(),
            b,
            f: copy_strings(f_items),
            delta: Vec::new(),
        };
        Ok(tm)
    }
}

/// The tokens `q read write dir p` that describe a rule.
fn rule_tokens(rule: &(TransL, TransR)) -> (r: Vec<String>)
    ensures
        r@.len() == 5,
{
    let mut dirs: Vec<char> = Vec::new();
    let mut i: usize = 0;
    while i < rule.1.1.len()
        invariant
            i <= rule.1.1@.len(),
        decreases rule.1.1@.len() - i,
    {
        dirs.push(rule.1.1[i].to_char());
        i = i + 1;
    }
    let mut r: Vec<String> = Vec::new();
    r.push(rule.0.0.clone());
    r.push(string_of(rule.0.1.as_slice()));
    r.push(string_of(rule.1.0.as_slice()));
    r.push(string_of(dirs.as_slice()));
    r.push(rule.1.2.clone());
    r
}

impl TuringMachine {
    /// Checks the machine's invariants, naming the first one that fails.
    pub fn validate(&self) -> (r: Result<(), SpecError>)
        ensures
            r is Ok <==> self.wf(),
    {
        if self.n < 1 {
            return Err(SpecError::TapeNumber);
        }
        if !subset_str(&self.f, &self.q) {
            return Err(SpecError::FNotSubsetQ);
        }
        if !subset_char(&self.s, &self.g) {
            return Err(SpecError::SNotSubsetG);
        }
        if !contains_str(&self.q, &self.q0) {
            return Err(SpecError::q0NotInQ);
        }
        if !contains_char(&self.g, self.b) {
            assert(!self.spec_g().contains(self.b));
            return Err(SpecError::BNotInG);
        }
        assert(self.spec_g().contains(self.b));
        if contains_char(&self.s, '_') {
            assert(self.spec_s().contains('_'));
            return Err(SpecError::SChar('_'));
        }
        assert(!self.spec_s().contains('_'));
        let mut k: usize = 0;
        while k < self.delta.len()
            invariant
                self.spec_n() >= 1,
                self.spec_q().contains(self.spec_q0()),
                self.spec_g().contains(self.spec_b()),
                self.spec_f().subset_of(self.spec_q()),
                self.spec_s().subset_of(self.spec_g()),
                !self.spec_s().contains('_'),
                k <= self.delta@.len(),
                forall|j: int| 0 <= j < k ==> self.rule_wf(#[trigger] self.spec_delta()[j]),
            decreases self.delta@.len() - k,
        {
            let rule = &self.delta[k];
            assert(*rule == self.spec_delta()[k as int]);
            if !contains_str(&self.q, &rule.0.0) {
                return Err(SpecError::TInvalidState(rule.0.0.clone()));
            }
            if !contains_str(&self.q, &rule.1.2) {
                return Err(SpecError::TInvalidState(rule.1.2.clone()));
            }
            if rule.0.1.len() != self.n || rule.1.0.len() != self.n || rule.1.1.len() != self.n {
                return Err(SpecError::TtsLen(rule_tokens(rule)));
            }
            let mut i: usize = 0;
            while i < self.n
                invariant
                    k < self.delta@.len(),
                    *rule == self.spec_delta()[k as int],
                    rule.0.1@.len() == self.spec_n(),
                    rule.1.0@.len() == self.spec_n(),
                    i <= self.n,
                    forall|j: int|
                        0 <= j < i ==> {
                            &&& (#[trigger] rule.0.1@[j] == WILDCARD || self.spec_g().contains(rule.0.1@[j]))
                            &&& (rule.1.0@[j] == WILDCARD || self.spec_g().contains(rule.1.0@[j]))
                            &&& (rule.0.1@[j] != WILDCARD ==> rule.1.0@[j] != WILDCARD)
                        },
                decreases self.n - i,
            {
                let x = rule.0.1[i];
                let y = rule.1.0[i];
                if x != WILDCARD && !contains_char(&self.g, x) {
                    assert(!self.spec_g().contains(x));
                    assert(rule.0.1@[i as int] == x);
                    assert(!self.rule_wf(self.spec_delta()[k as int]));
                    return Err(SpecError::TInvalidSymbol(x));
                }
                if y != WILDCARD && !contains_char(&self.g, y) {
                    assert(!self.spec_g().contains(y));
                    assert(rule.0.1@[i as int] == x);
                    assert(!self.rule_wf(self.spec_delta()[k as int]));
                    return Err(SpecError::TInvalidSymbol(y));
                }
                if x != WILDCARD && y == WILDCARD {
                    return Err(SpecError::TGlob(string_of(rule.0.1.as_slice()), string_of(rule.1.0.as_slice())));
                }
                assert(x == WILDCARD || self.spec_g().contains(x));
                assert(y == WILDCARD || self.spec_g().contains(y));
                i = i + 1;
            }
            k = k + 1;
        }
        Ok(())
    }
}

/// An accepted description yields a machine that satisfies its invariants.
proof fn lemma_described_wf(tm: TuringMachine, c: ConfigView)
    requires
        tm_config_ok(c),
        tm.described_by(c),
    ensures
        tm.wf(),
{
    let s = items_of(decl(c, seq!['S']));
    assert(!tm.spec_s().contains('_')) by {
        if tm.spec_s().contains('_') {
            assert(s.contains(seq!['_']));
            assert(symbols_ok(s, false));
            assert(crate::decl::symbol_ok(seq!['_'], false));
        }
    }
    assert forall|k: int| 0 <= k < tm.spec_delta().len() implies tm.rule_wf(#[trigger] tm.spec_delta()[k]) by {
        let t = c.trans[k].1;
        assert(tm_trans_ok(t, tm.spec_q(), tm.spec_g(), tm.spec_n()));
        assert(rule_from(tm.spec_delta()[k], t));
        let rule = tm.spec_delta()[k];
        assert forall|i: int| 0 <= i < tm.spec_n() implies {
            &&& (#[trigger] rule.0.1@[i] == WILDCARD || tm.spec_g().contains(rule.0.1@[i]))
            &&& (rule.1.0@[i] == WILDCARD || tm.spec_g().contains(rule.1.0@[i]))
            &&& (rule.0.1@[i] != WILDCARD ==> rule.1.0@[i] != WILDCARD)
        } by {
            assert(t[1][i] == rule.0.1@[i]);
        }
    }
}

impl TuringMachine {
    /// Builds a machine from its description, or says where and why the
    /// description is rejected.
    pub fn from_str(s: &str) -> (r: Result<TuringMachine, (Position, ParseError)>)
        ensures
            match spec_parse(s@, 5) {
                Err((p, e)) => (r matches Err((p2, ParseError::Syntax(e2))) && p2@ == p && e2 == e),
                Ok(c) => {
                    &&& (r is Ok <==> tm_config_ok(c))
                    &&& (c.store.dom() != tm_names() ==> (r matches Err((_, ParseError::Spec(SpecError::DeclItem(d))))
                        && str_set(d@) == decl_diff(c.store.dom(), tm_names())))
                    &&& (r matches Ok(tm) ==> tm.wf() && tm.described_by(c))
                    &&& (r matches Err((p, e)) ==> e matches ParseError::Spec(se) && ((!tm_decls_ok(c)
                        && tm_decl_error(se, c)) || (tm_decls_ok(c) && exists|k: int|
                        0 <= k < c.trans.len() && p@ == c.trans[k].0 && tm_rule_error(
                            se,
                            #[trigger] c.trans[k].1,
                            items_of(decl(c, seq!['Q'])),
                            symbols_of(items_of(decl(c, seq!['G']))),
                            decimal(atom_of(decl(c, seq!['N']))),
                        ) && forall|j: int|
                            0 <= j < k ==> tm_trans_ok(
                                #[trigger] c.trans[j].1,
                                items_of(decl(c, seq!['Q'])),
                                symbols_of(items_of(decl(c, seq!['G']))),
                                decimal(atom_of(decl(c, seq!['N']))),
                            ))))
                },
            },
    {
        let c = match parse(s, 5) {
            Ok(c) => c,
            Err((p, e)) => {
                return Err((p, ParseError::Syntax(e)));
            },
        };
        let mut tm = Self::from_decls(&c)?;
        let ghost q = tm.spec_q();
        let ghost g = tm.spec_g();
        let ghost n = tm.spec_n();
        let mut k: usize = 0;
        while k < c.trans.len()
            invariant
                spec_parse(s@, 5) == Ok::<ConfigView, ((Seq<char>, nat, nat), crate::parse::ParseError)>(c@),
                tm_decls_ok(c@),
                tm.described_by(ConfigView { store: c@.store, trans: c@.trans.take(k as int) }),
                q == items_of(decl(c@, seq!['Q'])),
                g == symbols_of(items_of(decl(c@, seq!['G']))),
                n == decimal(atom_of(decl(c@, seq!['N']))),
                k <= c.trans@.len(),
                forall|j: int| 0 <= j < k ==> tm_trans_ok(#[trigger] c@.trans[j].1, q, g, n),
            decreases c.trans@.len() - k,
        {
            let entry = &c.trans[k];
            assert(c@.trans[k as int].1 == entry.1@.map_values(|w: String| w@));
            match build_rule(&entry.1, &tm.q, &tm.g, tm.n) {
                Ok(rule) => {
                    let ghost before = tm.delta@;
                    tm.delta.push(rule);
                    assert(tm.delta@ =~= before.push(rule));
                    assert forall|j: int| 0 <= j < k + 1 implies rule_from(
                        #[trigger] tm.spec_delta()[j],
                        c@.trans.take(k as int + 1)[j].1,
                    ) by {
                        if j < k {
                            assert(c@.trans.take(k as int + 1)[j] == c@.trans.take(k as int)[j]);
                            assert(tm.spec_delta()[j] == before[j]);
                        }
                    }
                },
                Err(e) => {
                    proof {
                        assert(!tm_trans_ok(c@.trans[k as int].1, q, g, n));
                        assert(!tm_config_ok(c@));
                    }
                    let p = entry.0.duplicate();
                    assert(p@ == c@.trans[k as int].0);
                    return Err((p, ParseError::Spec(e)));
                },
            }
            k = k + 1;
        }
        assert(c@.trans.take(c@.trans.len() as int) =~= c@.trans);
        proof {
            lemma_described_wf(tm, c@);
        }
        Ok(tm)
    }
}

impl std::str::FromStr for TuringMachine {
    type Err = (Position, ParseError);

    fn from_str(s: &str) -> Result<TuringMachine, (Position, ParseError)> {
        TuringMachine::from_str(s)
    }
}

/// A rule that matches never reads the wildcard where the head is on a blank.
pub proof fn lemma_wildcard_skips_blank(tm: TuringMachine, q: Seq<char>, content: Seq<char>, k: int)
    requires
        tm.wf(),
        0 <= k < tm.spec_delta().len(),
        rule_matches(tm.spec_delta()[k], q, content, tm.spec_b()),
    ensures
        forall|i: int|
            0 <= i < content.len() && #[trigger] tm.spec_delta()[k].0.1@[i] == WILDCARD ==> content[i]
                != tm.spec_b(),
{
    assert forall|i: int|
        0 <= i < content.len() && #[trigger] tm.spec_delta()[k].0.1@[i] == WILDCARD implies content[i]
            != tm.spec_b() by {
        assert(slot_matches(tm.spec_delta()[k].0.1@[i], content[i], tm.spec_b()));
    }
}

/// For a given state and symbols under the heads, at most one rule is the
/// first match: the choice of rule depends on nothing else.
pub proof fn lemma_first_match_unique(tm: TuringMachine, q: Seq<char>, content: Seq<char>, k1: int, k2: int)
    requires
        tm.is_first_match(q, content, k1),
        tm.is_first_match(q, content, k2),
    ensures
        k1 == k2,
{
    if k1 < k2 {
        assert(!rule_matches(tm.spec_delta()[k1], q, content, tm.spec_b()));
    } else if k2 < k1 {
        assert(!rule_matches(tm.spec_delta()[k2], q, content, tm.spec_b()));
    }
}

proof fn lemma_strip_front_done(t: Seq<char>, b: char)
    ensures
        strip_front(t, b).len() <= t.len(),
        strip_front(t, b).len() == 0 || strip_front(t, b)[0] != b,
        strip_front(t, b) =~= t.subrange(t.len() - strip_front(t, b).len(), t.len() as int),
    decreases t.len(),
{
    if t.len() > 0 && t[0] == b {
        lemma_strip_front_done(t.drop_first(), b);
    }
}

proof fn lemma_strip_back_done(t: Seq<char>, b: char)
    ensures
        strip_back(t, b).len() <= t.len(),
        strip_back(t, b).len() == 0 || strip_back(t, b).last() != b,
        strip_back(t, b) =~= t.subrange(0, strip_back(t, b).len() as int),
    decreases t.len(),
{
    if t.len() > 0 && t.last() == b {
        lemma_strip_back_done(t.drop_last(), b);
    }
}

/// Stripping the outer blanks of an already stripped tape changes nothing.
pub proof fn lemma_strip_blanks_idempotent(t: Seq<char>, b: char)
    ensures
        strip_blanks(strip_blanks(t, b), b) == strip_blanks(t, b),
{
    let f = strip_front(t, b);
    let r = strip_back(f, b);
    lemma_strip_front_done(t, b);
    lemma_strip_back_done(f, b);
    assert(r.len() == 0 || r[0] == f[0]);
    assert(strip_front(r, b) == r);
    assert(strip_back(r, b) == r);
}

/// A left move with the head at the front of its buffer adds a blank in
/// front, keeps the offset at 0 and lowers the logical index by one.
pub proof fn lemma_left_at_front(tape: Seq<char>, index: int, sym: char, b: char)
    requires
        tape.len() > 0,
    ensures
        shift(tape, (index, 0), sym, Direction::Left, b) == (seq![b] + tape.update(0, sym), (index - 1, 0int)),
        moved(tape, (index, 0), sym, Direction::Left, b).1 == (index - 1, 0int),
        moved(tape, (index, 0), sym, Direction::Left, b).0[0] == b,
{
    let t1 = seq![b] + tape.update(0, sym);
    lemma_trim_back(t1, 0, b);
}

/// A right move with the head on the last cell of its buffer adds a blank at
/// the back, and the head moves onto it.
pub proof fn lemma_right_at_back(tape: Seq<char>, index: int, sym: char, b: char)
    requires
        tape.len() > 0,
    ensures
        shift(tape, (index, tape.len() - 1), sym, Direction::Right, b) == (
            tape.update(tape.len() - 1, sym).push(b),
            (index + 1, tape.len() as int),
        ),
        moved(tape, (index, tape.len() - 1), sym, Direction::Right, b).1.0 == index + 1,
        moved(tape, (index, tape.len() - 1), sym, Direction::Right, b).1.1 + 1
            == moved(tape, (index, tape.len() - 1), sym, Direction::Right, b).0.len(),
        moved(tape, (index, tape.len() - 1), sym, Direction::Right, b).0.last() == b,
{
    let t1 = tape.update(tape.len() - 1, sym).push(b);
    let off = tape.len() as int;
    assert(trim_back(t1, off, b) == t1);
    lemma_trim_front(t1, off, b);
}

#[derive(Debug, Clone)]
pub enum Exception {
    /// The input holds a character outside the input alphabet at `offset`.
    InvalidInput { input: String, offset: usize },
    /// No rule applies; carries tape 0 without its outer blanks.
    Reject(String),
    /// The machine is in a final state; carries tape 0 without its outer blanks.
    Accept(String),
}

/// A running Turing machine: its tapes, heads and control state.
#[derive(Clone, Debug)]
pub struct ArchState {
    tm: TuringMachine,
    step: usize,
    state: State,
    tapes: Vec<VecDeque<TapeSymbol>>,
    /// (logical index on the unbounded tape, offset in the buffer)
    heads: Vec<(isize, usize)>,
    halt: bool,
}

impl ArchState {
    pub closed spec fn spec_tm(&self) -> TuringMachine {
        self.tm
    }

    pub closed spec fn spec_step(&self) -> nat {
        self.step as nat
    }

    pub closed spec fn spec_state(&self) -> Seq<char> {
        self.state@
    }

    pub closed spec fn spec_tapes(&self) -> Seq<Seq<char>> {
        self.tapes@.map_values(|t: VecDeque<TapeSymbol>| t@)
    }

    pub closed spec fn spec_heads(&self) -> Seq<(int, int)> {
        self.heads@.map_values(|h: (isize, usize)| head_view(h))
    }

    pub closed spec fn spec_halted(&self) -> bool {
        self.halt
    }

    pub open spec fn inv(&self) -> bool {
        &&& self.spec_tm().wf()
        &&& self.spec_tapes().len() == self.spec_tm().spec_n()
        &&& self.spec_heads().len() == self.spec_tm().spec_n()
        &&& forall|i: int|
            0 <= i < self.spec_tm().spec_n() ==> 0 <= #[trigger] self.spec_heads()[i].1
                < self.spec_tapes()[i].len()
        &&& forall|i: int|
            0 <= i < self.spec_tm().spec_n() ==> -self.spec_step() <= #[trigger] self.spec_heads()[i].0
                <= self.spec_step()
    }

    /// The symbols under the heads.
    pub open spec fn content(&self) -> Seq<char> {
        Seq::new(
            self.spec_tm().spec_n(),
            |i: int| self.spec_tapes()[i][self.spec_heads()[i].1],
        )
    }

    pub open spec fn is_final(&self) -> bool {
        self.spec_tm().spec_f().contains(self.spec_state())
    }

    /// Tape 0 without its leading and trailing blanks.
    pub open spec fn spec_result(&self) -> Seq<char> {
        strip_blanks(self.spec_tapes()[0], self.spec_tm().spec_b())
    }

    /// `next` is this state after firing rule `k` on the current content.
    pub open spec fn applied(&self, k: int, next: ArchState) -> bool {
        let rule = self.spec_tm().spec_delta()[k];
        let w = emitted(rule, self.content());
        &&& next.spec_tm() == self.spec_tm()
        &&& next.spec_state() == rule.1.2@
        &&& next.spec_step() == self.spec_step() + 1
        &&& next.spec_halted() == self.spec_halted()
        &&& next.spec_tapes().len() == self.spec_tapes().len()
        &&& next.spec_heads().len() == self.spec_heads().len()
        &&& forall|i: int|
            0 <= i < self.spec_tm().spec_n() ==> (next.spec_tapes()[i], #[trigger] next.spec_heads()[i])
                == moved(self.spec_tapes()[i], self.spec_heads()[i], w[i], rule.1.1@[i], self.spec_tm().spec_b())
    }

    /// `next` is this state, halted.
    pub open spec fn halted_as(&self, next: ArchState) -> bool {
        &&& next.spec_tm() == self.spec_tm()
        &&& next.spec_state() == self.spec_state()
        &&& next.spec_step() == self.spec_step()
        &&& next.spec_tapes() == self.spec_tapes()
        &&& next.spec_heads() == self.spec_heads()
        &&& next.spec_halted()
    }

    /// A machine at its initial state with every tape a single blank.
    pub fn new(tm: TuringMachine) -> (r: Self)
        requires
            tm.wf(),
        ensures
            r.inv(),
            r.spec_tm() == tm,
            r.spec_step() == 0,
            r.spec_state() == tm.spec_q0(),
            !r.spec_halted(),
            forall|i: int| 0 <= i < tm.spec_n() ==> #[trigger] r.spec_tapes()[i] == seq![tm.spec_b()],
            forall|i: int| 0 <= i < tm.spec_n() ==> #[trigger] r.spec_heads()[i] == (0int, 0int),
    {
        let n = tm.N();
        let q0 = tm.q0().clone();
        let b = tm.B();
        let mut tapes: Vec<VecDeque<TapeSymbol>> = Vec::new();
        let mut heads: Vec<(isize, usize)> = Vec::new();
        let mut i: usize = 0;
        while i < n
            invariant
                i <= n,
                tapes@.len() == i,
                heads@.len() == i,
                forall|j: int| 0 <= j < i ==> #[trigger] tapes@[j]@ == seq![b],
                forall|j: int| 0 <= j < i ==> #[trigger] heads@[j] == (0isize, 0usize),
            decreases n - i,
        {
            let mut t: VecDeque<TapeSymbol> = VecDeque::new();
            t.push_back(b);
            tapes.push(t);
            heads.push((0, 0));
            i = i + 1;
        }
        let r = ArchState { tm, step: 0, state: q0, tapes, heads, halt: false };
        assert(r.spec_tapes().len() == n);
        r
    }

    /// Puts the input on tape 0 (a single blank when it is empty), with its
    /// head at the origin.
    pub fn input(&mut self, s: &str) -> (r: Result<(), Exception>)
        requires
            old(self).inv(),
        ensures
            final(self).inv(),
            r is Ok <==> (forall|i: int| 0 <= i < s@.len() ==> old(self).spec_tm().spec_s().contains(#[trigger] s@[i])),
            r matches Err(e) ==> *final(self) == *old(self) && match e {
                Exception::InvalidInput { input, offset } => {
                    &&& input@ == s@
                    &&& offset < s@.len()
                    &&& !old(self).spec_tm().spec_s().contains(s@[offset as int])
                    &&& forall|j: int| 0 <= j < offset ==> old(self).spec_tm().spec_s().contains(#[trigger] s@[j])
                },
                _ => false,
            },
            r is Ok ==> {
                &&& final(self).spec_tm() == old(self).spec_tm()
                &&& final(self).spec_state() == old(self).spec_state()
                &&& final(self).spec_step() == old(self).spec_step()
                &&& final(self).spec_halted() == old(self).spec_halted()
                &&& final(self).spec_tapes() == old(self).spec_tapes().update(
                    0,
                    if s@.len() == 0 { seq![old(self).spec_tm().spec_b()] } else { s@ },
                )
                &&& final(self).spec_heads() == old(self).spec_heads().update(0, (0int, 0int))
            },
    {
        match self.tm.input_valid(s) {
            Ok(()) => {},
            Err(offset) => {
                return Err(Exception::InvalidInput { input: s.to_owned(), offset });
            },
        }
        let chars = crate::text::chars_of(s);
        let mut t: VecDeque<TapeSymbol> = VecDeque::new();
        let mut i: usize = 0;
        while i < chars.len()
            invariant
                i <= chars.len(),
                t@ == chars@.take(i as int),
            decreases chars.len() - i,
        {
            t.push_back(chars[i]);
            i = i + 1;
            assert(t@ =~= chars@.take(i as int));
        }
        assert(t@ =~= chars@);
        if t.len() == 0 {
            t.push_back(self.tm.B());
        }
        assert(t@ == if s@.len() == 0 { seq![old(self).spec_tm().spec_b()] } else { s@ });
        self.tapes.set(0, t);
        self.heads.set(0, (0, 0));
        assert(self.spec_tapes() =~= old(self).spec_tapes().update(
            0,
            if s@.len() == 0 { seq![old(self).spec_tm().spec_b()] } else { s@ },
        ));
        assert(self.spec_heads() =~= old(self).spec_heads().update(0, (0int, 0int)));
        Ok(())
    }

    /// Tape 0 without its leading and trailing blanks.
    fn stripped_tape0(&self) -> (r: String)
        requires
            self.inv(),
        ensures
            r@ == self.spec_result(),
    {
        let b = self.tm.B();
        let mut t = self.tapes[0].clone();
        assert(t@ =~= self.spec_tapes()[0]);
        while t.len() > 0 && t[0] == b
            invariant
                strip_front(t@, b) == strip_front(self.spec_tapes()[0], b),
            decreases t@.len(),
        {
            let ghost prev = t@;
            let _ = t.pop_front();
            assert(t@ =~= prev.drop_first());
        }
        let ghost front = t@;
        while t.len() > 0 && t[t.len() - 1] == b
            invariant
                strip_back(t@, b) == strip_back(front, b),
            decreases t@.len(),
        {
            let ghost prev = t@;
            let _ = t.pop_back();
            assert(t@ =~= prev.drop_last());
        }
        let mut v: Vec<char> = Vec::new();
        let mut i: usize = 0;
        while i < t.len()
            invariant
                i <= t@.len(),
                v@ == t@.take(i as int),
            decreases t@.len() - i,
        {
            v.push(t[i]);
            i = i + 1;
            assert(v@ =~= t@.take(i as int));
        }
        assert(v@ =~= t@);
        string_of(v.as_slice())
    }

    /// Tape 0 without its outer blanks, once the machine has halted.
    pub fn result(&self) -> (r: Option<String>)
        requires
            self.inv(),
        ensures
            r is Some <==> self.spec_halted(),
            r matches Some(s) ==> s@ == self.spec_result(),
    {
        if self.halt {
            Some(self.stripped_tape0())
        } else {
            None
        }
    }

    pub fn machine(&self) -> (r: &TuringMachine)
        ensures
            *r == self.spec_tm(),
    {
        &self.tm
    }

    /// The number of steps taken.
    pub fn steps(&self) -> (r: usize)
        ensures
            r == self.spec_step(),
    {
        self.step
    }

    pub fn state(&self) -> (r: &State)
        ensures
            r@ == self.spec_state(),
    {
        &self.state
    }

    pub fn halted(&self) -> (r: bool)
        ensures
            r == self.spec_halted(),
    {
        self.halt
    }

    /// The buffer of tape `i`.
    pub fn tape(&self, i: usize) -> (r: Vec<TapeSymbol>)
        requires
            self.inv(),
            i < self.spec_tm().spec_n(),
        ensures
            r@ == self.spec_tapes()[i as int],
    {
        let t = &self.tapes[i];
        let mut v: Vec<TapeSymbol> = Vec::new();
        let mut j: usize = 0;
        while j < t.len()
            invariant
                j <= t@.len(),
                v@ == t@.take(j as int),
            decreases t@.len() - j,
        {
            v.push(t[j]);
            j = j + 1;
            assert(v@ =~= t@.take(j as int));
        }
        assert(v@ =~= t@);
        v
    }

    /// The head of tape `i`: (logical index, offset in the buffer).
    pub fn head(&self, i: usize) -> (r: (isize, usize))
        requires
            self.inv(),
            i < self.spec_tm().spec_n(),
        ensures
            head_view(r) == self.spec_heads()[i as int],
    {
        self.heads[i]
    }

    /// One step: halt in a final state, or fire the first matching rule on
    /// every tape, or halt when none matches.
    pub fn step(&mut self) -> (r: Result<(), Exception>)
        requires
            old(self).inv(),
            old(self).spec_step() < isize::MAX,
        ensures
            final(self).inv(),
            match r {
                Ok(()) => {
                    &&& !old(self).is_final()
                    &&& exists|k: int|
                        #[trigger] old(self).spec_tm().is_first_match(old(self).spec_state(), old(self).content(), k)
                            && old(self).applied(k, *final(self))
                    &&& forall|i: int|
                        0 <= i < final(self).spec_tm().spec_n() ==> is_trimmed(
                            #[trigger] final(self).spec_tapes()[i],
                            final(self).spec_heads()[i].1,
                            final(self).spec_tm().spec_b(),
                        )
                },
                Err(Exception::Accept(s)) => {
                    &&& old(self).is_final()
                    &&& s@ == old(self).spec_result()
                    &&& old(self).halted_as(*final(self))
                },
                Err(Exception::Reject(s)) => {
                    &&& !old(self).is_final()
                    &&& forall|k: int|
                        0 <= k < old(self).spec_tm().spec_delta().len() ==> !rule_matches(
                            #[trigger] old(self).spec_tm().spec_delta()[k],
                            old(self).spec_state(),
                            old(self).content(),
                            old(self).spec_tm().spec_b(),
                        )
                    &&& s@ == old(self).spec_result()
                    &&& old(self).halted_as(*final(self))
                },
                Err(Exception::InvalidInput { .. }) => false,
            },
    {
        if contains_str(&self.tm.f, &self.state) {
            self.halt = true;
            let s = self.stripped_tape0();
            return Err(Exception::Accept(s));
        }
        let n = self.tm.N();
        let mut content: Vec<TapeSymbol> = Vec::new();
        let mut i: usize = 0;
        while i < n
            invariant
                self.inv(),
                n == self.spec_tm().spec_n(),
                i <= n,
                content@ == self.content().take(i as int),
            decreases n - i,
        {
            let off = self.heads[i].1;
            assert(self.spec_heads()[i as int].1 == off);
            content.push(self.tapes[i][off]);
            i = i + 1;
            assert(content@ =~= self.content().take(i as int));
        }
        assert(content@ =~= self.content());
        match self.tm.get(&self.state, content.as_slice()) {
            Some((nts, dirs, p)) => {
                let ghost k = choose|k: int|
                    #[trigger] self.spec_tm().is_first_match(self.spec_state(), self.content(), k)
                        && nts@ == emitted(self.spec_tm().spec_delta()[k], self.content())
                        && dirs@ == self.spec_tm().spec_delta()[k].1.1@
                        && p@ == self.spec_tm().spec_delta()[k].1.2@;
                proof {
                    assert(self.spec_tm().rule_wf(self.spec_tm().spec_delta()[k]));
                }
                let b = self.tm.B();
                let mut new_tapes: Vec<VecDeque<TapeSymbol>> = Vec::new();
                let mut new_heads: Vec<(isize, usize)> = Vec::new();
                let mut i: usize = 0;
                while i < n
                    invariant
                        self.inv(),
                        self.spec_step() < isize::MAX,
                        n == self.spec_tm().spec_n(),
                        b == self.spec_tm().spec_b(),
                        nts@ == emitted(self.spec_tm().spec_delta()[k], self.content()),
                        dirs@ == self.spec_tm().spec_delta()[k].1.1@,
                        nts@.len() == n,
                        dirs@.len() == n,
                        i <= n,
                        new_tapes@.len() == i,
                        new_heads@.len() == i,
                        forall|j: int|
                            0 <= j < i ==> (#[trigger] new_tapes@[j]@, head_view(new_heads@[j])) == moved(
                                self.spec_tapes()[j],
                                self.spec_heads()[j],
                                nts@[j],
                                dirs@[j],
                                b,
                            ),
                        forall|j: int|
                            0 <= j < i ==> -(self.spec_step() + 1) <= #[trigger] new_heads@[j].0 <= self.spec_step() + 1,
                    decreases n - i,
                {
                    let mut t = self.tapes[i].clone();
                    assert(t@ =~= self.spec_tapes()[i as int]);
                    let mut h = self.heads[i];
                    assert(head_view(h) == self.spec_heads()[i as int]);
                    move_tape(&mut t, &mut h, nts[i], dirs[i], b);
                    new_tapes.push(t);
                    new_heads.push(h);
                    i = i + 1;
                }
                let ghost old_self = *self;
                self.tapes = new_tapes;
                self.heads = new_heads;
                self.state = p;
                self.step = self.step + 1;
                proof {
                    assert forall|i: int| 0 <= i < n implies is_trimmed(
                        #[trigger] self.spec_tapes()[i],
                        self.spec_heads()[i].1,
                        b,
                    ) && 0 <= self.spec_heads()[i].1 < self.spec_tapes()[i].len() by {
                        lemma_moved_trimmed(old_self.spec_tapes()[i], old_self.spec_heads()[i], nts@[i], dirs@[i], b);
                    }
                    assert(old_self.applied(k, *self));
                }
                Ok(())
            },
            None => {
                self.halt = true;
                let s = self.stripped_tape0();
                Err(Exception::Reject(s))
            },
        }
    }
}

} // verus!
