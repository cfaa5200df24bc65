//! The lexer: comments, declarations `#NAME = VALUE` and transition lines.
use vstd::prelude::*;
use crate::text::{
    chars_of, copy_range, find_char, find_first, is_alnum, is_graphic, lines_of, split_chars,
    split_on, str_set, string_of, text_lines, trim, trim_chars, views, words, words_of, alnum,
    graphic, lemma_trim_len,
};

verus! {

#[derive(Debug, Clone)]
pub enum Value {
    Str(String),
    Items(Vec<String>),
}

/// What a declaration's value denotes: an atom, or a set of items.
pub enum ValueView {
    Str(Seq<char>),
    Items(Set<Seq<char>>),
}

impl View for Value {
    type V = ValueView;

    open spec fn view(&self) -> ValueView {
        match self {
            Value::Str(s) => ValueView::Str(s@),
            Value::Items(v) => ValueView::Items(str_set(v@)),
        }
    }
}

impl Default for Value {
    fn default() -> (r: Self)
        ensures
            r@ == ValueView::Str(Seq::empty()),
    {
        Value::Str(String::new())
    }
}

/// Where a diagnostic points: the raw line, its 0-based row and column.
#[derive(Clone, Debug)]
pub struct Position {
    pub inst: String,
    pub row: usize,
    pub col: usize,
}

impl View for Position {
    type V = (Seq<char>, nat, nat);

    open spec fn view(&self) -> (Seq<char>, nat, nat) {
        (self.inst@, self.row as nat, self.col as nat)
    }
}

impl Position {
    /// A copy of this position.
    pub fn duplicate(&self) -> (r: Position)
        ensures
            r@ == self@,
    {
        Position { inst: self.inst.clone(), row: self.row, col: self.col }
    }
}

impl Default for Position {
    fn default() -> (r: Self)
        ensures
            r@ == (Seq::<char>::empty(), 0nat, 0nat),
    {
        Position { inst: String::new(), row: 0, col: 0 }
    }
}

/// Declarations by name; a later entry for a name overrides earlier ones.
pub type KVStore = Vec<(String, (Position, Value))>;

#[derive(Debug)]
pub struct Config {
    pub store: KVStore,
    pub trans: Vec<(Position, Vec<String>)>,
}

pub struct ConfigView {
    pub store: Map<Seq<char>, ((Seq<char>, nat, nat), ValueView)>,
    pub trans: Seq<((Seq<char>, nat, nat), Seq<Seq<char>>)>,
}

pub open spec fn store_map(st: Seq<(String, (Position, Value))>) -> Map<
    Seq<char>,
    ((Seq<char>, nat, nat), ValueView),
>
    decreases st.len(),
{
    if st.len() == 0 {
        Map::empty()
    } else {
        store_map(st.drop_last()).insert(st.last().0@, (st.last().1.0@, st.last().1.1@))
    }
}

pub open spec fn trans_view(t: Seq<(Position, Vec<String>)>) -> Seq<((Seq<char>, nat, nat), Seq<Seq<char>>)> {
    t.map_values(|e: (Position, Vec<String>)| (e.0@, e.1@.map_values(|w: String| w@)))
}

impl View for Config {
    type V = ConfigView;

    open spec fn view(&self) -> ConfigView {
        ConfigView { store: store_map(self.store@), trans: trans_view(self.trans@) }
    }
}

#[derive(Debug, Clone, Copy, PartialEq, Eq, Structural)]
pub enum ParseErrorKV {
    Unknown,
    Str,
    Items,
}

#[derive(Debug, Clone, Copy, PartialEq, Eq, Structural)]
pub enum ParseError {
    KV(ParseErrorKV),
    Trans,
}

pub open spec fn is_state_char(c: char) -> bool {
    is_alnum(c) || c == '_'
}

pub open spec fn is_symbol_char(c: char) -> bool {
    is_graphic(c) && c != ',' && c != ';' && c != '{' && c != '}' && c != '*'
}

pub open spec fn is_item_char(c: char) -> bool {
    is_graphic(c) && c != ',' && c != ';' && c != '{' && c != '}'
}

pub fn valid_state_char(c: char) -> (r: bool)
    ensures
        r == is_state_char(c),
{
    alnum(c) || c == '_'
}

pub fn valid_symbol_char(c: char) -> (r: bool)
    ensures
        r == is_symbol_char(c),
{
    graphic(c) && c != ',' && c != ';' && c != '{' && c != '}' && c != '*'
}

fn valid_item_char(c: char) -> (r: bool)
    ensures
        r == is_item_char(c),
{
    graphic(c) && c != ',' && c != ';' && c != '{' && c != '}'
}

/// The items of a braced value `{ a, b }`, each trimmed.
pub open spec fn set_items(s: Seq<char>) -> Seq<Seq<char>> {
    split_on(s.subrange(1, s.len() - 1), ',').map_values(|it: Seq<char>| trim(it))
}

/// A value read as a set: `Err(false)` when it is not braced, `Err(true)`
/// when it is braced but an item holds a character no item may hold.
pub open spec fn set_value(v: Seq<char>) -> Result<Set<Seq<char>>, bool> {
    let s = trim(v);
    if s.len() < 2 || s[0] != '{' || s.last() != '}' {
        Err(false)
    } else if forall|i: int, j: int|
        0 <= i < set_items(s).len() && 0 <= j < set_items(s)[i].len() ==> is_item_char(
            #[trigger] set_items(s)[i][j],
        ) {
        Ok(set_items(s).to_set())
    } else {
        Err(true)
    }
}

/// `i` is the first position in `s` that no atom may hold.
pub open spec fn is_first_bad_atom(s: Seq<char>, i: int) -> bool {
    &&& 0 <= i < s.len()
    &&& !is_state_char(s[i])
    &&& forall|j: int| 0 <= j < i ==> is_state_char(s[j])
}

/// A value read as an atom, or the column of its first offending character.
pub open spec fn atom_value(v: Seq<char>) -> Result<Seq<char>, nat> {
    let s = trim(v);
    if s.len() == 0 {
        Err(0)
    } else if exists|i: int| is_first_bad_atom(s, i) {
        Err((choose|i: int| is_first_bad_atom(s, i)) as nat)
    } else {
        Ok(s)
    }
}

fn parse_set(line: &[char]) -> (r: Result<Vec<String>, (bool, usize)>)
    ensures
        match r {
            Ok(v) => set_value(line@) == Ok::<Set<Seq<char>>, bool>(str_set(v@)),
            Err((confident, col)) => set_value(line@) == Err::<Set<Seq<char>>, bool>(confident) && col == 0,
        },
{
    let s = trim_chars(line);
    if s.len() < 2 || s[0] != '{' || s[s.len() - 1] != '}' {
        return Err((false, 0));
    }
    let inner = copy_range(s.as_slice(), 1, s.len() - 1);
    let pieces = split_chars(inner.as_slice(), ',');
    let ghost items = set_items(s@);
    assert(views(pieces@) == split_on(s@.subrange(1, s@.len() - 1), ','));
    let mut out: Vec<String> = Vec::new();
    let mut i: usize = 0;
    while i < pieces.len()
        invariant
            s@ == trim(line@),
            s@.len() >= 2 && s@[0] == '{' && s@.last() == '}',
            items == set_items(s@),
            views(pieces@) == split_on(s@.subrange(1, s@.len() - 1), ','),
            items.len() == pieces@.len(),
            i <= pieces@.len(),
            out@.len() == i,
            forall|k: int| 0 <= k < i ==> #[trigger] out@[k]@ == items[k],
            forall|k: int, j: int|
                0 <= k < i && 0 <= j < items[k].len() ==> is_item_char(#[trigger] items[k][j]),
        decreases pieces@.len() - i,
    {
        let item = trim_chars(pieces[i].as_slice());
        assert(pieces@[i as int]@ == split_on(s@.subrange(1, s@.len() - 1), ',')[i as int]);
        assert(item@ == items[i as int]);
        let mut j: usize = 0;
        while j < item.len()
            invariant
                s@ == trim(line@),
                s@.len() >= 2 && s@[0] == '{' && s@.last() == '}',
                items == set_items(s@),
                i < items.len(),
                item@ == items[i as int],
                j <= item@.len(),
                forall|m: int| 0 <= m < j ==> is_item_char(#[trigger] item@[m]),
            decreases item@.len() - j,
        {
            if !valid_item_char(item[j]) {
                assert(!is_item_char(items[i as int][j as int]));
                return Err((true, 0));
            }
            j = j + 1;
        }
        out.push(string_of(item.as_slice()));
        i = i + 1;
    }
    proof {
        assert forall|x: Seq<char>| str_set(out@).contains(x) <==> items.to_set().contains(x) by {
            if items.to_set().contains(x) {
                let k = choose|k: int| 0 <= k < items.len() && items[k] == x;
                assert(out@[k]@ == x);
            }
            if str_set(out@).contains(x) {
                let k = choose|k: int| 0 <= k < out@.len() && out@[k]@ == x;
                assert(items[k] == x);
            }
        }
        assert(str_set(out@) =~= items.to_set());
    }
    Ok(out)
}

fn parse_str(line: &[char]) -> (r: Result<String, usize>)
    ensures
        match r {
            Ok(s) => atom_value(line@) == Ok::<Seq<char>, nat>(s@),
            Err(col) => atom_value(line@) == Err::<Seq<char>, nat>(col as nat),
        },
{
    let s = trim_chars(line);
    if s.len() == 0 {
        return Err(0);
    }
    let mut col: usize = 0;
    while col < s.len()
        invariant
            col <= s@.len(),
            s@ == trim(line@),
            forall|j: int| 0 <= j < col ==> is_state_char(s@[j]),
        decreases s@.len() - col,
    {
        if !valid_state_char(s[col]) {
            assert(is_first_bad_atom(s@, col as int));
            let ghost k = choose|k: int| is_first_bad_atom(s@, k);
            assert(k == col as int) by {
                if k < col {
                    assert(is_state_char(s@[k]));
                } else if k > col {
                    assert(is_state_char(s@[col as int]));
                }
            }
            return Err(col);
        }
        col = col + 1;
    }
    Ok(string_of(s.as_slice()))
}

fn parse_trans(s: &[char], nr_trans_item: usize) -> (r: Option<Vec<String>>)
    ensures
        r is Some <==> words(s@).len() == nr_trans_item,
        r matches Some(v) ==> v@.map_values(|w: String| w@) == words(s@),
{
    let segs = words_of(s);
    if segs.len() != nr_trans_item {
        return None;
    }
    let mut out: Vec<String> = Vec::new();
    let mut i: usize = 0;
    while i < segs.len()
        invariant
            views(segs@) == words(s@),
            i <= segs@.len(),
            out@.map_values(|w: String| w@) == views(segs@).take(i as int),
        decreases segs@.len() - i,
    {
        let ghost before = out@.map_values(|w: String| w@);
        let w = string_of(segs[i].as_slice());
        out.push(w);
        assert(out@.map_values(|w: String| w@) =~= before.push(segs@[i as int]@));
        i = i + 1;
        assert(out@.map_values(|w: String| w@) =~= views(segs@).take(i as int));
    }
    assert(views(segs@).take(segs@.len() as int) =~= views(segs@));
    Some(out)
}

/// What one line of a description holds.
pub enum LineView {
    Skip,
    Decl(Seq<char>, ValueView),
    Trans(Seq<Seq<char>>),
    Fail(nat, ParseError),
}

enum Line {
    Skip,
    Decl(String, Value),
    Trans(Vec<String>),
    Fail(usize, ParseError),
}

impl View for Line {
    type V = LineView;

    closed spec fn view(&self) -> LineView {
        match self {
            Line::Skip => LineView::Skip,
            Line::Decl(k, v) => LineView::Decl(k@, v@),
            Line::Trans(t) => LineView::Trans(t@.map_values(|w: String| w@)),
            Line::Fail(c, e) => LineView::Fail(*c as nat, *e),
        }
    }
}

/// A line without its comment, which runs from the first `;` to the end.
pub open spec fn code_of(line: Seq<char>) -> Seq<char> {
    match find_first(line, ';') {
        Some(i) => line.take(i),
        None => line,
    }
}

/// How one line reads: blank, a declaration, a transition of `n` tokens, or
/// an error at a column.
pub open spec fn line_view(line: Seq<char>, n: nat) -> LineView {
    let inst = trim(code_of(line));
    if inst.len() == 0 {
        LineView::Skip
    } else if inst[0] == '#' {
        let body = inst.drop_first();
        match find_first(body, '=') {
            None => LineView::Fail(3, ParseError::KV(ParseErrorKV::Unknown)),
            Some(i) => {
                let ks = body.take(i);
                let vs = trim(body.skip(i + 1));
                let margin = ks.len() + 2;
                match set_value(vs) {
                    Ok(items) => LineView::Decl(trim(ks), ValueView::Items(items)),
                    Err(true) => LineView::Fail(margin, ParseError::KV(ParseErrorKV::Items)),
                    Err(false) => match atom_value(vs) {
                        Ok(a) => LineView::Decl(trim(ks), ValueView::Str(a)),
                        Err(off) => LineView::Fail(margin + off, ParseError::KV(ParseErrorKV::Str)),
                    },
                }
            },
        }
    } else if words(inst).len() == n {
        LineView::Trans(words(inst))
    } else {
        LineView::Fail(0, ParseError::Trans)
    }
}

/// The configuration read from the first `k` lines, or the first error.
pub open spec fn parse_upto(ls: Seq<Seq<char>>, k: nat, n: nat) -> Result<
    ConfigView,
    ((Seq<char>, nat, nat), ParseError),
>
    decreases k,
{
    if k == 0 {
        Ok(ConfigView { store: Map::empty(), trans: Seq::empty() })
    } else {
        match parse_upto(ls, (k - 1) as nat, n) {
            Err(e) => Err(e),
            Ok(c) => {
                let row = (k - 1) as nat;
                let line = ls[row as int];
                match line_view(line, n) {
                    LineView::Skip => Ok(c),
                    LineView::Decl(key, v) => Ok(
                        ConfigView { store: c.store.insert(key, ((line, row, 0nat), v)), trans: c.trans },
                    ),
                    LineView::Trans(ws) => Ok(
                        ConfigView { store: c.store, trans: c.trans.push(((line, row, 0nat), ws)) },
                    ),
                    LineView::Fail(col, e) => Err(((line, row, col), e)),
                }
            },
        }
    }
}

proof fn lemma_parse_upto_err(ls: Seq<Seq<char>>, k: nat, k2: nat, n: nat)
    requires
        k <= k2,
        parse_upto(ls, k, n) is Err,
    ensures
        parse_upto(ls, k2, n) == parse_upto(ls, k, n),
    decreases k2,
{
    if k2 > k {
        lemma_parse_upto_err(ls, k, (k2 - 1) as nat, n);
    }
}

/// The configuration a whole text describes.
pub open spec fn spec_parse(s: Seq<char>, n: nat) -> Result<ConfigView, ((Seq<char>, nat, nat), ParseError)> {
    parse_upto(text_lines(s), text_lines(s).len(), n)
}

fn parse_line(line: &[char], nr_trans_item: usize) -> (r: Line)
    ensures
        r@ == line_view(line@, nr_trans_item as nat),
{
    let code = match find_char(line, ';') {
        Some(i) => copy_range(line, 0, i),
        None => copy_range(line, 0, line.len()),
    };
    assert(code@ =~= code_of(line@));
    let inst = trim_chars(code.as_slice());
    proof {
        lemma_trim_len(code@);
    }
    if inst.len() == 0 {
        return Line::Skip;
    }
    if inst[0] != '#' {
        return match parse_trans(inst.as_slice(), nr_trans_item) {
            Some(t) => Line::Trans(t),
            None => Line::Fail(0, ParseError::Trans),
        };
    }
    let body = copy_range(inst.as_slice(), 1, inst.len());
    assert(body@ =~= inst@.drop_first());
    match find_char(body.as_slice(), '=') {
        None => Line::Fail(3, ParseError::KV(ParseErrorKV::Unknown)),
        Some(i) => {
            let ks = copy_range(body.as_slice(), 0, i);
            let rest = copy_range(body.as_slice(), i + 1, body.len());
            assert(ks@ =~= body@.take(i as int));
            assert(rest@ =~= body@.skip(i as int + 1));
            let vs = trim_chars(rest.as_slice());
            proof {
                lemma_trim_len(rest@);
                lemma_trim_len(vs@);
            }
            let key = string_of(trim_chars(ks.as_slice()).as_slice());
            let margin = ks.len() + 2;
            match parse_set(vs.as_slice()) {
                Ok(items) => Line::Decl(key, Value::Items(items)),
                Err((true, _)) => Line::Fail(margin, ParseError::KV(ParseErrorKV::Items)),
                Err((false, _)) => match parse_str(vs.as_slice()) {
                    Ok(a) => Line::Decl(key, Value::Str(a)),
                    Err(off) => Line::Fail(margin + off, ParseError::KV(ParseErrorKV::Str)),
                },
            }
        },
    }
}

/// Reads a description into declarations and transition token lists.
/// Transition lines must hold exactly `nr_trans_item` tokens.
pub fn parse(s: &str, nr_trans_item: usize) -> (r: Result<Config, (Position, ParseError)>)
    ensures
        match r {
            Ok(c) => spec_parse(s@, nr_trans_item as nat) == Ok::<ConfigView, ((Seq<char>, nat, nat), ParseError)>(c@),
            Err((p, e)) => spec_parse(s@, nr_trans_item as nat) == Err::<ConfigView, ((Seq<char>, nat, nat), ParseError)>((p@, e)),
        },
{
    let text = chars_of(s);
    let lines = lines_of(text.as_slice());
    let ghost ls = text_lines(s@);
    let mut c = Config { store: Vec::new(), trans: Vec::new() };
    assert(c@.store =~= Map::empty());
    assert(c@.trans =~= Seq::empty());
    let mut row: usize = 0;
    while row < lines.len()
        invariant
            ls == text_lines(s@),
            views(lines@) == ls,
            row <= lines@.len(),
            parse_upto(ls, row as nat, nr_trans_item as nat) == Ok::<ConfigView, ((Seq<char>, nat, nat), ParseError)>(c@),
        decreases lines@.len() - row,
    {
        let line = &lines[row];
        assert(line@ == ls[row as int]);
        let l = parse_line(line.as_slice(), nr_trans_item);
        let inst = string_of(line.as_slice());
        let pos = Position { inst, row, col: 0 };
        match l {
            Line::Skip => {},
            Line::Decl(k, v) => {
                let ghost before = c.store@;
                c.store.push((k, (pos, v)));
                assert(c.store@.drop_last() =~= before);
            },
            Line::Trans(t) => {
                let ghost before = c.trans@;
                c.trans.push((pos, t));
                assert(trans_view(c.trans@) =~= trans_view(before).push(
                    ((line@, row as nat, 0nat), t@.map_values(|w: String| w@)),
                ));
            },
            Line::Fail(col, e) => {
                proof {
                    lemma_parse_upto_err(ls, row as nat + 1, ls.len(), nr_trans_item as nat);
                }
                return Err((Position { inst: string_of(line.as_slice()), row, col }, e));
            },
        }
        row = row + 1;
    }
    assert(lines@.len() == ls.len());
    Ok(c)
}

} // verus!
