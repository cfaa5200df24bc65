//! Reading declarations out of a parsed configuration: lookup by name, the
//! check on the set of declared names, and the shapes of state and symbol
//! sets.
use vstd::prelude::*;
use crate::parse::{is_state_char, is_symbol_char, store_map, valid_state_char, valid_symbol_char, Config, ConfigView, KVStore, Position, Value, ValueView};
use crate::text::{chars_of, contains_str, str_set};

verus! {

pub proof fn lemma_store_dom(st: Seq<(String, (Position, Value))>, k: Seq<char>)
    ensures
        store_map(st).contains_key(k) <==> exists|i: int| 0 <= i < st.len() && #[trigger] st[i].0@ == k,
    decreases st.len(),
{
    if st.len() > 0 {
        let d = st.drop_last();
        lemma_store_dom(d, k);
        if exists|i: int| 0 <= i < d.len() && #[trigger] d[i].0@ == k {
            let i = choose|i: int| 0 <= i < d.len() && #[trigger] d[i].0@ == k;
            assert(st[i].0@ == k);
        }
        if exists|i: int| 0 <= i < st.len() && #[trigger] st[i].0@ == k {
            let i = choose|i: int| 0 <= i < st.len() && #[trigger] st[i].0@ == k;
            if i < st.len() - 1 {
                assert(d[i].0@ == k);
            }
        }
    }
}

pub proof fn lemma_store_last(st: Seq<(String, (Position, Value))>, k: Seq<char>, i: int)
    requires
        0 <= i < st.len(),
        st[i].0@ == k,
        forall|j: int| i < j < st.len() ==> #[trigger] st[j].0@ != k,
    ensures
        store_map(st).contains_key(k),
        store_map(st)[k] == (st[i].1.0@, st[i].1.1@),
    decreases st.len(),
{
    if i < st.len() - 1 {
        let d = st.drop_last();
        assert(st[st.len() - 1].0@ != k);
        assert(d[i] == st[i]);
        assert forall|j: int| i < j < d.len() implies #[trigger] d[j].0@ != k by {
            assert(d[j] == st[j]);
        }
        lemma_store_last(d, k, i);
    }
}

/// The entry that a name's last declaration made, if any.
pub fn lookup(store: &KVStore, key: &String) -> (r: Option<usize>)
    ensures
        match r {
            None => !store_map(store@).contains_key(key@),
            Some(i) => i < store@.len() && store@[i as int].0@ == key@ && store_map(store@).contains_key(key@)
                && store_map(store@)[key@] == (store@[i as int].1.0@, store@[i as int].1.1@),
        },
{
    proof {
        lemma_store_dom(store@, key@);
    }
    let mut i: usize = store.len();
    while i > 0
        invariant
            i <= store@.len(),
            forall|j: int| i <= j < store@.len() ==> store@[j].0@ != key@,
        decreases i,
    {
        if store[i - 1].0 == *key {
            proof {
                lemma_store_last(store@, key@, i - 1);
            }
            return Some(i - 1);
        }
        i = i - 1;
    }
    None
}

/// The names declared in one of `st`, `names` but not the other.
pub open spec fn decl_diff(st: Set<Seq<char>>, names: Set<Seq<char>>) -> Set<Seq<char>> {
    st.difference(names).union(names.difference(st))
}

pub proof fn lemma_str_set_push(v: Seq<String>, x: String)
    ensures
        str_set(v.push(x)) == str_set(v).insert(x@),
{
    assert forall|y: Seq<char>| str_set(v.push(x)).contains(y) <==> str_set(v).insert(x@).contains(y) by {
        if str_set(v).contains(y) {
            let m = choose|m: int| 0 <= m < v.len() && v[m]@ == y;
            assert(v.push(x)[m]@ == y);
        }
        if y == x@ {
            assert(v.push(x)[v.len() as int]@ == y);
        }
        if str_set(v.push(x)).contains(y) && y != x@ {
            let m = choose|m: int| 0 <= m < v.len() + 1 && v.push(x)[m]@ == y;
            assert(v[m]@ == y);
        }
    }
    assert(str_set(v.push(x)) =~= str_set(v).insert(x@));
}

pub open spec fn keys_upto(st: Seq<(String, (Position, Value))>, i: int) -> Set<Seq<char>> {
    Set::new(|x: Seq<char>| exists|j: int| 0 <= j < i && #[trigger] st[j].0@ == x)
}

pub open spec fn names_upto(v: Seq<String>, i: int) -> Set<Seq<char>> {
    Set::new(|x: Seq<char>| exists|j: int| 0 <= j < i && #[trigger] v[j]@ == x)
}

/// The names that are declared but not expected, then those expected but
/// not declared.
pub fn declared_mismatch(store: &KVStore, names: &Vec<String>) -> (r: Vec<String>)
    ensures
        str_set(r@) == decl_diff(store_map(store@).dom(), str_set(names@)),
{
    let ghost nset = str_set(names@);
    let mut out: Vec<String> = Vec::new();
    let mut i: usize = 0;
    assert(str_set(out@) =~= keys_upto(store@, 0).difference(nset));
    while i < store.len()
        invariant
            nset == str_set(names@),
            i <= store@.len(),
            str_set(out@) == keys_upto(store@, i as int).difference(nset),
        decreases store@.len() - i,
    {
        let k = &store[i];
        assert(keys_upto(store@, i as int + 1) =~= keys_upto(store@, i as int).insert(k.0@));
        if !contains_str(names, &k.0) && !contains_str(&out, &k.0) {
            proof {
                lemma_str_set_push(out@, k.0);
            }
            out.push(k.0.clone());
            assert(str_set(out@) =~= keys_upto(store@, i as int + 1).difference(nset));
        } else {
            assert(str_set(out@) =~= keys_upto(store@, i as int + 1).difference(nset));
        }
        i = i + 1;
    }
    let ghost dom = store_map(store@).dom();
    assert(keys_upto(store@, store@.len() as int) =~= dom) by {
        assert forall|x: Seq<char>| keys_upto(store@, store@.len() as int).contains(x) <==> dom.contains(x) by {
            lemma_store_dom(store@, x);
        }
    }
    let mut j: usize = 0;
    assert(str_set(out@) =~= dom.difference(nset).union(names_upto(names@, 0).difference(dom)));
    while j < names.len()
        invariant
            nset == str_set(names@),
            dom == store_map(store@).dom(),
            j <= names@.len(),
            str_set(out@) == dom.difference(nset).union(names_upto(names@, j as int).difference(dom)),
        decreases names@.len() - j,
    {
        let nm = &names[j];
        let found = lookup(store, nm);
        assert(names_upto(names@, j as int + 1) =~= names_upto(names@, j as int).insert(nm@));
        if found.is_none() {
            proof {
                lemma_str_set_push(out@, *nm);
            }
            out.push(nm.clone());
        }
        assert(str_set(out@) =~= dom.difference(nset).union(names_upto(names@, j as int + 1).difference(dom)));
        j = j + 1;
    }
    assert(names_upto(names@, names@.len() as int) =~= nset);
    assert(str_set(out@) =~= decl_diff(dom, nset));
    out
}

/// Every name in the set is made of state characters.
pub open spec fn states_ok(set: Set<Seq<char>>) -> bool {
    forall|x: Seq<char>, j: int| set.contains(x) && 0 <= j < x.len() ==> is_state_char(#[trigger] x[j])
}

/// The first offending (name, character) of a set of state names.
pub fn check_states(v: &Vec<String>) -> (r: Result<(), (String, char)>)
    ensures
        r is Ok <==> states_ok(str_set(v@)),
        r matches Err((x, c)) ==> str_set(v@).contains(x@) && x@.contains(c) && !is_state_char(c),
{
    let mut i: usize = 0;
    while i < v.len()
        invariant
            i <= v@.len(),
            forall|m: int, j: int| 0 <= m < i && 0 <= j < v@[m]@.len() ==> is_state_char(#[trigger] v@[m]@[j]),
        decreases v@.len() - i,
    {
        let cs = chars_of(v[i].as_str());
        let mut j: usize = 0;
        while j < cs.len()
            invariant
                i < v@.len(),
                cs@ == v@[i as int]@,
                j <= cs@.len(),
                forall|m: int| 0 <= m < j ==> is_state_char(#[trigger] cs@[m]),
            decreases cs@.len() - j,
        {
            if !valid_state_char(cs[j]) {
                assert(str_set(v@).contains(v@[i as int]@));
                assert(v@[i as int]@[j as int] == cs[j as int]);
                return Err((v[i].clone(), cs[j]));
            }
            j = j + 1;
        }
        i = i + 1;
    }
    assert forall|x: Seq<char>, j: int| str_set(v@).contains(x) && 0 <= j < x.len() implies is_state_char(
        #[trigger] x[j],
    ) by {
        let m = choose|m: int| 0 <= m < v@.len() && v@[m]@ == x;
        assert(is_state_char(v@[m]@[j]));
    }
    Ok(())
}

/// A symbol is written as one character of the symbol class (not `_` where
/// that is excluded).
pub open spec fn symbol_ok(x: Seq<char>, allow_underscore: bool) -> bool {
    x.len() == 1 && is_symbol_char(x[0]) && (allow_underscore || x[0] != '_')
}

pub open spec fn symbols_ok(set: Set<Seq<char>>, allow_underscore: bool) -> bool {
    forall|x: Seq<char>| set.contains(x) ==> #[trigger] symbol_ok(x, allow_underscore)
}

/// The characters a set of one-character names stands for.
pub open spec fn symbols_of(set: Set<Seq<char>>) -> Set<char> {
    Set::new(|c: char| set.contains(seq![c]))
}

pub enum SymbolError {
    /// An item that is not a single character.
    MultiChar(String),
    /// A single character outside the symbol class.
    BadChar(char),
}

/// The symbols of a set declaration, or the first offending item.
pub fn check_symbols(v: &Vec<String>, allow_underscore: bool) -> (r: Result<Vec<char>, SymbolError>)
    ensures
        r is Ok <==> symbols_ok(str_set(v@), allow_underscore),
        r matches Ok(cs) ==> cs@.to_set() == symbols_of(str_set(v@)),
        r matches Err(SymbolError::MultiChar(x)) ==> str_set(v@).contains(x@) && x@.len() != 1,
        r matches Err(SymbolError::BadChar(c)) ==> str_set(v@).contains(seq![c]) && !symbol_ok(seq![c], allow_underscore),
{
    let mut out: Vec<char> = Vec::new();
    let mut i: usize = 0;
    while i < v.len()
        invariant
            i <= v@.len(),
            out@.len() == i,
            forall|m: int| 0 <= m < i ==> #[trigger] symbol_ok(v@[m]@, allow_underscore) && v@[m]@ == seq![out@[m]],
        decreases v@.len() - i,
    {
        let cs = chars_of(v[i].as_str());
        assert(str_set(v@).contains(v@[i as int]@));
        assert(cs@ == v@[i as int]@);
        if cs.len() != 1 {
            assert(!symbol_ok(v@[i as int]@, allow_underscore));
            return Err(SymbolError::MultiChar(v[i].clone()));
        }
        let c = cs[0];
        assert(cs@ =~= seq![c]);
        if !valid_symbol_char(c) || (!allow_underscore && c == '_') {
            assert(!symbol_ok(v@[i as int]@, allow_underscore));
            return Err(SymbolError::BadChar(c));
        }
        out.push(c);
        i = i + 1;
    }
    proof {
        assert forall|x: Seq<char>| str_set(v@).contains(x) implies #[trigger] symbol_ok(x, allow_underscore) by {
            let m = choose|m: int| 0 <= m < v@.len() && v@[m]@ == x;
            assert(symbol_ok(v@[m]@, allow_underscore));
        }
        assert forall|c: char| out@.to_set().contains(c) <==> symbols_of(str_set(v@)).contains(c) by {
            if out@.to_set().contains(c) {
                let m = choose|m: int| 0 <= m < out@.len() && out@[m] == c;
                assert(symbol_ok(v@[m]@, allow_underscore));
                assert(v@[m]@ == seq![c]);
            }
            if symbols_of(str_set(v@)).contains(c) {
                let m = choose|m: int| 0 <= m < v@.len() && v@[m]@ == seq![c];
                assert(symbol_ok(v@[m]@, allow_underscore));
                assert(v@[m]@ == seq![out@[m]]);
                assert(seq![c][0] == c);
                assert(seq![out@[m]][0] == out@[m]);
                assert(out@.contains(c));
            }
        }
        assert(out@.to_set() =~= symbols_of(str_set(v@)));
    }
    Ok(out)
}

pub open spec fn is_digit(c: char) -> bool {
    '0' <= c && c <= '9'
}

/// The number a string of decimal digits denotes.
pub open spec fn decimal(s: Seq<char>) -> nat
    decreases s.len(),
{
    if s.len() == 0 {
        0
    } else {
        decimal(s.drop_last()) * 10 + (s.last() as nat - '0' as nat) as nat
    }
}

/// Reads an unsigned number: one or more decimal digits whose value fits.
pub fn parse_usize(s: &String) -> (r: Option<usize>)
    ensures
        r is Some <==> s@.len() > 0 && (forall|j: int| 0 <= j < s@.len() ==> is_digit(#[trigger] s@[j]))
            && decimal(s@) <= usize::MAX,
        r matches Some(n) ==> n == decimal(s@),
{
    let cs = chars_of(s.as_str());
    if cs.len() == 0 {
        return None;
    }
    let mut v: usize = 0;
    let mut i: usize = 0;
    while i < cs.len()
        invariant
            cs@ == s@,
            i <= cs@.len(),
            forall|j: int| 0 <= j < i ==> is_digit(#[trigger] cs@[j]),
            v == decimal(cs@.take(i as int)),
        decreases cs@.len() - i,
    {
        let c = cs[i];
        assert(cs@.take(i as int + 1).drop_last() =~= cs@.take(i as int));
        if !('0' <= c && c <= '9') {
            return None;
        }
        let d = (c as u32 - '0' as u32) as usize;
        let ghost next = decimal(cs@.take(i as int + 1));
        assert(next == v * 10 + d);
        match v.checked_mul(10) {
            None => {
                proof {
                    if forall|j: int| 0 <= j < cs@.len() ==> is_digit(#[trigger] cs@[j]) {
                        lemma_decimal_prefix(cs@, i as int + 1);
                    }
                }
                return None;
            },
            Some(m) => match m.checked_add(d) {
                None => {
                    proof {
                        if forall|j: int| 0 <= j < cs@.len() ==> is_digit(#[trigger] cs@[j]) {
                            lemma_decimal_prefix(cs@, i as int + 1);
                        }
                    }
                    return None;
                },
                Some(w) => {
                    v = w;
                },
            },
        }
        i = i + 1;
    }
    assert(cs@.take(cs@.len() as int) =~= cs@);
    Some(v)
}

/// A prefix of a digit string denotes no more than the whole.
proof fn lemma_decimal_prefix(s: Seq<char>, k: int)
    requires
        0 <= k <= s.len(),
        forall|j: int| 0 <= j < s.len() ==> is_digit(#[trigger] s[j]),
    ensures
        decimal(s.take(k)) <= decimal(s),
    decreases s.len() - k,
{
    if k < s.len() {
        lemma_decimal_prefix(s, k + 1);
        assert(s.take(k + 1).drop_last() =~= s.take(k));
    } else {
        assert(s.take(k) =~= s);
    }
}

pub open spec fn atom_of(v: ValueView) -> Seq<char> {
    match v {
        ValueView::Str(a) => a,
        ValueView::Items(_) => Seq::empty(),
    }
}

pub open spec fn items_of(v: ValueView) -> Set<Seq<char>> {
    match v {
        ValueView::Items(s) => s,
        ValueView::Str(_) => Set::empty(),
    }
}

/// The value a name's declaration gives.
pub open spec fn decl(c: ConfigView, name: Seq<char>) -> ValueView {
    c.store[name].1
}

/// The entry of a declaration known to be present.
pub fn entry(c: &Config, name: &String) -> (r: usize)
    requires
        c@.store.contains_key(name@),
    ensures
        r < c.store@.len(),
        c.store@[r as int].0@ == name@,
        (c.store@[r as int].1.0@, c.store@[r as int].1.1@) == c@.store[name@],
{
    match lookup(&c.store, name) {
        Some(i) => i,
        None => {
            assert(false);
            0
        },
    }
}

/// A set declaration's items, or the position of a declaration that is an
/// atom instead.
pub fn items_decl<'a>(c: &'a Config, name: &String) -> (r: Result<&'a Vec<String>, Position>)
    requires
        c@.store.contains_key(name@),
    ensures
        r is Ok <==> decl(c@, name@) is Items,
        r matches Ok(v) ==> items_of(decl(c@, name@)) == str_set(v@),
        r matches Err(p) ==> p@ == c@.store[name@].0,
{
    let i = entry(c, name);
    match &c.store[i].1.1 {
        Value::Items(v) => Ok(v),
        Value::Str(_) => Err(c.store[i].1.0.duplicate()),
    }
}

/// An atom declaration's text, or the position of a declaration that is a
/// set instead.
pub fn atom_decl<'a>(c: &'a Config, name: &String) -> (r: Result<&'a String, Position>)
    requires
        c@.store.contains_key(name@),
    ensures
        r is Ok <==> decl(c@, name@) is Str,
        r matches Ok(v) ==> atom_of(decl(c@, name@)) == v@,
        r matches Err(p) ==> p@ == c@.store[name@].0,
{
    let i = entry(c, name);
    match &c.store[i].1.1 {
        Value::Str(v) => Ok(v),
        Value::Items(_) => Err(c.store[i].1.0.duplicate()),
    }
}

} // verus!
