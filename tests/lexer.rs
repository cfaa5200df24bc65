use automata_sim::parse::{
    parse, valid_state_char, valid_symbol_char, Config, ParseError, ParseErrorKV, Position, Value,
};

fn config(text: &str) -> Config {
    match parse(text, 5) {
        Ok(c) => c,
        Err((p, e)) => panic!("rejected at row {} col {}: {:?}", p.row, p.col, e),
    }
}

fn error(text: &str) -> (Position, ParseError) {
    match parse(text, 5) {
        Ok(_) => panic!("accepted"),
        Err(e) => e,
    }
}

fn lookup<'a>(c: &'a Config, key: &str) -> &'a Value {
    &c.store.iter().rev().find(|e| e.0 == key).unwrap().1 .1
}

#[test]
fn declarations_and_transitions() {
    let c = config("; header\n#Q = { a, b ,c }\n\n#q0 = start ; comment\nq a b c d\n");
    match lookup(&c, "Q") {
        Value::Items(v) => {
            let mut v = v.clone();
            v.sort();
            assert_eq!(v, vec!["a", "b", "c"]);
        }
        v => panic!("unexpected {:?}", v),
    }
    match lookup(&c, "q0") {
        Value::Str(s) => assert_eq!(s, "start"),
        v => panic!("unexpected {:?}", v),
    }
    assert_eq!(c.trans.len(), 1);
    assert_eq!(c.trans[0].1, vec!["q", "a", "b", "c", "d"]);
    assert_eq!(c.trans[0].0.row, 4);
    assert_eq!(c.trans[0].0.inst, "q a b c d");
}

#[test]
fn later_declaration_wins() {
    let c = config("#q0 = a\n#q0 = b\n");
    match lookup(&c, "q0") {
        Value::Str(s) => assert_eq!(s, "b"),
        v => panic!("unexpected {:?}", v),
    }
}

#[test]
fn crlf_lines() {
    let c = config("#q0 = a\r\nq a b c d\r\n");
    assert_eq!(c.trans.len(), 1);
    assert_eq!(c.trans[0].1[4], "d");
    assert_eq!(c.trans[0].0.row, 1);
}

#[test]
fn empty_braces_hold_one_empty_item() {
    let c = config("#F = {}\n");
    match lookup(&c, "F") {
        Value::Items(v) => assert_eq!(v, &vec![String::new()]),
        v => panic!("unexpected {:?}", v),
    }
}

#[test]
fn declaration_without_equals() {
    let (p, e) = error("#Q {a}\n");
    assert!(matches!(e, ParseError::KV(ParseErrorKV::Unknown)));
    assert_eq!((p.row, p.col), (0, 3));
    assert_eq!(p.inst, "#Q {a}");
}

#[test]
fn bad_atom_column() {
    let (p, e) = error("x a b c d\n#q0 = ab-c\n");
    assert!(matches!(e, ParseError::KV(ParseErrorKV::Str)));
    assert_eq!(p.row, 1);
    assert_eq!(p.col, 4 + 1 + 2);
}

#[test]
fn empty_atom() {
    let (p, e) = error("#q0 =\n");
    assert!(matches!(e, ParseError::KV(ParseErrorKV::Str)));
    assert_eq!(p.col, 5);
}

#[test]
fn bad_set_item() {
    let (p, e) = error("#Q = {a b, c}\n");
    assert!(matches!(e, ParseError::KV(ParseErrorKV::Items)));
    assert_eq!(p.col, 4);
}

#[test]
fn wrong_token_count() {
    let (p, e) = error("#Q = {a}\nq a b c\n");
    assert!(matches!(e, ParseError::Trans));
    assert_eq!((p.row, p.col), (1, 0));
}

#[test]
fn token_count_is_a_parameter() {
    let c = parse("q a b\n", 3).unwrap();
    assert_eq!(c.trans[0].1.len(), 3);
}

#[test]
fn character_classes() {
    assert!(valid_state_char('a') && valid_state_char('Z') && valid_state_char('0') && valid_state_char('_'));
    assert!(!valid_state_char('-') && !valid_state_char(' '));
    assert!(valid_symbol_char('a') && valid_symbol_char('_') && valid_symbol_char('#'));
    for c in [',', ';', '{', '}', '*', ' ', 'é'] {
        assert!(!valid_symbol_char(c));
    }
}

#[test]
fn defaults() {
    assert!(matches!(Value::default(), Value::Str(ref s) if s.is_empty()));
    let p = Position::default();
    assert_eq!((p.row, p.col, p.inst.as_str()), (0, 0, ""));
}
