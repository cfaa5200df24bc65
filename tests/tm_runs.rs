use automata_sim::tm::{ArchState, Direction, Exception, ParseError, SpecError, TuringMachine};

const INCREMENT: &str = "\
; binary increment
#N = 1
#Q = {right, carry, done}
#S = {0, 1}
#G = {0, 1, _}
#q0 = right
#B = _
#F = {done}
right 0 0 r right
right 1 1 r right
right _ _ l carry
carry 1 0 l carry
carry 0 1 * done
carry _ 1 * done
";

const SCAN: &str = "\
#N = 1
#Q = {q, f}
#S = {a, b}
#G = {a, b, _}
#q0 = q
#B = _
#F = {f}
q * * r q
";

fn machine(text: &str) -> TuringMachine {
    match TuringMachine::from_str(text) {
        Ok(m) => m,
        Err((pos, e)) => panic!("rejected at row {} col {}: {:?}", pos.row, pos.col, e),
    }
}

fn run(text: &str, input: &str) -> Exception {
    let mut a = ArchState::new(machine(text));
    if let Err(e) = a.input(input) {
        return e;
    }
    loop {
        if let Err(e) = a.step() {
            return e;
        }
    }
}

fn one_rule(rule: &str) -> String {
    format!(
        "#N = 1\n#Q = {{s, t}}\n#S = {{a}}\n#G = {{a, _}}\n#q0 = s\n#B = _\n#F = {{t}}\n{}\n",
        rule
    )
}

#[test]
fn binary_increment() {
    match run(INCREMENT, "1011") {
        Exception::Accept(s) => assert_eq!(s, "1100"),
        e => panic!("unexpected {:?}", e),
    }
}

#[test]
fn binary_increment_carries_out() {
    match run(INCREMENT, "111") {
        Exception::Accept(s) => assert_eq!(s, "1000"),
        e => panic!("unexpected {:?}", e),
    }
}

#[test]
fn wildcard_scan_rejects_with_input_unchanged() {
    match run(SCAN, "abba") {
        Exception::Reject(s) => assert_eq!(s, "abba"),
        e => panic!("unexpected {:?}", e),
    }
}

#[test]
fn missing_blank_declaration() {
    let text = "#N = 1\n#Q = {q}\n#S = {a}\n#G = {a, _}\n#q0 = q\n#F = {q}\n";
    match TuringMachine::from_str(text) {
        Err((_, ParseError::Spec(SpecError::DeclItem(d)))) => assert_eq!(d, vec!["B".to_string()]),
        Err((_, e)) => panic!("unexpected {:?}", e),
        Ok(_) => panic!("accepted"),
    }
}

#[test]
fn undeclared_name_is_reported() {
    let text = "#N = 1\n#Q = {q}\n#S = {a}\n#G = {a, _}\n#q0 = q\n#B = _\n#F = {q}\n#X = y\n";
    match TuringMachine::from_str(text) {
        Err((_, ParseError::Spec(SpecError::DeclItem(d)))) => assert_eq!(d, vec!["X".to_string()]),
        Err((_, e)) => panic!("unexpected {:?}", e),
        Ok(_) => panic!("accepted"),
    }
}

#[test]
fn wildcard_write_without_wildcard_read() {
    let text = "#N = 1\n#Q = {q0, q1}\n#S = {a}\n#G = {a, _}\n#q0 = q0\n#B = _\n#F = {q1}\nq0 a * * q1\n";
    match TuringMachine::from_str(text) {
        Err((pos, ParseError::Spec(SpecError::TGlob(x, y)))) => {
            assert_eq!(x, "a");
            assert_eq!(y, "*");
            assert_eq!(pos.row, 7);
        }
        Err((_, e)) => panic!("unexpected {:?}", e),
        Ok(_) => panic!("accepted"),
    }
}

#[test]
fn invalid_input_symbol() {
    let mut a = ArchState::new(machine(INCREMENT));
    match a.input("012") {
        Err(Exception::InvalidInput { input, offset }) => {
            assert_eq!(input, "012");
            assert_eq!(offset, 2);
        }
        r => panic!("unexpected {:?}", r),
    }
}

#[test]
fn empty_input_is_one_blank() {
    let mut a = ArchState::new(machine(INCREMENT));
    assert!(a.input("").is_ok());
    assert_eq!(a.tape(0), vec!['_']);
    assert_eq!(a.head(0), (0, 0));
}

#[test]
fn new_tapes_are_single_blanks() {
    let text = "#N = 3\n#Q = {q}\n#S = {a}\n#G = {a, x}\n#q0 = q\n#B = x\n#F = {q}\n";
    let a = ArchState::new(machine(text));
    for i in 0..3 {
        assert_eq!(a.tape(i), vec!['x']);
        assert_eq!(a.head(i), (0, 0));
    }
    assert_eq!(a.steps(), 0);
    assert_eq!(a.state(), "q");
}

#[test]
fn left_move_at_front_grows_buffer() {
    let mut a = ArchState::new(machine(&one_rule("s a a l t")));
    a.input("a").unwrap();
    a.step().unwrap();
    assert_eq!(a.tape(0), vec!['_', 'a']);
    assert_eq!(a.head(0), (-1, 0));
    assert_eq!(a.steps(), 1);
    assert_eq!(a.state(), "t");
}

#[test]
fn right_move_at_back_grows_buffer() {
    let mut a = ArchState::new(machine(&one_rule("s a a r t")));
    a.input("a").unwrap();
    a.step().unwrap();
    assert_eq!(a.tape(0), vec!['a', '_']);
    assert_eq!(a.head(0), (1, 1));
}

#[test]
fn idle_blanks_are_trimmed() {
    // writing a blank and moving right leaves a blank behind the head: it goes
    let mut a = ArchState::new(machine(&one_rule("s a _ r t")));
    a.input("aa").unwrap();
    a.step().unwrap();
    assert_eq!(a.tape(0), vec!['a']);
    assert_eq!(a.head(0), (1, 0));
}

#[test]
fn heads_stay_in_bounds_after_every_step() {
    let mut a = ArchState::new(machine(INCREMENT));
    a.input("10111").unwrap();
    loop {
        let t = a.tape(0);
        let (_, off) = a.head(0);
        assert!(off < t.len());
        if t.len() > off + 1 {
            assert_ne!(*t.last().unwrap(), '_');
        }
        if off > 0 {
            assert_ne!(t[0], '_');
        }
        if a.step().is_err() {
            break;
        }
    }
    assert!(a.halted());
    assert_eq!(a.result(), Some("11000".to_string()));
}

#[test]
fn result_only_after_halt() {
    let mut a = ArchState::new(machine(INCREMENT));
    a.input("1").unwrap();
    assert_eq!(a.result(), None);
}

#[test]
fn result_is_already_stripped() {
    let text = "#N = 1\n#Q = {s, t}\n#S = {a}\n#G = {a, _}\n#q0 = s\n#B = _\n#F = {t}\ns a a r s\ns _ a l t\n";
    let mut a = ArchState::new(machine(text));
    a.input("a").unwrap();
    let r = loop {
        match a.step() {
            Ok(()) => {}
            Err(Exception::Accept(s)) => break s,
            Err(e) => panic!("unexpected {:?}", e),
        }
    };
    assert_eq!(r, "aa");
    assert_eq!(r.trim_matches('_'), r);
}

#[test]
fn accept_before_any_rule_fires() {
    let text = "#N = 1\n#Q = {s}\n#S = {a}\n#G = {a, _}\n#q0 = s\n#B = _\n#F = {s}\ns a _ r s\n";
    match run(text, "aaa") {
        Exception::Accept(s) => assert_eq!(s, "aaa"),
        e => panic!("unexpected {:?}", e),
    }
}

#[test]
fn wildcard_does_not_match_blank() {
    let m = machine(SCAN);
    assert!(m.get(&"q".to_string(), &['_']).is_none());
    let (w, d, p) = m.get(&"q".to_string(), &['a']).unwrap();
    assert_eq!(w, vec!['a']);
    assert_eq!(d, vec![Direction::Right]);
    assert_eq!(p, "q");
}

#[test]
fn first_rule_in_declaration_order_wins() {
    let text = "#N = 1\n#Q = {s, t, u}\n#S = {a}\n#G = {a, b, _}\n#q0 = s\n#B = _\n#F = {t}\ns * b * t\ns a a * u\n";
    let m = machine(text);
    let first = m.get(&"s".to_string(), &['a']).unwrap();
    let second = m.get(&"s".to_string(), &['a']).unwrap();
    assert_eq!(first.0, vec!['b']);
    assert_eq!(first.2, "t");
    assert_eq!(first.0, second.0);
    assert_eq!(first.2, second.2);
}

#[test]
fn wildcard_write_keeps_symbol() {
    let text = "#N = 2\n#Q = {s, t}\n#S = {a, b}\n#G = {a, b, _}\n#q0 = s\n#B = _\n#F = {t}\ns ** *a r* t\n";
    let m = machine(text);
    let (w, d, p) = m.get(&"s".to_string(), &['b', 'a']).unwrap();
    assert_eq!(w, vec!['b', 'a']);
    assert_eq!(d, vec![Direction::Right, Direction::Stay]);
    assert_eq!(p, "t");
    assert!(m.get(&"s".to_string(), &['b']).is_none());
    assert!(m.get(&"t".to_string(), &['b', 'a']).is_none());
}

#[test]
fn machine_fields_are_read() {
    let m = machine(INCREMENT);
    assert_eq!(m.N(), 1);
    assert_eq!(m.B(), '_');
    assert_eq!(m.q0(), "right");
    assert_eq!(m.Q().len(), 3);
    assert!(m.F().contains(&"done".to_string()));
    assert_eq!(m.delta().len(), 6);
    assert!(m.S().contains(&'0') && m.S().contains(&'1'));
    assert!(m.G().contains(&'_'));
    assert!(m.validate().is_ok());
    assert_eq!(m.input_valid("1021"), Err(2));
}

#[test]
fn directions_round_trip() {
    for c in ['l', 'r', '*'] {
        assert_eq!(Direction::try_from(c).unwrap().to_char(), c);
    }
    assert!(Direction::try_from('x').is_err());
}

fn spec_error(text: &str) -> SpecError {
    match TuringMachine::from_str(text) {
        Err((_, ParseError::Spec(e))) => e,
        Err((_, e)) => panic!("unexpected {:?}", e),
        Ok(_) => panic!("accepted"),
    }
}

const HEAD: &str = "#Q = {s, t}\n#S = {a}\n#q0 = s\n#F = {t}\n";

#[test]
fn zero_tapes_rejected() {
    let e = spec_error(&format!("#N = 0\n#G = {{a, _}}\n#B = _\n{}", HEAD));
    assert!(matches!(e, SpecError::TapeNumber));
}

#[test]
fn tape_count_must_be_a_number() {
    let e = spec_error(&format!("#N = two\n#G = {{a, _}}\n#B = _\n{}", HEAD));
    assert!(matches!(e, SpecError::Type(ref v) if v == "two"));
}

#[test]
fn set_where_atom_expected() {
    let e = spec_error(&format!("#N = {{1}}\n#G = {{a, _}}\n#B = _\n{}", HEAD));
    assert!(matches!(e, SpecError::Type(ref v) if v == "N"));
}

#[test]
fn blank_outside_tape_symbols() {
    let e = spec_error(&format!("#N = 1\n#G = {{a}}\n#B = _\n{}", HEAD));
    assert!(matches!(e, SpecError::BNotInG));
}

#[test]
fn input_symbols_outside_tape_symbols() {
    let e = spec_error("#N = 1\n#Q = {s}\n#S = {a, b}\n#G = {a, _}\n#q0 = s\n#B = _\n#F = {s}\n");
    assert!(matches!(e, SpecError::SNotSubsetG));
}

#[test]
fn underscore_is_no_input_symbol() {
    let e = spec_error("#N = 1\n#Q = {s}\n#S = {a, _}\n#G = {a, _}\n#q0 = s\n#B = _\n#F = {s}\n");
    assert!(matches!(e, SpecError::SChar('_')));
}

#[test]
fn multi_char_symbol_rejected() {
    let e = spec_error("#N = 1\n#Q = {s}\n#S = {ab}\n#G = {a, _}\n#q0 = s\n#B = _\n#F = {s}\n");
    assert!(matches!(e, SpecError::MultiCharSymbol(ref v) if v == "ab"));
}

#[test]
fn wildcard_is_no_tape_symbol() {
    let e = spec_error("#N = 1\n#Q = {s}\n#S = {a}\n#G = {a, _, *}\n#q0 = s\n#B = _\n#F = {s}\n");
    assert!(matches!(e, SpecError::GChar('*')));
}

#[test]
fn state_names_checked() {
    let e = spec_error("#N = 1\n#Q = {s, t-1}\n#S = {a}\n#G = {a, _}\n#q0 = s\n#B = _\n#F = {s}\n");
    assert!(matches!(e, SpecError::QChar('-')));
}

#[test]
fn initial_state_declared() {
    let e = spec_error("#N = 1\n#Q = {s}\n#S = {a}\n#G = {a, _}\n#q0 = x\n#B = _\n#F = {s}\n");
    assert!(matches!(e, SpecError::q0NotInQ));
}

#[test]
fn final_states_declared() {
    let e = spec_error("#N = 1\n#Q = {s}\n#S = {a}\n#G = {a, _}\n#q0 = s\n#B = _\n#F = {s, z}\n");
    assert!(matches!(e, SpecError::FNotSubsetQ));
}

#[test]
fn rule_strings_have_one_entry_per_tape() {
    let e = spec_error(&one_rule("s aa a r t"));
    assert!(matches!(e, SpecError::TtsLen(ref t) if t.len() == 5));
}

#[test]
fn rule_states_declared() {
    let e = spec_error(&one_rule("s a a r z"));
    assert!(matches!(e, SpecError::TInvalidState(ref q) if q == "z"));
}

#[test]
fn rule_symbols_declared() {
    let e = spec_error(&one_rule("s a c r t"));
    assert!(matches!(e, SpecError::TInvalidSymbol('c')));
}

#[test]
fn rule_directions_checked() {
    let e = spec_error(&one_rule("s a a x t"));
    assert!(matches!(e, SpecError::TInvalidDirection));
}

#[test]
fn syntax_errors_pass_through() {
    match TuringMachine::from_str("#N = 1\nq a b\n") {
        Err((pos, ParseError::Syntax(_))) => assert_eq!(pos.row, 1),
        r => panic!("unexpected {:?}", r.map(|_| ())),
    }
}

#[test]
fn parses_through_from_str_trait() {
    let m: TuringMachine = INCREMENT.parse().unwrap();
    assert_eq!(m.N(), 1);
    assert!("#N = 1\n".parse::<TuringMachine>().is_err());
}
