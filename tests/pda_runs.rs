use automata_sim::pda::{ArchState, Exception, ParseError, PushDownAutomata, SpecError};

const ANBN: &str = "\
#Q = {q0, q1, qf}
#S = {a, b}
#G = {Z, A}
#q0 = q0
#z0 = Z
#F = {qf}
q0 a Z q0 AZ
q0 a A q0 AA
q0 b A q1 _
q1 b A q1 _   ; pop one A per b
q1 _ Z qf Z
";

fn automaton(text: &str) -> PushDownAutomata {
    match PushDownAutomata::from_str(text) {
        Ok(m) => m,
        Err((pos, e)) => panic!("rejected at row {} col {}: {:?}", pos.row, pos.col, e),
    }
}

fn run_pda(text: &str, input: &str) -> Exception {
    let mut a = match ArchState::new(automaton(text), input) {
        Ok(a) => a,
        Err(e) => return e,
    };
    loop {
        if let Err(e) = a.step() {
            return e;
        }
    }
}

#[test]
fn balanced_accepted() {
    assert_eq!(run_pda(ANBN, "aaabbb"), Exception::Accept);
}

#[test]
fn unbalanced_rejected() {
    assert_eq!(run_pda(ANBN, "aabbb"), Exception::Reject);
    assert_eq!(run_pda(ANBN, "aab"), Exception::Reject);
}

#[test]
fn invalid_input_column() {
    assert_eq!(run_pda(ANBN, "abcab"), Exception::InvalidInput { col: 2 });
}

#[test]
fn empty_input_accepts_iff_initial_state_final() {
    let accepting = "#Q = {q}\n#S = {a}\n#G = {Z}\n#q0 = q\n#z0 = Z\n#F = {q}\n";
    let rejecting = "#Q = {q, f}\n#S = {a}\n#G = {Z}\n#q0 = q\n#z0 = Z\n#F = {f}\n";
    assert_eq!(run_pda(accepting, ""), Exception::Accept);
    assert_eq!(run_pda(rejecting, ""), Exception::Reject);
}

#[test]
fn final_state_with_input_left_does_not_accept() {
    let text = "#Q = {q}\n#S = {a}\n#G = {Z}\n#q0 = q\n#z0 = Z\n#F = {q}\n";
    assert_eq!(run_pda(text, "a"), Exception::Reject);
}

#[test]
fn emptied_stack_rejects() {
    let text = "#Q = {q, f}\n#S = {a}\n#G = {Z}\n#q0 = q\n#z0 = Z\n#F = {f}\nq a Z q _\n";
    let mut a = ArchState::new(automaton(text), "aa").unwrap();
    assert_eq!(a.step(), Ok(()));
    assert!(a.stack().is_empty());
    assert_eq!(a.remaining(), vec!['a']);
    assert_eq!(a.step(), Err(Exception::Reject));
}

#[test]
fn input_move_preferred_to_epsilon_move() {
    let text = "#Q = {q, r, e}\n#S = {a}\n#G = {Z}\n#q0 = q\n#z0 = Z\n#F = {r}\nq _ Z e Z\nq a Z r ZZ\n";
    let m = automaton(text);
    let (used, (p, beta)) = m.get(&"q".to_string(), Some('a'), 'Z').unwrap();
    assert_eq!(used, Some('a'));
    assert_eq!(p, "r");
    assert_eq!(beta, &vec!['Z', 'Z']);
    let (used, (p, _)) = m.get(&"q".to_string(), None, 'Z').unwrap();
    assert_eq!(used, None);
    assert_eq!(p, "e");
}

#[test]
fn epsilon_fallback_when_no_input_move() {
    let m = automaton(ANBN);
    let (used, (p, beta)) = m.get(&"q1".to_string(), Some('b'), 'Z').unwrap();
    assert_eq!(used, None);
    assert_eq!(p, "qf");
    assert_eq!(beta, &vec!['Z']);
    assert!(m.get(&"qf".to_string(), Some('a'), 'Z').is_none());
}

#[test]
fn epsilon_move_keeps_input() {
    let mut a = ArchState::new(automaton(ANBN), "ab").unwrap();
    a.step().unwrap();
    a.step().unwrap();
    assert_eq!(a.state(), "q1");
    assert!(a.remaining().is_empty());
    let text = "#Q = {q, r}\n#S = {a}\n#G = {Z}\n#q0 = q\n#z0 = Z\n#F = {r}\nq _ Z q Z\n";
    let mut b = ArchState::new(automaton(text), "a").unwrap();
    assert_eq!(b.step(), Ok(()));
    assert_eq!(b.remaining(), vec!['a']);
    assert_eq!(b.steps(), 1);
}

#[test]
fn push_puts_leftmost_on_top() {
    let mut a = ArchState::new(automaton(ANBN), "a").unwrap();
    assert_eq!(a.stack(), vec!['Z']);
    a.step().unwrap();
    assert_eq!(a.stack(), vec!['A', 'Z']);
    assert_eq!(a.state(), "q0");
}

#[test]
fn later_rule_for_same_key_wins() {
    let text = "#Q = {q, r, s}\n#S = {a}\n#G = {Z}\n#q0 = q\n#z0 = Z\n#F = {r}\nq a Z s Z\nq a Z r Z\n";
    let m = automaton(text);
    let (_, (p, _)) = m.get(&"q".to_string(), Some('a'), 'Z').unwrap();
    assert_eq!(p, "r");
}

#[test]
fn automaton_fields_are_read() {
    let m = automaton(ANBN);
    assert_eq!(m.q0(), "q0");
    assert_eq!(m.z0(), 'Z');
    assert_eq!(m.Q().len(), 3);
    assert_eq!(m.S().len(), 2);
    assert_eq!(m.G().len(), 2);
    assert_eq!(m.F(), &vec!["qf".to_string()]);
    assert_eq!(m.delta().len(), 5);
    assert_eq!(m.input_valid("abx"), Err(2));
    assert_eq!(m.input_valid("abab"), Ok(()));
}

fn pda_spec_error(text: &str) -> SpecError {
    match PushDownAutomata::from_str(text) {
        Err((_, ParseError::Spec(e))) => e,
        Err((_, e)) => panic!("unexpected {:?}", e),
        Ok(_) => panic!("accepted"),
    }
}

#[test]
fn pda_missing_declaration() {
    let e = pda_spec_error("#Q = {q}\n#S = {a}\n#G = {Z}\n#q0 = q\n#F = {q}\n");
    assert!(matches!(e, SpecError::DeclItem(ref d) if d == &vec!["z0".to_string()]));
}

#[test]
fn pda_initial_stack_symbol_declared() {
    let e = pda_spec_error("#Q = {q}\n#S = {a}\n#G = {Z}\n#q0 = q\n#z0 = Y\n#F = {q}\n");
    assert!(matches!(e, SpecError::z0NotInG));
}

#[test]
fn pda_initial_stack_symbol_single() {
    let e = pda_spec_error("#Q = {q}\n#S = {a}\n#G = {Z}\n#q0 = q\n#z0 = ZZ\n#F = {q}\n");
    assert!(matches!(e, SpecError::MultiCharSymbol(ref v) if v == "ZZ"));
}

#[test]
fn pda_underscore_is_no_stack_symbol() {
    let e = pda_spec_error("#Q = {q}\n#S = {a}\n#G = {Z, _}\n#q0 = q\n#z0 = Z\n#F = {q}\n");
    assert!(matches!(e, SpecError::GChar('_')));
}

#[test]
fn pda_state_names_checked() {
    let e = pda_spec_error("#Q = {q, p.1}\n#S = {a}\n#G = {Z}\n#q0 = q\n#z0 = Z\n#F = {q}\n");
    assert!(matches!(e, SpecError::QChar(ref s, '.') if s == "p.1"));
}

#[test]
fn pda_shape_checked() {
    let e = pda_spec_error("#Q = q\n#S = {a}\n#G = {Z}\n#q0 = q\n#z0 = Z\n#F = {q}\n");
    assert!(matches!(e, SpecError::Type(ref v) if v == "Q"));
}

#[test]
fn pda_initial_state_declared() {
    let e = pda_spec_error("#Q = {q}\n#S = {a}\n#G = {Z}\n#q0 = r\n#z0 = Z\n#F = {q}\n");
    assert!(matches!(e, SpecError::q0NotInQ));
}

#[test]
fn pda_final_states_declared() {
    let e = pda_spec_error("#Q = {q}\n#S = {a}\n#G = {Z}\n#q0 = q\n#z0 = Z\n#F = {r}\n");
    assert!(matches!(e, SpecError::FNotSubsetQ));
}

const PDA_HEAD: &str = "#Q = {q}\n#S = {a}\n#G = {Z}\n#q0 = q\n#z0 = Z\n#F = {q}\n";

#[test]
fn pda_rule_states_declared() {
    let e = pda_spec_error(&format!("{}q a Z r Z\n", PDA_HEAD));
    assert!(matches!(e, SpecError::TInvalidState(ref s) if s == "r"));
}

#[test]
fn pda_rule_input_symbol_declared() {
    let e = pda_spec_error(&format!("{}q b Z q Z\n", PDA_HEAD));
    assert!(matches!(e, SpecError::TInvalidSymbol('b')));
}

#[test]
fn pda_rule_stack_top_not_epsilon() {
    let e = pda_spec_error(&format!("{}q a _ q Z\n", PDA_HEAD));
    assert!(matches!(e, SpecError::TInvalidSymbol('_')));
}

#[test]
fn pda_rule_push_declared() {
    let e = pda_spec_error(&format!("{}q a Z q ZY\n", PDA_HEAD));
    assert!(matches!(e, SpecError::TInvalidSymbol('Y')));
}

#[test]
fn pda_rule_symbols_single() {
    let e = pda_spec_error(&format!("{}q aa Z q Z\n", PDA_HEAD));
    assert!(matches!(e, SpecError::MultiCharSymbol(ref v) if v == "aa"));
}

#[test]
fn pda_syntax_error() {
    match PushDownAutomata::from_str("#Q = {q}\n#S\n") {
        Err((pos, ParseError::Syntax(_))) => {
            assert_eq!(pos.row, 1);
            assert_eq!(pos.col, 3);
        }
        r => panic!("unexpected {:?}", r.map(|_| ())),
    }
}

#[test]
fn pda_parses_through_from_str_trait() {
    let m: PushDownAutomata = ANBN.parse().unwrap();
    assert_eq!(m.z0(), 'Z');
}
