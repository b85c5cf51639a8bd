use thompson_nfa::compiler::{is_alphabet_byte, escaped_symbol, CompileError};
use thompson_nfa::nfa::{ErrorKind, Nfa, State, Transition};
use thompson_nfa::render::{dbgnfa, error_input_progress, itoa};

fn eps(to: u8) -> Transition {
    Transition { on_character: None, to_state_idx: to }
}

#[test]
fn add_transition_appends() {
    let s = State::new().add_transition(Some(b'x'), 3).add_transition(None, 5);
    assert_eq!(s.transition_count(), 2);
    assert_eq!(s.transition(0), Transition { on_character: Some(b'x'), to_state_idx: 3 });
    assert_eq!(s.transition(1), eps(5));
}

#[test]
fn terms_allocate_two_states() {
    let n = Nfa::<8>::new().add_empty_term().unwrap();
    assert_eq!(n.state_count(), 2);
    assert_eq!(n.transitions_of(0), vec![eps(1)]);
    let n = n.add_alphabet_term(b'z').unwrap();
    assert_eq!((n.start(), n.accept()), (2, 3));
    assert_eq!(n.transitions_of(2), vec![Transition { on_character: Some(b'z'), to_state_idx: 3 }]);
}

#[test]
fn term_beyond_capacity() {
    let n = Nfa::<3>::new().add_term(Some(b'a')).unwrap();
    assert_eq!(n.add_term(None).err(), Some(ErrorKind::StateCapacityExceeded));
}

#[test]
fn kleene_star_edges() {
    let n = Nfa::<8>::new().add_alphabet_term(b'a').unwrap().kleene_star().unwrap();
    assert_eq!((n.start(), n.accept()), (2, 3));
    assert_eq!(n.transitions_of(2), vec![eps(0), eps(3)]);
    assert_eq!(n.transitions_of(1), vec![eps(0), eps(3)]);
}

#[test]
fn product_moves_transitions() {
    let n = Nfa::<8>::new().add_alphabet_term(b'a').unwrap();
    let n = n.add_alphabet_term(b'b').unwrap().product(0, 1).unwrap();
    assert_eq!((n.start(), n.accept()), (0, 3));
    assert_eq!(n.transitions_of(1), vec![Transition { on_character: Some(b'b'), to_state_idx: 3 }]);
    assert!(n.transitions_of(2).is_empty());
}

#[test]
fn alternate_fragments_edges() {
    let n = Nfa::<8>::new().add_alphabet_term(b'a').unwrap();
    let n = n.add_alphabet_term(b'b').unwrap().alternate_fragments(0, 1).unwrap();
    assert_eq!((n.start(), n.accept()), (4, 5));
    assert_eq!(n.transitions_of(4), vec![eps(0), eps(2)]);
    assert_eq!(n.transitions_of(1), vec![eps(5)]);
    assert_eq!(n.transitions_of(3), vec![eps(5)]);
}

#[test]
fn product_beyond_transition_capacity() {
    // state 1 ends with four transitions after two stars are fused onto it
    let n = Nfa::<32>::new().add_alphabet_term(b'a').unwrap();
    let n = n.add_alphabet_term(b'b').unwrap().kleene_star().unwrap().product(0, 1).unwrap();
    let n = n.add_alphabet_term(b'c').unwrap().kleene_star().unwrap().product(0, 1).unwrap();
    assert_eq!(n.transitions_of(1).len(), 4);
    let n = n.add_alphabet_term(b'd').unwrap();
    assert_eq!(n.product(0, 1).err(), Some(ErrorKind::TransitionCapacityExceeded));
}

#[test]
fn group_needs_open_paren() {
    let n = Nfa::<8>::new().add_empty_term().unwrap();
    assert_eq!(
        n.group(b"a", 0).err(),
        Some(CompileError { kind: ErrorKind::ExpectedOpenParen, offset: 0 })
    );
}

#[test]
fn parser_steps() {
    let n = Nfa::<16>::new();
    let (n, pos) = n.term(b"a*b", 0).unwrap();
    assert_eq!(pos, 2);
    let (n, pos) = n.rest(b"a*b", pos).unwrap();
    assert_eq!(pos, 3);
    assert_eq!(n.state_count(), 6);
    let (_, pos) = Nfa::<16>::new().expr(b"ab)c", 0).unwrap();
    assert_eq!(pos, 2);
    let (_, pos) = Nfa::<16>::new().escaped_term(b"\\(", 1).unwrap();
    assert_eq!(pos, 2);
    let n = Nfa::<16>::new().add_empty_term().unwrap();
    let (n, pos) = n.postfix(b"x", 0).unwrap();
    assert_eq!((pos, n.state_count()), (0, 2));
    let (n, pos) = n.alternate(b"|b", 0).unwrap();
    assert_eq!((pos, n.start(), n.accept()), (2, 4, 5));
}

#[test]
fn alphabet_and_escapes() {
    assert!(is_alphabet_byte(b'q'));
    assert!(is_alphabet_byte(b'\''));
    assert!(!is_alphabet_byte(b'*'));
    assert!(!is_alphabet_byte(b'\\'));
    assert_eq!(escaped_symbol(b'n'), Some(b'\n'));
    assert_eq!(escaped_symbol(b't'), Some(b'\t'));
    assert_eq!(escaped_symbol(b'|'), Some(b'|'));
    assert_eq!(escaped_symbol(b'a'), None);
}

#[test]
fn itoa_digits() {
    assert_eq!(itoa(0), b"0".to_vec());
    assert_eq!(itoa(7), b"7".to_vec());
    assert_eq!(itoa(1234), b"1234".to_vec());
    assert_eq!(itoa(u32::MAX), b"4294967295".to_vec());
}

#[test]
fn graph_of_single_symbol() {
    let n = Nfa::<256>::from_regex_bytes(b"a").unwrap();
    let text = String::from_utf8(n.debug_print(b"p")).unwrap();
    assert_eq!(
        text,
        "subgraph p {\n  label = \"p\";\n  rankdir=\"LR\";\n  p0 [shape=box];\n  p1 [shape=doublecircle];\n  p1[label=\"S1\"];\n  p0 -> p1[label=\"a\"];\n}\n"
    );
}

#[test]
fn graph_epsilon_label() {
    let n = Nfa::<256>::from_regex_bytes(b"").unwrap();
    let text = String::from_utf8(n.debug_print(b"e")).unwrap();
    assert!(text.contains("  e0 -> e1[label=\"\u{3b5}\"];\n"));
}

#[test]
fn dump_of_single_symbol() {
    let n = Nfa::<4>::from_regex_bytes(b"a").unwrap();
    let text = String::from_utf8(dbgnfa(b"x", &n)).unwrap();
    assert_eq!(
        text,
        "\x1b[33mx\x1b[0m: NFA<4> { start_idx: 0, accept_idx: 1, state_count: 2}\n  ^ 0: {a\u{2192}1, }\n  $ 1: {}\n"
    );
}

#[test]
fn progress_marker_points_at_offset() {
    assert_eq!(error_input_progress(b"a)", 1), b"a)\n~^\n".to_vec());
    assert_eq!(error_input_progress(b"(a", 0), b"(a\n^\n".to_vec());
}
