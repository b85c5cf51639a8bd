use thompson_nfa::compiler::CompileError;
use thompson_nfa::nfa::{ErrorKind, Nfa, Transition};

fn compile(re: &[u8]) -> Nfa<256> {
    match Nfa::<256>::from_regex_bytes(re) {
        Ok(n) => n,
        Err(e) => panic!("{:?} did not compile: {:?}", re, e),
    }
}

fn compile_err<const N: usize>(re: &[u8]) -> CompileError {
    match Nfa::<N>::from_regex_bytes(re) {
        Ok(_) => panic!("{:?} compiled", re),
        Err(e) => e,
    }
}

fn closure<const N: usize>(nfa: &Nfa<N>, set: &mut Vec<bool>) {
    let mut changed = true;
    while changed {
        changed = false;
        for i in 0..nfa.state_count() {
            if !set[i] {
                continue;
            }
            for t in nfa.transitions_of(i) {
                if t.on_character.is_none() && !set[t.to_state_idx as usize] {
                    set[t.to_state_idx as usize] = true;
                    changed = true;
                }
            }
        }
    }
}

/// Runs the automaton on `word` by epsilon closures.
fn accepts<const N: usize>(nfa: &Nfa<N>, word: &[u8]) -> bool {
    let n = nfa.state_count();
    let mut current = vec![false; n];
    current[nfa.start() as usize] = true;
    closure(nfa, &mut current);
    for &b in word {
        let mut next = vec![false; n];
        for i in 0..n {
            if current[i] {
                for t in nfa.transitions_of(i) {
                    if t.on_character == Some(b) {
                        next[t.to_state_idx as usize] = true;
                    }
                }
            }
        }
        closure(nfa, &mut next);
        current = next;
    }
    current[nfa.accept() as usize]
}

fn alphabet() -> Vec<u8> {
    let mut v: Vec<u8> = Vec::new();
    v.extend(b'a'..=b'z');
    v.extend(b'A'..=b'Z');
    v.extend(b'0'..=b'9');
    v.extend(b"!@#%&-=+;:\",<>/`~ '".iter().copied());
    v
}

#[test]
fn single_symbol_has_one_labelled_transition() {
    for x in alphabet() {
        let nfa = compile(&[x]);
        let ts = nfa.transitions_of(nfa.start() as usize);
        assert_eq!(ts.len(), 1, "symbol {}", x);
        assert_eq!(ts[0], Transition { on_character: Some(x), to_state_idx: nfa.accept() });
    }
}

#[test]
fn single_symbol_layout() {
    let nfa = compile(b"a");
    assert_eq!(nfa.state_count(), 2);
    assert_eq!(nfa.start(), 0);
    assert_eq!(nfa.accept(), 1);
    assert!(nfa.transitions_of(1).is_empty());
}

#[test]
fn symbol_accepts_only_itself() {
    let nfa = compile(b"a");
    assert!(accepts(&nfa, b"a"));
    for w in [&b""[..], b"b", b"aa", b"ab", b"ba", b"A"] {
        assert!(!accepts(&nfa, w), "{:?}", w);
    }
}

#[test]
fn star_repeats() {
    let nfa = compile(b"a*");
    assert!(accepts(&nfa, b""));
    assert!(accepts(&nfa, b"a"));
    assert!(accepts(&nfa, b"aaaa"));
    assert!(!accepts(&nfa, b"b"));
    assert!(!accepts(&nfa, b"ab"));
}

#[test]
fn alternation_picks_one_side() {
    let nfa = compile(b"a|b");
    assert!(accepts(&nfa, b"a"));
    assert!(accepts(&nfa, b"b"));
    assert!(!accepts(&nfa, b"ab"));
    assert!(!accepts(&nfa, b""));
}

#[test]
fn alternation_layout() {
    let nfa = compile(b"a|b");
    assert_eq!(nfa.state_count(), 6);
    assert_eq!(nfa.start(), 4);
    assert_eq!(nfa.accept(), 5);
    let eps = |to: u8| Transition { on_character: None, to_state_idx: to };
    assert_eq!(nfa.transitions_of(4), vec![eps(0), eps(2)]);
    assert_eq!(nfa.transitions_of(1), vec![eps(5)]);
    assert_eq!(nfa.transitions_of(3), vec![eps(5)]);
}

#[test]
fn group_then_concatenation() {
    let nfa = compile(b"(a|b)c");
    assert!(accepts(&nfa, b"ac"));
    assert!(accepts(&nfa, b"bc"));
    assert!(!accepts(&nfa, b"a"));
    assert!(!accepts(&nfa, b"c"));
    assert!(!accepts(&nfa, b"abc"));
}

#[test]
fn escaped_star_is_literal() {
    let nfa = compile(b"\\*");
    assert!(accepts(&nfa, b"*"));
    for w in [&b""[..], b"**", b"\\*", b"a"] {
        assert!(!accepts(&nfa, w), "{:?}", w);
    }
}

#[test]
fn escaped_newline_and_tab() {
    let nfa = compile(b"\\n\\t");
    assert!(accepts(&nfa, b"\n\t"));
    assert!(!accepts(&nfa, b"nt"));
}

#[test]
fn concatenation_leaves_an_orphan() {
    let nfa = compile(b"ab");
    assert_eq!(nfa.state_count(), 4);
    assert_eq!(nfa.start(), 0);
    assert_eq!(nfa.accept(), 3);
    assert_eq!(nfa.transitions_of(1), vec![Transition { on_character: Some(b'b'), to_state_idx: 3 }]);
    assert!(nfa.transitions_of(2).is_empty());
    assert!(accepts(&nfa, b"ab"));
    assert!(!accepts(&nfa, b"a"));
}

#[test]
fn empty_expression_accepts_empty_word() {
    let nfa = compile(b"");
    assert_eq!(nfa.state_count(), 2);
    assert!(accepts(&nfa, b""));
    assert!(!accepts(&nfa, b"a"));
}

#[test]
fn larger_expressions() {
    let nfa = compile(b"(apple|banana)*");
    assert!(accepts(&nfa, b""));
    assert!(accepts(&nfa, b"applebananaapple"));
    assert!(!accepts(&nfa, b"applebanan"));
    let nfa = compile(b"ap*le|bana*na");
    assert!(accepts(&nfa, b"ale"));
    assert!(accepts(&nfa, b"appple"));
    assert!(accepts(&nfa, b"bnna") == false);
    assert!(accepts(&nfa, b"banaaana"));
    let nfa = compile(b"wow(apple)cat");
    assert!(accepts(&nfa, b"wowapplecat"));
    assert!(!accepts(&nfa, b"wowcat"));
    let nfa = compile(b"(x|y|z)*");
    assert!(accepts(&nfa, b"xyzzy"));
    assert!(!accepts(&nfa, b"xa"));
}

#[test]
fn compiling_twice_gives_the_same_automaton() {
    for re in [&b"(a|b)c"[..], b"ap*le|bana*na", b"a*", b""] {
        let x = compile(re);
        let y = compile(re);
        assert_eq!(x.state_count(), y.state_count());
        assert_eq!(x.start(), y.start());
        assert_eq!(x.accept(), y.accept());
        for i in 0..x.state_count() {
            assert_eq!(x.transitions_of(i), y.transitions_of(i));
        }
    }
    assert_eq!(compile_err::<256>(b"a)"), compile_err::<256>(b"a)"));
}

#[test]
fn long_chain_exceeds_state_capacity() {
    let e = compile_err::<8>(b"abcdefgh");
    assert_eq!(e.kind, ErrorKind::StateCapacityExceeded);
    let nfa = compile(b"abcdefgh");
    assert_eq!(nfa.state_count(), 16);
}

#[test]
fn capacity_that_fits_gives_the_same_automaton() {
    let small = Nfa::<16>::from_regex_bytes(b"abcdefgh").unwrap();
    let big = compile(b"abcdefgh");
    assert_eq!(small.state_count(), big.state_count());
    assert_eq!(small.start(), big.start());
    assert_eq!(small.accept(), big.accept());
    for i in 0..small.state_count() {
        assert_eq!(small.transitions_of(i), big.transitions_of(i));
    }
    assert_eq!(compile_err::<15>(b"abcdefgh").kind, ErrorKind::StateCapacityExceeded);
}

#[test]
fn zero_capacity_refuses_everything() {
    assert_eq!(
        compile_err::<0>(b""),
        CompileError { kind: ErrorKind::StateCapacityExceeded, offset: 0 }
    );
}

#[test]
fn unterminated_group() {
    assert_eq!(compile_err::<256>(b"(a").kind, ErrorKind::UnterminatedGroup);
    assert_eq!(
        compile_err::<256>(b"(a"),
        CompileError { kind: ErrorKind::UnterminatedGroup, offset: 2 }
    );
}

#[test]
fn trailing_close_paren() {
    assert_eq!(
        compile_err::<256>(b"a)"),
        CompileError { kind: ErrorKind::UnexpectedTrailingInput, offset: 1 }
    );
}

#[test]
fn lone_backslash() {
    assert_eq!(
        compile_err::<256>(b"\\"),
        CompileError { kind: ErrorKind::UnexpectedEndOfInputAfterEscape, offset: 1 }
    );
}

#[test]
fn unknown_escape() {
    assert_eq!(
        compile_err::<256>(b"a\\q"),
        CompileError { kind: ErrorKind::UnknownEscapedCharacter, offset: 2 }
    );
}

#[test]
fn plus_is_a_literal_symbol() {
    let nfa = compile(b"a+");
    assert!(accepts(&nfa, b"a+"));
    assert!(!accepts(&nfa, b"aa"));
}

#[test]
fn leading_star_is_trailing_input() {
    assert_eq!(
        compile_err::<256>(b"*"),
        CompileError { kind: ErrorKind::UnexpectedTrailingInput, offset: 0 }
    );
}
