use vstd::prelude::*;

use crate::compiler::{
    BACKSLASH, BAR, CLOSE_PAREN, OPEN_PAREN, STAR,
    alternate_spec, byte_at, compile_spec, escape_of, escaped_term_spec, expr_loop_spec, expr_spec,
    group_spec,
    is_alphabet, postfix_spec, rest_spec, step, term_spec, CompileError,
};
use crate::nfa::{epsilon_to, ErrorKind, NfaModel, Transition, MAX_STATES};
use crate::reach::{accepts, lemma_single_edge_language, single_edge};

verus! {

/// A single alphabet symbol compiles to a start state whose one transition,
/// labelled with the symbol, leads to the accept state.
pub proof fn lemma_single_symbol(cap: nat, x: u8)
    requires
        is_alphabet(x),
        2 <= cap <= MAX_STATES,
    ensures
        compile_spec(cap, seq![x]) is Ok,
        ({
            let m = compile_spec(cap, seq![x])->Ok_0;
            &&& m.has_fragment()
            &&& m.states[m.start] == seq![
                Transition { on_character: Some(x), to_state_idx: m.accept as u8 },
            ]
        }),
{
    let input = seq![x];
    assert(byte_at(input, 0) == Some(x));
    assert(byte_at(input, 1) == None::<u8>);
    let m1 = NfaModel::empty().add_term(cap, Some(x))->Ok_0;
    assert(term_spec(NfaModel::empty(), cap, input, 0) == Ok::<(NfaModel, int), CompileError>(
        (m1, 1),
    ));
    assert(expr_loop_spec(m1, cap, input, 1) == Ok::<(NfaModel, int), CompileError>((m1, 1)));
}

/// A single alphabet symbol compiles to an automaton that accepts that
/// one-byte word and rejects every other word, the empty one included.
pub proof fn lemma_symbol_language(cap: nat, x: u8, w: Seq<u8>)
    requires
        is_alphabet(x),
        2 <= cap <= MAX_STATES,
    ensures
        compile_spec(cap, seq![x]) is Ok,
        accepts(compile_spec(cap, seq![x])->Ok_0, w) <==> w == seq![x],
{
    let input = seq![x];
    assert(byte_at(input, 0) == Some(x));
    assert(byte_at(input, 1) == None::<u8>);
    let m1 = NfaModel::empty().add_term(cap, Some(x))->Ok_0;
    assert(term_spec(NfaModel::empty(), cap, input, 0) == Ok::<(NfaModel, int), CompileError>(
        (m1, 1),
    ));
    assert(expr_loop_spec(m1, cap, input, 1) == Ok::<(NfaModel, int), CompileError>((m1, 1)));
    assert(single_edge(m1, x));
    lemma_single_edge_language(m1, x, w);
}

/// A backslash followed by an escapable byte compiles to an automaton that
/// accepts exactly the one-byte word of the symbol it stands for; `\*`
/// accepts `*` alone.
pub proof fn lemma_escape_language(cap: nat, c: u8, w: Seq<u8>)
    requires
        escape_of(c) is Some,
        2 <= cap <= MAX_STATES,
    ensures
        compile_spec(cap, seq![BACKSLASH, c]) is Ok,
        accepts(compile_spec(cap, seq![BACKSLASH, c])->Ok_0, w) <==> w == seq![escape_of(c)->Some_0],
{
    let input = seq![BACKSLASH, c];
    let sym = escape_of(c)->Some_0;
    assert(byte_at(input, 0) == Some(BACKSLASH));
    assert(byte_at(input, 1) == Some(c));
    assert(byte_at(input, 2) == None::<u8>);
    let m1 = NfaModel::empty().add_term(cap, Some(sym))->Ok_0;
    assert(escaped_term_spec(NfaModel::empty(), cap, input, 1) == Ok::<(NfaModel, int), CompileError>(
        (m1, 2),
    ));
    assert(term_spec(NfaModel::empty(), cap, input, 0) == Ok::<(NfaModel, int), CompileError>(
        (m1, 2),
    ));
    assert(expr_loop_spec(m1, cap, input, 2) == Ok::<(NfaModel, int), CompileError>((m1, 2)));
    assert(single_edge(m1, sym));
    lemma_single_edge_language(m1, sym, w);
}

/// Compilation depends on the input bytes and the capacity alone: equal
/// inputs give the same state count, the same start and accept states and
/// the same transitions, or the same error at the same offset.
pub proof fn lemma_deterministic(cap: nat, a: Seq<u8>, b: Seq<u8>)
    requires
        a == b,
    ensures
        compile_spec(cap, a) == compile_spec(cap, b),
        compile_spec(cap, a) is Ok ==> {
            let ma = compile_spec(cap, a)->Ok_0;
            let mb = compile_spec(cap, b)->Ok_0;
            &&& ma.len() == mb.len()
            &&& ma.start == mb.start
            &&& ma.accept == mb.accept
            &&& forall|i: int| 0 <= i < ma.len() ==> #[trigger] ma.states[i] == mb.states[i]
        },
{
}

/// How a parse step with capacity `cap` relates to the same step with a
/// larger capacity that succeeded: the same outcome where the result fits
/// in `cap` states, a state-capacity error where it does not.
pub open spec fn capacity_only_refuses(
    small: Result<(NfaModel, int), CompileError>,
    big: Result<(NfaModel, int), CompileError>,
    m: NfaModel,
    cap: nat,
) -> bool {
    big is Ok ==> {
        &&& m.len() <= big->Ok_0.0.len()
        &&& big->Ok_0.0.has_fragment()
        &&& if big->Ok_0.0.len() <= cap {
            small == big
        } else {
            small is Err && small->Err_0.kind == ErrorKind::StateCapacityExceeded
        }
    }
}

proof fn lemma_step_capacity(
    small: Result<NfaModel, ErrorKind>,
    big: Result<NfaModel, ErrorKind>,
    m: NfaModel,
    cap: nat,
    offset: int,
    next: int,
)
    requires
        big is Ok ==> {
            &&& m.len() <= big->Ok_0.len()
            &&& big->Ok_0.has_fragment()
            &&& if big->Ok_0.len() <= cap {
                small == big
            } else {
                small == Err::<NfaModel, ErrorKind>(ErrorKind::StateCapacityExceeded)
            }
        },
    ensures
        capacity_only_refuses(step(small, offset, next), step(big, offset, next), m, cap),
{
}

proof fn lemma_add_term_capacity(m: NfaModel, cap: nat, big: nat, on: Option<u8>)
    requires
        cap <= big,
    ensures
        m.add_term(big, on) is Ok ==> {
            &&& m.len() <= m.add_term(big, on)->Ok_0.len()
            &&& if m.add_term(big, on)->Ok_0.len() <= cap {
                m.add_term(cap, on) == m.add_term(big, on)
            } else {
                m.add_term(cap, on) == Err::<NfaModel, ErrorKind>(
                    ErrorKind::StateCapacityExceeded,
                )
            }
        },
{
}

proof fn lemma_add_edge_len(m: NfaModel, from: int, t: Transition)
    requires
        0 <= from < m.len(),
    ensures
        m.add_edge(from, t) is Ok ==> m.add_edge(from, t)->Ok_0.len() == m.len(),
{
}

proof fn lemma_product_len(m: NfaModel, ps: int, pa: int)
    requires
        m.has_fragment(),
        0 <= ps < m.len(),
        0 <= pa < m.len(),
    ensures
        m.product(ps, pa) is Ok ==> m.product(ps, pa)->Ok_0.len() == m.len() && m.product(
            ps,
            pa,
        )->Ok_0.has_fragment(),
{
}

proof fn lemma_kleene_capacity(m: NfaModel, cap: nat, big: nat)
    requires
        cap <= big,
        m.has_fragment(),
    ensures
        m.kleene_star(big) is Ok ==> {
            &&& m.len() <= m.kleene_star(big)->Ok_0.len()
            &&& m.kleene_star(big)->Ok_0.has_fragment()
            &&& if m.kleene_star(big)->Ok_0.len() <= cap {
                m.kleene_star(cap) == m.kleene_star(big)
            } else {
                m.kleene_star(cap) == Err::<NfaModel, ErrorKind>(
                    ErrorKind::StateCapacityExceeded,
                )
            }
        },
{
    let i = m.len();
    let f = i + 1;
    if i + 2 <= big {
        let grown = m.states.push(seq![epsilon_to(m.start), epsilon_to(f)]).push(Seq::empty());
        let g = NfaModel { states: grown, ..m };
        lemma_add_edge_len(g, m.accept, epsilon_to(m.start));
        if g.add_edge(m.accept, epsilon_to(m.start)) is Ok {
            let g1 = g.add_edge(m.accept, epsilon_to(m.start))->Ok_0;
            lemma_add_edge_len(g1, m.accept, epsilon_to(f));
        }
    }
}

proof fn lemma_alternate_fragments_capacity(m: NfaModel, cap: nat, big: nat, ps: int, pa: int)
    requires
        cap <= big,
        m.has_fragment(),
        0 <= ps < m.len(),
        0 <= pa < m.len(),
    ensures
        m.alternate_fragments(big, ps, pa) is Ok ==> {
            &&& m.len() <= m.alternate_fragments(big, ps, pa)->Ok_0.len()
            &&& m.alternate_fragments(big, ps, pa)->Ok_0.has_fragment()
            &&& if m.alternate_fragments(big, ps, pa)->Ok_0.len() <= cap {
                m.alternate_fragments(cap, ps, pa) == m.alternate_fragments(big, ps, pa)
            } else {
                m.alternate_fragments(cap, ps, pa) == Err::<NfaModel, ErrorKind>(
                    ErrorKind::StateCapacityExceeded,
                )
            }
        },
{
    let i = m.len();
    let f = i + 1;
    if i + 2 <= big {
        let grown = m.states.push(seq![epsilon_to(ps), epsilon_to(m.start)]).push(Seq::empty());
        let g = NfaModel { states: grown, ..m };
        lemma_add_edge_len(g, pa, epsilon_to(f));
        if g.add_edge(pa, epsilon_to(f)) is Ok {
            let g1 = g.add_edge(pa, epsilon_to(f))->Ok_0;
            lemma_add_edge_len(g1, m.accept, epsilon_to(f));
        }
    }
}

proof fn lemma_postfix_capacity(m: NfaModel, cap: nat, big: nat, input: Seq<u8>, idx: int)
    requires
        m.len() <= cap <= big,
        m.has_fragment(),
    ensures
        capacity_only_refuses(
            postfix_spec(m, cap, input, idx),
            postfix_spec(m, big, input, idx),
            m,
            cap,
        ),
{
    lemma_kleene_capacity(m, cap, big);
    if byte_at(input, idx) == Some(STAR) {
        lemma_step_capacity(m.kleene_star(cap), m.kleene_star(big), m, cap, idx, idx + 1);
    }
}

proof fn lemma_term_capacity(m: NfaModel, cap: nat, big: nat, input: Seq<u8>, idx: int)
    requires
        m.len() <= cap <= big,
    ensures
        capacity_only_refuses(term_spec(m, cap, input, idx), term_spec(m, big, input, idx), m, cap),
{
    lemma_add_term_capacity(m, cap, big, None);
    match byte_at(input, idx) {
        Some(c) => {
            if c == BACKSLASH {
                match byte_at(input, idx + 1) {
                    Some(d) => match escape_of(d) {
                        Some(sym) => {
                            lemma_add_term_capacity(m, cap, big, Some(sym));
                            if m.add_term(big, Some(sym)) is Ok {
                                let m1 = m.add_term(big, Some(sym))->Ok_0;
                                if m1.len() <= cap {
                                    lemma_postfix_capacity(m1, cap, big, input, idx + 2);
                                }
                            }
                        },
                        None => {},
                    },
                    None => {},
                }
            } else if is_alphabet(c) {
                lemma_add_term_capacity(m, cap, big, Some(c));
                if m.add_term(big, Some(c)) is Ok {
                    let m1 = m.add_term(big, Some(c))->Ok_0;
                    if m1.len() <= cap {
                        lemma_postfix_capacity(m1, cap, big, input, idx + 1);
                    }
                }
            } else {
                lemma_step_capacity(m.add_term(cap, None), m.add_term(big, None), m, cap, idx, idx);
            }
        },
        None => {
            lemma_step_capacity(m.add_term(cap, None), m.add_term(big, None), m, cap, idx, idx);
        },
    }
}

proof fn lemma_expr_capacity(m: NfaModel, cap: nat, big: nat, input: Seq<u8>, idx: int)
    requires
        m.len() <= cap <= big,
    ensures
        capacity_only_refuses(expr_spec(m, cap, input, idx), expr_spec(m, big, input, idx), m, cap),
    decreases input.len() - idx, 3int,
{
    lemma_term_capacity(m, cap, big, input, idx);
    lemma_term_capacity(m, big, big, input, idx);
    if term_spec(m, big, input, idx) is Ok {
        let (m1, i1) = term_spec(m, big, input, idx)->Ok_0;
        lemma_expr_loop_capacity(m1, big, big, input, i1);
        if m1.len() <= cap {
            lemma_expr_loop_capacity(m1, cap, big, input, i1);
        }
    }
}

proof fn lemma_expr_loop_capacity(m: NfaModel, cap: nat, big: nat, input: Seq<u8>, idx: int)
    requires
        m.len() <= cap <= big,
        m.has_fragment(),
    ensures
        capacity_only_refuses(
            expr_loop_spec(m, cap, input, idx),
            expr_loop_spec(m, big, input, idx),
            m,
            cap,
        ),
    decreases input.len() - idx, 2int,
{
    if idx < input.len() {
        lemma_rest_capacity(m, cap, big, input, idx);
        lemma_rest_capacity(m, big, big, input, idx);
        if rest_spec(m, big, input, idx) is Ok {
            let (m1, i1) = rest_spec(m, big, input, idx)->Ok_0;
            if idx < i1 <= input.len() {
                lemma_expr_loop_capacity(m1, big, big, input, i1);
                if m1.len() <= cap {
                    lemma_expr_loop_capacity(m1, cap, big, input, i1);
                }
            }
        }
    }
}

proof fn lemma_rest_capacity(m: NfaModel, cap: nat, big: nat, input: Seq<u8>, idx: int)
    requires
        m.len() <= cap <= big,
        m.has_fragment(),
    ensures
        capacity_only_refuses(rest_spec(m, cap, input, idx), rest_spec(m, big, input, idx), m, cap),
    decreases input.len() - idx, 1int,
{
    if byte_at(input, idx) == Some(OPEN_PAREN) {
        lemma_group_capacity(m, cap, big, input, idx);
    } else if byte_at(input, idx) == Some(BAR) {
        lemma_alternate_capacity(m, cap, big, input, idx);
    } else {
        lemma_term_capacity(m, cap, big, input, idx);
        if term_spec(m, big, input, idx) is Ok {
            let (m1, i1) = term_spec(m, big, input, idx)->Ok_0;
            if m1.len() <= cap {
                lemma_product_len(m1, m.start, m.accept);
                lemma_step_capacity(
                    m1.product(m.start, m.accept),
                    m1.product(m.start, m.accept),
                    m,
                    cap,
                    i1,
                    i1,
                );
            }
        }
    }
}

proof fn lemma_group_capacity(m: NfaModel, cap: nat, big: nat, input: Seq<u8>, idx: int)
    requires
        m.len() <= cap <= big,
        m.has_fragment(),
    ensures
        capacity_only_refuses(group_spec(m, cap, input, idx), group_spec(m, big, input, idx), m, cap),
    decreases input.len() - idx, 0int,
{
    if byte_at(input, idx) == Some(OPEN_PAREN) {
        lemma_expr_capacity(m, cap, big, input, idx + 1);
        if expr_spec(m, big, input, idx + 1) is Ok {
            let (m1, i1) = expr_spec(m, big, input, idx + 1)->Ok_0;
            if m1.len() <= cap && byte_at(input, i1) == Some(CLOSE_PAREN) {
                lemma_postfix_capacity(m1, cap, big, input, i1 + 1);
                if postfix_spec(m1, big, input, i1 + 1) is Ok {
                    let (m2, i2) = postfix_spec(m1, big, input, i1 + 1)->Ok_0;
                    if m2.len() <= cap {
                        lemma_product_len(m2, m.start, m.accept);
                        lemma_step_capacity(
                            m2.product(m.start, m.accept),
                            m2.product(m.start, m.accept),
                            m,
                            cap,
                            i2,
                            i2,
                        );
                    }
                }
            }
        }
    }
}

proof fn lemma_alternate_capacity(m: NfaModel, cap: nat, big: nat, input: Seq<u8>, idx: int)
    requires
        m.len() <= cap <= big,
        m.has_fragment(),
    ensures
        capacity_only_refuses(
            alternate_spec(m, cap, input, idx),
            alternate_spec(m, big, input, idx),
            m,
            cap,
        ),
    decreases input.len() - idx, 0int,
{
    if 0 <= idx < input.len() {
        lemma_expr_capacity(m, cap, big, input, idx + 1);
        if expr_spec(m, big, input, idx + 1) is Ok {
            let (m1, i1) = expr_spec(m, big, input, idx + 1)->Ok_0;
            if m1.len() <= cap {
                lemma_alternate_fragments_capacity(m1, cap, big, m.start, m.accept);
                lemma_step_capacity(
                    m1.alternate_fragments(cap, m.start, m.accept),
                    m1.alternate_fragments(big, m.start, m.accept),
                    m1,
                    cap,
                    i1,
                    i1,
                );
            }
        }
    }
}

/// The capacity never changes the automaton that is built: where compiling
/// with room for `big` states succeeds, compiling with room for `cap <= big`
/// states gives the same automaton if it has at most `cap` states, and fails
/// with a state-capacity error otherwise.
pub proof fn lemma_capacity_guard(cap: nat, big: nat, input: Seq<u8>)
    requires
        cap <= big,
        compile_spec(big, input) is Ok,
    ensures
        compile_spec(big, input)->Ok_0.len() <= cap ==> compile_spec(cap, input) == compile_spec(
            big,
            input,
        ),
        compile_spec(big, input)->Ok_0.len() > cap ==> {
            &&& compile_spec(cap, input) is Err
            &&& compile_spec(cap, input)->Err_0.kind == ErrorKind::StateCapacityExceeded
        },
{
    lemma_expr_capacity(NfaModel::empty(), cap, big, input, 0);
}

} // verus!
