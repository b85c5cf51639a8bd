use vstd::prelude::*;

use crate::compiler::{
    BACKSLASH, BAR, CLOSE_PAREN, OPEN_PAREN, STAR,
    alternate_spec, byte_at, compile_spec, escape_of, expr_loop_spec, expr_spec, group_spec,
    is_alphabet, postfix_spec, rest_spec, term_spec, CompileError,
};
use crate::nfa::{epsilon_to, NfaModel, Transition, MAX_STATES};

verus! {

/// Some transition of state `a` leads to state `b`.
pub open spec fn has_edge(m: NfaModel, a: int, b: int) -> bool {
    exists|j: int| 0 <= j < m.states[a].len() && m.states[a][j].to_state_idx as int == b
}

/// `p` is a walk along transitions through states in `lo .. m.len()`.
pub open spec fn is_path_within(m: NfaModel, p: Seq<int>, lo: int) -> bool {
    &&& p.len() >= 1
    &&& forall|k: int| 0 <= k < p.len() ==> lo <= #[trigger] p[k] < m.len()
    &&& forall|k: int| 0 <= k < p.len() - 1 ==> has_edge(m, #[trigger] p[k], p[k + 1])
}

/// State `b` can be reached from state `a` through states in `lo .. m.len()`.
pub open spec fn reaches_within(m: NfaModel, a: int, b: int, lo: int) -> bool {
    exists|p: Seq<int>| is_path_within(m, p, lo) && p[0] == a && p.last() == b
}

/// The accept state of the current fragment can be reached from its start
/// state, following recorded transitions of either kind.
pub open spec fn accept_reachable(m: NfaModel) -> bool {
    reaches_within(m, m.start, m.accept, 0)
}

/// The current fragment lies in `lo .. m.len()`, has distinct start and
/// accept states, and leads from one to the other.
pub open spec fn fragment_ok(m: NfaModel, lo: int) -> bool {
    &&& m.has_fragment()
    &&& 0 <= lo
    &&& m.start != m.accept
    &&& reaches_within(m, m.start, m.accept, lo)
}

/// `s` is a prefix of `t`.
pub open spec fn is_prefix(s: Seq<Transition>, t: Seq<Transition>) -> bool {
    &&& s.len() <= t.len()
    &&& forall|j: int| 0 <= j < s.len() ==> t[j] == #[trigger] s[j]
}

/// `m2` only grew from `m`: no state removed, no transition of an old state
/// removed.
pub open spec fn kept(m: NfaModel, m2: NfaModel) -> bool {
    &&& m.len() <= m2.len()
    &&& forall|q: int| 0 <= q < m.len() ==> is_prefix(#[trigger] m.states[q], m2.states[q])
}

proof fn lemma_kept_trans(m: NfaModel, m1: NfaModel, m2: NfaModel)
    requires
        kept(m, m1),
        kept(m1, m2),
    ensures
        kept(m, m2),
{
    assert forall|q: int| 0 <= q < m.len() implies is_prefix(#[trigger] m.states[q], m2.states[q]) by {
        assert(is_prefix(m.states[q], m1.states[q]));
        assert(is_prefix(m1.states[q], m2.states[q]));
    }
}

proof fn lemma_path_kept(m: NfaModel, m2: NfaModel, p: Seq<int>, lo: int)
    requires
        0 <= lo,
        is_path_within(m, p, lo),
        kept(m, m2),
    ensures
        is_path_within(m2, p, lo),
{
    assert forall|k: int| 0 <= k < p.len() - 1 implies has_edge(m2, #[trigger] p[k], p[k + 1]) by {
        assert(has_edge(m, p[k], p[k + 1]));
        let j = choose|j: int|
            0 <= j < m.states[p[k]].len() && m.states[p[k]][j].to_state_idx as int == p[k + 1];
        assert(is_prefix(m.states[p[k]], m2.states[p[k]]));
        assert(m2.states[p[k]][j] == m.states[p[k]][j]);
    }
}

proof fn lemma_path_push(m: NfaModel, p: Seq<int>, c: int, lo: int)
    requires
        is_path_within(m, p, lo),
        has_edge(m, p.last(), c),
        lo <= c < m.len(),
    ensures
        is_path_within(m, p.push(c), lo),
{
    let q = p.push(c);
    assert forall|k: int| 0 <= k < q.len() - 1 implies has_edge(m, #[trigger] q[k], q[k + 1]) by {
        if k < p.len() - 1 {
            assert(q[k] == p[k] && q[k + 1] == p[k + 1]);
        }
    }
}

proof fn lemma_path_cons(m: NfaModel, a: int, p: Seq<int>, lo: int)
    requires
        is_path_within(m, p, lo),
        has_edge(m, a, p[0]),
        lo <= a < m.len(),
    ensures
        is_path_within(m, seq![a] + p, lo),
{
    let q = seq![a] + p;
    assert forall|k: int| 0 <= k < q.len() - 1 implies has_edge(m, #[trigger] q[k], q[k + 1]) by {
        if k > 0 {
            assert(q[k] == p[k - 1] && q[k + 1] == p[k]);
        }
    }
    assert forall|k: int| 0 <= k < q.len() implies lo <= #[trigger] q[k] < m.len() by {
        if k > 0 {
            assert(q[k] == p[k - 1]);
        }
    }
}

/// Joins a walk ending where a second one starts.
proof fn lemma_path_join(m: NfaModel, p: Seq<int>, q: Seq<int>, lo: int)
    requires
        is_path_within(m, p, lo),
        is_path_within(m, q, lo),
        p.last() == q[0],
    ensures
        is_path_within(m, p + q.drop_first(), lo),
        (p + q.drop_first())[0] == p[0],
        (p + q.drop_first()).last() == q.last(),
    decreases q.len(),
{
    let r = p + q.drop_first();
    assert forall|k: int| 0 <= k < r.len() implies lo <= #[trigger] r[k] < m.len() by {
        if k >= p.len() {
            assert(r[k] == q[k - p.len() + 1]);
        }
    }
    assert forall|k: int| 0 <= k < r.len() - 1 implies has_edge(m, #[trigger] r[k], r[k + 1]) by {
        if k < p.len() - 1 {
            assert(r[k] == p[k] && r[k + 1] == p[k + 1]);
        } else if k == p.len() - 1 {
            assert(r[k] == q[0] && r[k + 1] == q[1]);
        } else {
            assert(r[k] == q[k - p.len() + 1] && r[k + 1] == q[k - p.len() + 2]);
        }
    }
}

/// A walk between two distinct states can be cut so that it never comes
/// back to its first state.
proof fn lemma_cut(m: NfaModel, p: Seq<int>, lo: int) -> (q: Seq<int>)
    requires
        is_path_within(m, p, lo),
        p[0] != p.last(),
    ensures
        is_path_within(m, q, lo),
        q[0] == p[0],
        q.last() == p.last(),
        q.len() >= 2,
        forall|k: int| 1 <= k < q.len() ==> #[trigger] q[k] != q[0],
    decreases p.len(),
{
    if exists|k: int| 1 <= k < p.len() && #[trigger] p[k] == p[0] {
        let k = choose|k: int| 1 <= k < p.len() && #[trigger] p[k] == p[0];
        let rest = p.subrange(k, p.len() as int);
        assert forall|i: int| 0 <= i < rest.len() - 1 implies has_edge(
            m,
            #[trigger] rest[i],
            rest[i + 1],
        ) by {
            assert(rest[i] == p[k + i] && rest[i + 1] == p[k + i + 1]);
        }
        assert forall|i: int| 0 <= i < rest.len() implies lo <= #[trigger] rest[i] < m.len() by {
            assert(rest[i] == p[k + i]);
        }
        lemma_cut(m, rest, lo)
    } else {
        p
    }
}

proof fn lemma_add_term_fragment(m: NfaModel, cap: nat, on: Option<u8>)
    requires
        cap <= MAX_STATES,
        m.add_term(cap, on) is Ok,
    ensures
        ({
            let m1 = m.add_term(cap, on)->Ok_0;
            &&& fragment_ok(m1, m.len())
            &&& kept(m, m1)
            &&& m1.len() <= cap
        }),
{
    let m1 = m.add_term(cap, on)->Ok_0;
    let i = m.len();
    assert(m1.states[i][0].to_state_idx as int == i + 1);
    assert(has_edge(m1, i, i + 1));
    let p = seq![i, i + 1];
    assert(is_path_within(m1, p, m.len()));
    assert(p[0] == i && p.last() == i + 1);
    assert forall|q: int| 0 <= q < m.len() implies is_prefix(#[trigger] m.states[q], m1.states[q]) by {
        assert(m1.states[q] == m.states[q]);
    }
}

proof fn lemma_kleene_fragment(m: NfaModel, cap: nat, lo: int)
    requires
        cap <= MAX_STATES,
        fragment_ok(m, lo),
        m.kleene_star(cap) is Ok,
    ensures
        ({
            let m1 = m.kleene_star(cap)->Ok_0;
            &&& fragment_ok(m1, lo)
            &&& kept(m, m1)
            &&& m1.len() <= cap
        }),
{
    let m1 = m.kleene_star(cap)->Ok_0;
    let i = m.len();
    let f = i + 1;
    let acc = m.states[m.accept];
    assert(m1.states[m.accept] == acc.push(epsilon_to(m.start)).push(epsilon_to(f)));
    assert forall|q: int| 0 <= q < m.len() implies is_prefix(#[trigger] m.states[q], m1.states[q]) by {
        if q != m.accept {
            assert(m1.states[q] == m.states[q]);
        }
    }
    let p = choose|p: Seq<int>| is_path_within(m, p, lo) && p[0] == m.start && p.last() == m.accept;
    lemma_path_kept(m, m1, p, lo);
    assert(m1.states[i][0].to_state_idx as int == m.start);
    assert(has_edge(m1, i, m.start));
    lemma_path_cons(m1, i, p, lo);
    let p1 = seq![i] + p;
    assert(p1.last() == m.accept);
    assert(m1.states[m.accept][acc.len() as int + 1].to_state_idx as int == f);
    assert(has_edge(m1, m.accept, f));
    lemma_path_push(m1, p1, f, lo);
    let p2 = p1.push(f);
    assert(p2[0] == i && p2.last() == f);
}

/// Concatenation: `m` holds the left fragment; `m1` grew from it and holds
/// the right fragment above `m.len()`.
proof fn lemma_product_fragment(m: NfaModel, m1: NfaModel, cap: nat, lo: int)
    requires
        cap <= MAX_STATES,
        m1.len() <= cap,
        fragment_ok(m, lo),
        lo <= m.len(),
        kept(m, m1),
        fragment_ok(m1, m.len()),
        m1.product(m.start, m.accept) is Ok,
    ensures
        ({
            let m2 = m1.product(m.start, m.accept)->Ok_0;
            &&& fragment_ok(m2, lo)
            &&& kept(m, m2)
            &&& m2.len() <= cap
        }),
{
    let m2 = m1.product(m.start, m.accept)->Ok_0;
    let s = m1.start;
    let pa = m.accept;
    let moved = m1.states[s];
    assert(m2.states[pa] == m1.states[pa] + moved);
    assert forall|q: int| 0 <= q < m.len() implies is_prefix(#[trigger] m.states[q], m2.states[q]) by {
        assert(is_prefix(m.states[q], m1.states[q]));
        if q != pa {
            assert(m2.states[q] == m1.states[q]);
        }
    }
    // the left walk, from the left start to `pa`, only uses states below `m.len()`
    let p = choose|p: Seq<int>| is_path_within(m, p, lo) && p[0] == m.start && p.last() == pa;
    lemma_path_kept(m, m2, p, lo);
    // the right walk, cut so that it leaves `s` once and for all
    let r0 = choose|r: Seq<int>|
        is_path_within(m1, r, m.len()) && r[0] == s && r.last() == m1.accept;
    let r = lemma_cut(m1, r0, m.len());
    let tail = r.drop_first();
    assert forall|k: int| 0 <= k < tail.len() - 1 implies has_edge(
        m2,
        #[trigger] tail[k],
        tail[k + 1],
    ) by {
        assert(tail[k] == r[k + 1] && tail[k + 1] == r[k + 2]);
        assert(has_edge(m1, r[k + 1], r[k + 2]));
        assert(r[k + 1] != s);
        assert(m2.states[r[k + 1]] == m1.states[r[k + 1]]);
    }
    assert forall|k: int| 0 <= k < tail.len() implies lo <= #[trigger] tail[k] < m2.len() by {
        assert(tail[k] == r[k + 1]);
    }
    assert(is_path_within(m2, tail, lo));
    // `pa` now holds the transitions that left `s`
    assert(has_edge(m1, r[0], r[1]));
    let j = choose|j: int| 0 <= j < m1.states[s].len() && m1.states[s][j].to_state_idx as int == r[1];
    assert(m2.states[pa][m1.states[pa].len() as int + j] == moved[j]);
    assert(has_edge(m2, pa, tail[0]));
    lemma_path_cons(m2, pa, tail, lo);
    let t2 = seq![pa] + tail;
    lemma_path_join(m2, p, t2, lo);
    assert(t2.drop_first() =~= tail);
    assert(tail.last() == m1.accept);
}

/// Alternation: `m` holds the left fragment, `m1` grew from it and holds the
/// right one.
proof fn lemma_alternate_fragment(m: NfaModel, m1: NfaModel, cap: nat, lo: int)
    requires
        cap <= MAX_STATES,
        fragment_ok(m, lo),
        lo <= m.len(),
        kept(m, m1),
        m1.has_fragment(),
        m1.alternate_fragments(cap, m.start, m.accept) is Ok,
    ensures
        ({
            let m2 = m1.alternate_fragments(cap, m.start, m.accept)->Ok_0;
            &&& fragment_ok(m2, lo)
            &&& kept(m, m2)
            &&& m2.len() <= cap
        }),
{
    let m2 = m1.alternate_fragments(cap, m.start, m.accept)->Ok_0;
    let i = m1.len();
    let f = i + 1;
    let pa = m.accept;
    assert forall|q: int| 0 <= q < m1.len() implies is_prefix(#[trigger] m1.states[q], m2.states[q]) by {
        if q != pa && q != m1.accept {
            assert(m2.states[q] == m1.states[q]);
        } else if q == pa && q == m1.accept {
            assert(m2.states[q] == m1.states[q].push(epsilon_to(f)).push(epsilon_to(f)));
        } else {
            assert(m2.states[q] == m1.states[q].push(epsilon_to(f)));
        }
    }
    lemma_kept_trans(m, m1, m2);
    let p = choose|p: Seq<int>| is_path_within(m, p, lo) && p[0] == m.start && p.last() == pa;
    lemma_path_kept(m, m2, p, lo);
    assert(m2.states[i][0].to_state_idx as int == m.start);
    assert(has_edge(m2, i, m.start));
    lemma_path_cons(m2, i, p, lo);
    let p1 = seq![i] + p;
    assert(p1.last() == pa);
    assert(m2.states[pa][m1.states[pa].len() as int].to_state_idx as int == f);
    assert(has_edge(m2, pa, f));
    lemma_path_push(m2, p1, f, lo);
    let p2 = p1.push(f);
    assert(p2[0] == i && p2.last() == f);
}

/// A successful parse step left a well-formed fragment in `lo ..`, grew the
/// arena from `m` without removing anything, and stayed within `cap`.
pub open spec fn built(r: Result<(NfaModel, int), CompileError>, m: NfaModel, cap: nat, lo: int) -> bool {
    r is Ok ==> {
        &&& fragment_ok(r->Ok_0.0, lo)
        &&& kept(m, r->Ok_0.0)
        &&& r->Ok_0.0.len() <= cap
    }
}

proof fn lemma_kept_refl(m: NfaModel)
    ensures
        kept(m, m),
{
}

proof fn lemma_postfix_built(m: NfaModel, cap: nat, input: Seq<u8>, idx: int, lo: int)
    requires
        cap <= MAX_STATES,
        m.len() <= cap,
        fragment_ok(m, lo),
    ensures
        built(postfix_spec(m, cap, input, idx), m, cap, lo),
{
    lemma_kept_refl(m);
    if byte_at(input, idx) == Some(STAR) && m.kleene_star(cap) is Ok {
        lemma_kleene_fragment(m, cap, lo);
    }
}

proof fn lemma_term_built(m: NfaModel, cap: nat, input: Seq<u8>, idx: int)
    requires
        cap <= MAX_STATES,
        m.len() <= cap,
    ensures
        built(term_spec(m, cap, input, idx), m, cap, m.len()),
{
    let on = match byte_at(input, idx) {
        Some(c) => if c == BACKSLASH {
            match byte_at(input, idx + 1) {
                Some(d) => escape_of(d),
                None => None,
            }
        } else if is_alphabet(c) {
            Some(c)
        } else {
            None
        },
        None => None,
    };
    if m.add_term(cap, on) is Ok {
        lemma_add_term_fragment(m, cap, on);
        let m1 = m.add_term(cap, on)->Ok_0;
        lemma_postfix_built(m1, cap, input, idx + 1, m.len());
        lemma_postfix_built(m1, cap, input, idx + 2, m.len());
        if postfix_spec(m1, cap, input, idx + 1) is Ok {
            lemma_kept_trans(m, m1, postfix_spec(m1, cap, input, idx + 1)->Ok_0.0);
        }
        if postfix_spec(m1, cap, input, idx + 2) is Ok {
            lemma_kept_trans(m, m1, postfix_spec(m1, cap, input, idx + 2)->Ok_0.0);
        }
    }
}

proof fn lemma_expr_built(m: NfaModel, cap: nat, input: Seq<u8>, idx: int)
    requires
        cap <= MAX_STATES,
        m.len() <= cap,
    ensures
        built(expr_spec(m, cap, input, idx), m, cap, m.len()),
    decreases input.len() - idx, 3int,
{
    lemma_term_built(m, cap, input, idx);
    if term_spec(m, cap, input, idx) is Ok {
        let (m1, i1) = term_spec(m, cap, input, idx)->Ok_0;
        lemma_expr_loop_built(m1, cap, input, i1, m.len());
        if expr_loop_spec(m1, cap, input, i1) is Ok {
            lemma_kept_trans(m, m1, expr_loop_spec(m1, cap, input, i1)->Ok_0.0);
        }
    }
}

proof fn lemma_expr_loop_built(m: NfaModel, cap: nat, input: Seq<u8>, idx: int, lo: int)
    requires
        cap <= MAX_STATES,
        m.len() <= cap,
        fragment_ok(m, lo),
        lo <= m.len(),
    ensures
        built(expr_loop_spec(m, cap, input, idx), m, cap, lo),
    decreases input.len() - idx, 2int,
{
    lemma_kept_refl(m);
    if idx < input.len() {
        lemma_rest_built(m, cap, input, idx, lo);
        if rest_spec(m, cap, input, idx) is Ok {
            let (m1, i1) = rest_spec(m, cap, input, idx)->Ok_0;
            if idx < i1 <= input.len() {
                lemma_expr_loop_built(m1, cap, input, i1, lo);
                if expr_loop_spec(m1, cap, input, i1) is Ok {
                    lemma_kept_trans(m, m1, expr_loop_spec(m1, cap, input, i1)->Ok_0.0);
                }
            }
        }
    }
}

proof fn lemma_rest_built(m: NfaModel, cap: nat, input: Seq<u8>, idx: int, lo: int)
    requires
        cap <= MAX_STATES,
        m.len() <= cap,
        fragment_ok(m, lo),
        lo <= m.len(),
    ensures
        built(rest_spec(m, cap, input, idx), m, cap, lo),
    decreases input.len() - idx, 1int,
{
    if byte_at(input, idx) == Some(OPEN_PAREN) {
        lemma_group_built(m, cap, input, idx, lo);
    } else if byte_at(input, idx) == Some(BAR) {
        lemma_alternate_built(m, cap, input, idx, lo);
    } else {
        lemma_term_built(m, cap, input, idx);
        if term_spec(m, cap, input, idx) is Ok {
            let (m1, i1) = term_spec(m, cap, input, idx)->Ok_0;
            if m1.product(m.start, m.accept) is Ok {
                lemma_product_fragment(m, m1, cap, lo);
            }
        }
    }
}

proof fn lemma_group_built(m: NfaModel, cap: nat, input: Seq<u8>, idx: int, lo: int)
    requires
        cap <= MAX_STATES,
        m.len() <= cap,
        fragment_ok(m, lo),
        lo <= m.len(),
    ensures
        built(group_spec(m, cap, input, idx), m, cap, lo),
    decreases input.len() - idx, 0int,
{
    if byte_at(input, idx) == Some(OPEN_PAREN) {
        lemma_expr_built(m, cap, input, idx + 1);
        if expr_spec(m, cap, input, idx + 1) is Ok {
            let (m1, i1) = expr_spec(m, cap, input, idx + 1)->Ok_0;
            lemma_postfix_built(m1, cap, input, i1 + 1, m.len());
            if postfix_spec(m1, cap, input, i1 + 1) is Ok {
                let (m2, i2) = postfix_spec(m1, cap, input, i1 + 1)->Ok_0;
                lemma_kept_trans(m, m1, m2);
                if m2.product(m.start, m.accept) is Ok {
                    lemma_product_fragment(m, m2, cap, lo);
                }
            }
        }
    }
}

proof fn lemma_alternate_built(m: NfaModel, cap: nat, input: Seq<u8>, idx: int, lo: int)
    requires
        cap <= MAX_STATES,
        m.len() <= cap,
        fragment_ok(m, lo),
        lo <= m.len(),
    ensures
        built(alternate_spec(m, cap, input, idx), m, cap, lo),
    decreases input.len() - idx, 0int,
{
    lemma_kept_refl(m);
    if 0 <= idx < input.len() {
        lemma_expr_built(m, cap, input, idx + 1);
        if expr_spec(m, cap, input, idx + 1) is Ok {
            let (m1, i1) = expr_spec(m, cap, input, idx + 1)->Ok_0;
            if m1.alternate_fragments(cap, m.start, m.accept) is Ok {
                lemma_alternate_fragment(m, m1, cap, lo);
            }
        }
    }
}

/// Every automaton that compiles has its accept state reachable from its
/// start state.
pub proof fn lemma_compiled_accept_reachable(cap: nat, input: Seq<u8>)
    requires
        cap <= MAX_STATES,
        compile_spec(cap, input) is Ok,
    ensures
        accept_reachable(compile_spec(cap, input)->Ok_0),
{
    lemma_expr_built(NfaModel::empty(), cap, input, 0);
}

/// One move of the automaton on the word `w`, between configurations made of
/// a state and the number of bytes read: along an epsilon transition without
/// reading, or along a transition labelled with the next byte, reading it.
pub open spec fn moves(m: NfaModel, w: Seq<u8>, a: (int, int), b: (int, int)) -> bool {
    exists|j: int|
        #![trigger m.states[a.0][j]]
        0 <= j < m.states[a.0].len() && m.states[a.0][j].to_state_idx as int == b.0 && match m.states[a.0][j].on_character {
            None => b.1 == a.1,
            Some(c) => 0 <= a.1 < w.len() && w[a.1] == c && b.1 == a.1 + 1,
        }
}

/// A sequence of moves on `w`.
pub open spec fn is_run(m: NfaModel, w: Seq<u8>, r: Seq<(int, int)>) -> bool {
    &&& r.len() >= 1
    &&& forall|k: int| 0 <= k < r.len() - 1 ==> moves(m, w, #[trigger] r[k], r[k + 1])
}

/// The automaton accepts `w`: some run goes from the start state with
/// nothing read to the accept state with all of `w` read.
pub open spec fn accepts(m: NfaModel, w: Seq<u8>) -> bool {
    exists|r: Seq<(int, int)>|
        is_run(m, w, r) && r[0] == (m.start, 0int) && r.last() == (m.accept, w.len() as int)
}

/// The two-state automaton with a single transition on `x` from its start to
/// its accept state.
pub open spec fn single_edge(m: NfaModel, x: u8) -> bool {
    &&& m.len() == 2
    &&& m.start == 0
    &&& m.accept == 1
    &&& m.states[0] == seq![Transition { on_character: Some(x), to_state_idx: 1 }]
    &&& m.states[1] == Seq::<Transition>::empty()
}

proof fn lemma_single_edge_run(m: NfaModel, x: u8, w: Seq<u8>, r: Seq<(int, int)>, k: int)
    requires
        single_edge(m, x),
        is_run(m, w, r),
        r[0] == (0int, 0int),
        0 <= k < r.len(),
    ensures
        r[k] == (0int, 0int) || (r[k] == (1int, 1int) && w.len() >= 1 && w[0] == x),
    decreases k,
{
    if k > 0 {
        lemma_single_edge_run(m, x, w, r, k - 1);
        assert(moves(m, w, r[k - 1], r[k]));
    }
}

/// The two-state automaton on `x` accepts the one-byte word `x` and nothing
/// else.
pub proof fn lemma_single_edge_language(m: NfaModel, x: u8, w: Seq<u8>)
    requires
        single_edge(m, x),
    ensures
        accepts(m, w) <==> w == seq![x],
{
    if accepts(m, w) {
        let r = choose|r: Seq<(int, int)>|
            is_run(m, w, r) && r[0] == (m.start, 0int) && r.last() == (m.accept, w.len() as int);
        lemma_single_edge_run(m, x, w, r, r.len() - 1);
        assert(w =~= seq![x]);
    }
    if w == seq![x] {
        let r = seq![(0int, 0int), (1int, 1int)];
        assert(m.states[0][0] == Transition { on_character: Some(x), to_state_idx: 1 });
        assert(moves(m, w, r[0], r[1]));
        assert(is_run(m, w, r));
        assert(r.last() == (m.accept, w.len() as int));
    }
}

} // verus!
