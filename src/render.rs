use vstd::prelude::*;

use vstd::string::StringSliceAdditionalSpecFns;

use crate::nfa::{Nfa, NfaModel, Transition};

verus! {

/// The decimal digits of `n`, most significant first, with no leading zero.
pub open spec fn decimal(n: nat) -> Seq<u8>
    decreases n,
{
    if n < 10 {
        seq![(48 + n) as u8]
    } else {
        decimal(n / 10).push((48 + n % 10) as u8)
    }
}

/// The decimal text of `n`.
pub fn itoa(n: u32) -> (r: Vec<u8>)
    ensures
        r@ == decimal(n as nat),
    decreases n,
{
    if n < 10 {
        let mut r: Vec<u8> = Vec::new();
        r.push((48 + n) as u8);
        assert(r@ =~= decimal(n as nat));
        r
    } else {
        let mut r = itoa(n / 10);
        r.push((48 + n % 10) as u8);
        r
    }
}

/// Appends `s` to `out`.
pub fn append(out: &mut Vec<u8>, s: &[u8])
    ensures
        final(out)@ == old(out)@ + s@,
{
    let ghost start = out@;
    let mut i: usize = 0;
    while i < s.len()
        invariant
            i <= s@.len(),
            out@ == start + s@.take(i as int),
        decreases s@.len() - i,
    {
        out.push(s[i]);
        i = i + 1;
        assert(out@ =~= start + s@.take(i as int));
    }
    assert(s@.take(s@.len() as int) =~= s@);
}

/// The label of an edge: its symbol, or the two UTF-8 bytes of an epsilon.
pub open spec fn edge_label(t: Transition) -> Seq<u8> {
    match t.on_character {
        Some(b) => seq![b],
        None => seq![0xceu8, 0xb5u8],
    }
}

/// One transition in graph-description text: a labelled node for the target
/// and the labelled edge itself.
pub open spec fn graph_edge(prefix: Seq<u8>, from: nat, t: Transition) -> Seq<u8> {
    let to = decimal(t.to_state_idx as nat);
    "  ".spec_bytes() + prefix + to + "[label=\"S".spec_bytes() + to + "\"];\n".spec_bytes()
        + "  ".spec_bytes() + prefix + decimal(from) + " -> ".spec_bytes() + prefix + to
        + "[label=\"".spec_bytes() + edge_label(t) + "\"];\n".spec_bytes()
}

/// The edges leaving state `from`, in order.
pub open spec fn graph_edges_of(prefix: Seq<u8>, from: nat, ts: Seq<Transition>) -> Seq<u8>
    decreases ts.len(),
{
    if ts.len() == 0 {
        Seq::empty()
    } else {
        graph_edges_of(prefix, from, ts.drop_last()) + graph_edge(prefix, from, ts.last())
    }
}

/// The edges leaving the first `n` states.
pub open spec fn graph_body(m: NfaModel, prefix: Seq<u8>, n: nat) -> Seq<u8>
    decreases n,
{
    if n == 0 {
        Seq::empty()
    } else {
        graph_body(m, prefix, (n - 1) as nat) + graph_edges_of(
            prefix,
            (n - 1) as nat,
            m.states[n - 1],
        )
    }
}

/// The whole automaton as a graph-description subgraph named `prefix`: the
/// start state boxed, the accept state double-circled, one edge per
/// transition.
pub open spec fn graph(m: NfaModel, prefix: Seq<u8>) -> Seq<u8> {
    "subgraph ".spec_bytes() + prefix + " {\n".spec_bytes() + "  label = \"".spec_bytes() + prefix
        + "\";\n".spec_bytes() + "  rankdir=\"LR\";\n".spec_bytes() + "  ".spec_bytes() + prefix
        + decimal(m.start as nat) + " [shape=box];\n".spec_bytes() + "  ".spec_bytes() + prefix
        + decimal(m.accept as nat) + " [shape=doublecircle];\n".spec_bytes() + graph_body(
        m,
        prefix,
        m.len() as nat,
    ) + "}\n".spec_bytes()
}

/// Appends the text of one transition leaving state `from`.
#[verifier::rlimit(40)]
fn render_edge(out: &mut Vec<u8>, prefix: &[u8], from: u32, t: Transition)
    ensures
        final(out)@ == old(out)@ + graph_edge(prefix@, from as nat, t),
{
    let to = itoa(t.to_state_idx as u32);
    let ghost start = out@;
    append(out, "  ".as_bytes());
    append(out, prefix);
    append(out, to.as_slice());
    append(out, "[label=\"S".as_bytes());
    append(out, to.as_slice());
    append(out, "\"];\n".as_bytes());
    append(out, "  ".as_bytes());
    append(out, prefix);
    append(out, itoa(from).as_slice());
    append(out, " -> ".as_bytes());
    append(out, prefix);
    append(out, to.as_slice());
    append(out, "[label=\"".as_bytes());
    match t.on_character {
        Some(b) => {
            let mut one: Vec<u8> = Vec::new();
            one.push(b);
            assert(one@ =~= edge_label(t));
            append(out, one.as_slice());
        },
        None => {
            let mut eps: Vec<u8> = Vec::new();
            eps.push(0xce);
            eps.push(0xb5);
            assert(eps@ =~= edge_label(t));
            append(out, eps.as_slice());
        },
    }
    append(out, "\"];\n".as_bytes());
    assert(out@ =~= start + graph_edge(prefix@, from as nat, t));
}

impl<const N: usize> Nfa<N> {
    /// The automaton as a graph-description subgraph named `prefix`.
    pub fn debug_print(&self, prefix: &[u8]) -> (r: Vec<u8>)
        requires
            self.wf(),
        ensures
            r@ == graph(self@, prefix@),
    {
        proof {
            self.lemma_wf();
        }
        let mut out: Vec<u8> = Vec::new();
        append(&mut out, "subgraph ".as_bytes());
        append(&mut out, prefix);
        append(&mut out, " {\n".as_bytes());
        append(&mut out, "  label = \"".as_bytes());
        append(&mut out, prefix);
        append(&mut out, "\";\n".as_bytes());
        append(&mut out, "  rankdir=\"LR\";\n".as_bytes());
        append(&mut out, "  ".as_bytes());
        append(&mut out, prefix);
        append(&mut out, itoa(self.start() as u32).as_slice());
        append(&mut out, " [shape=box];\n".as_bytes());
        append(&mut out, "  ".as_bytes());
        append(&mut out, prefix);
        append(&mut out, itoa(self.accept() as u32).as_slice());
        append(&mut out, " [shape=doublecircle];\n".as_bytes());
        let ghost header = out@;
        let n = self.state_count();
        let mut i: usize = 0;
        while i < n
            invariant
                self.wf(),
                n == self@.len(),
                n <= 256,
                i <= n,
                out@ == header + graph_body(self@, prefix@, i as nat),
            decreases n - i,
        {
            let ts = self.transitions_of(i);
            let ghost before = out@;
            let mut j: usize = 0;
            while j < ts.len()
                invariant
                    i < n <= 256,
                    j <= ts@.len(),
                    out@ == before + graph_edges_of(prefix@, i as nat, ts@.take(j as int)),
                decreases ts@.len() - j,
            {
                render_edge(&mut out, prefix, i as u32, ts[j]);
                j = j + 1;
                assert(ts@.take(j as int).drop_last() =~= ts@.take(j - 1));
            }
            assert(ts@.take(ts@.len() as int) =~= ts@);
            i = i + 1;
        }
        append(&mut out, "}\n".as_bytes());
        out
    }
}

/// The input, then a line of `~` up to `idx` with a caret under the byte at
/// `idx`.
pub open spec fn progress_marker(input: Seq<u8>, idx: nat) -> Seq<u8> {
    input + "\n".spec_bytes() + Seq::new(idx, |k: int| 126u8) + "^\n".spec_bytes()
}

/// Points at offset `idx` of `input`, for a diagnostic.
pub fn error_input_progress(input: &[u8], idx: usize) -> (r: Vec<u8>)
    ensures
        r@ == progress_marker(input@, idx as nat),
{
    let mut out: Vec<u8> = Vec::new();
    append(&mut out, input);
    append(&mut out, "\n".as_bytes());
    let ghost before = out@;
    let mut k: usize = 0;
    while k < idx
        invariant
            k <= idx,
            out@ == before + Seq::new(k as nat, |q: int| 126u8),
        decreases idx - k,
    {
        out.push(126);
        k = k + 1;
        assert(out@ =~= before + Seq::new(k as nat, |q: int| 126u8));
    }
    append(&mut out, "^\n".as_bytes());
    out
}

/// One transition in the state dump: its label, an arrow, its target.
pub open spec fn dump_transition(t: Transition) -> Seq<u8> {
    let label = match t.on_character {
        Some(b) => seq![b],
        None => "\u{3b5}".spec_bytes(),
    };
    label + "\u{2192}".spec_bytes() + decimal(t.to_state_idx as nat) + ", ".spec_bytes()
}

pub open spec fn dump_transitions(ts: Seq<Transition>) -> Seq<u8>
    decreases ts.len(),
{
    if ts.len() == 0 {
        Seq::empty()
    } else {
        dump_transitions(ts.drop_last()) + dump_transition(ts.last())
    }
}

/// `^ ` marks the start state, `$ ` the accept state, `- ` any other.
pub open spec fn dump_marker(m: NfaModel, i: int) -> Seq<u8> {
    if i == m.start {
        "^ ".spec_bytes()
    } else if i == m.accept {
        "$ ".spec_bytes()
    } else {
        "- ".spec_bytes()
    }
}

/// The dump line of state `i`.
pub open spec fn dump_state(m: NfaModel, i: int) -> Seq<u8> {
    "  ".spec_bytes() + dump_marker(m, i) + decimal(i as nat) + ": {".spec_bytes()
        + dump_transitions(m.states[i]) + "}\n".spec_bytes()
}

/// The dump lines of the first `n` states.
pub open spec fn dump_states(m: NfaModel, n: nat) -> Seq<u8>
    decreases n,
{
    if n == 0 {
        Seq::empty()
    } else {
        dump_states(m, (n - 1) as nat) + dump_state(m, n - 1)
    }
}

/// A terminal dump of an arena of capacity `cap`: a coloured title line with
/// its counters, then one line per state.
pub open spec fn dump(m: NfaModel, prefix: Seq<u8>, cap: nat) -> Seq<u8> {
    "\x1b[33m".spec_bytes() + prefix + "\x1b[0m: NFA<".spec_bytes() + decimal(cap)
        + "> { start_idx: ".spec_bytes() + decimal(m.start as nat) + ", accept_idx: ".spec_bytes()
        + decimal(m.accept as nat) + ", state_count: ".spec_bytes() + decimal(m.len() as nat)
        + "}\n".spec_bytes() + dump_states(m, m.len() as nat)
}

/// A terminal dump of `nfa`, headed by `prefix`.
#[verifier::rlimit(40)]
pub fn dbgnfa<const N: usize>(prefix: &[u8], nfa: &Nfa<N>) -> (r: Vec<u8>)
    requires
        nfa.wf(),
    ensures
        r@ == dump(nfa@, prefix@, N as nat),
{
    proof {
        nfa.lemma_wf();
    }
    let mut out: Vec<u8> = Vec::new();
    append(&mut out, "\x1b[33m".as_bytes());
    append(&mut out, prefix);
    append(&mut out, "\x1b[0m: NFA<".as_bytes());
    append(&mut out, itoa(N as u32).as_slice());
    append(&mut out, "> { start_idx: ".as_bytes());
    append(&mut out, itoa(nfa.start() as u32).as_slice());
    append(&mut out, ", accept_idx: ".as_bytes());
    append(&mut out, itoa(nfa.accept() as u32).as_slice());
    append(&mut out, ", state_count: ".as_bytes());
    let n = nfa.state_count();
    append(&mut out, itoa(n as u32).as_slice());
    append(&mut out, "}\n".as_bytes());
    let ghost header = out@;
    let mut i: usize = 0;
    while i < n
        invariant
            nfa.wf(),
            n == nfa@.len(),
            n <= 256,
            i <= n,
            out@ == header + dump_states(nfa@, i as nat),
        decreases n - i,
    {
        let ghost line_start = out@;
        append(&mut out, "  ".as_bytes());
        if i == nfa.start() as usize {
            append(&mut out, "^ ".as_bytes());
        } else if i == nfa.accept() as usize {
            append(&mut out, "$ ".as_bytes());
        } else {
            append(&mut out, "- ".as_bytes());
        }
        append(&mut out, itoa(i as u32).as_slice());
        append(&mut out, ": {".as_bytes());
        let ts = nfa.transitions_of(i);
        let ghost before = out@;
        let mut j: usize = 0;
        while j < ts.len()
            invariant
                j <= ts@.len(),
                out@ == before + dump_transitions(ts@.take(j as int)),
            decreases ts@.len() - j,
        {
            let t = ts[j];
            let ghost item_start = out@;
            match t.on_character {
                Some(b) => {
                    let mut one: Vec<u8> = Vec::new();
                    one.push(b);
                    append(&mut out, one.as_slice());
                },
                None => append(&mut out, "\u{3b5}".as_bytes()),
            }
            append(&mut out, "\u{2192}".as_bytes());
            append(&mut out, itoa(t.to_state_idx as u32).as_slice());
            append(&mut out, ", ".as_bytes());
            assert(out@ =~= item_start + dump_transition(t));
            j = j + 1;
            assert(ts@.take(j as int).drop_last() =~= ts@.take(j - 1));
        }
        assert(ts@.take(ts@.len() as int) =~= ts@);
        append(&mut out, "}\n".as_bytes());
        assert(out@ =~= line_start + dump_state(nfa@, i as int));
        i = i + 1;
    }
    out
}

} // verus!
