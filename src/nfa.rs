use vstd::prelude::*;

verus! {

/// Most outgoing transitions a single state can hold.
pub const TRANSITIONS_PER_STATE: usize = 4;

/// Largest arena the one-byte state indices can address.
pub const MAX_STATES: usize = 256;

/// What stopped a compilation: a syntax error in the expression, or one of
/// the arena's capacity limits.
#[derive(Clone, Copy, PartialEq, Eq, Structural, Debug)]
pub enum ErrorKind {
    UnexpectedTrailingInput,
    UnterminatedGroup,
    ExpectedOpenParen,
    UnknownEscapedCharacter,
    UnexpectedEndOfInputAfterEscape,
    StateCapacityExceeded,
    TransitionCapacityExceeded,
}

/// An edge to `to_state_idx`, labelled with a byte or, when `on_character`
/// is `None`, with epsilon.
#[derive(Clone, Copy, PartialEq, Eq, Structural, Debug)]
pub struct Transition {
    pub on_character: Option<u8>,
    pub to_state_idx: u8,
}

pub open spec fn epsilon_to(to: int) -> Transition {
    Transition { on_character: None, to_state_idx: to as u8 }
}

/// A state: a fixed block of transition slots, of which the first
/// `transition_count` are in use.
#[derive(Clone, Copy, Debug)]
pub struct State {
    transition_count: u8,
    transitions: [Transition; TRANSITIONS_PER_STATE],
}

impl View for State {
    type V = Seq<Transition>;

    closed spec fn view(&self) -> Seq<Transition> {
        self.transitions@.take(self.transition_count as int)
    }
}

impl State {
    pub closed spec fn wf(&self) -> bool {
        self.transition_count as usize <= TRANSITIONS_PER_STATE
    }

    pub fn new() -> (r: State)
        ensures
            r.wf(),
            r@ == Seq::<Transition>::empty(),
    {
        let t = Transition { on_character: None, to_state_idx: 0 };
        let r = State { transition_count: 0, transitions: [t, t, t, t] };
        assert(r@ =~= Seq::<Transition>::empty());
        r
    }

    pub fn transition_count(&self) -> (r: usize)
        requires
            self.wf(),
        ensures
            r == self@.len(),
    {
        self.transition_count as usize
    }

    pub fn transition(&self, j: usize) -> (r: Transition)
        requires
            self.wf(),
            j < self@.len(),
        ensures
            r == self@[j as int],
    {
        self.transitions[j]
    }

    /// Appends one transition to a state that has a free slot.
    pub fn add_transition(self, on_character: Option<u8>, to_state_idx: u8) -> (r: State)
        requires
            self.wf(),
            self@.len() < TRANSITIONS_PER_STATE,
        ensures
            r.wf(),
            r@ == self@.push(Transition { on_character, to_state_idx }),
    {
        let mut s = self;
        s.transitions[s.transition_count as usize] = Transition { on_character, to_state_idx };
        s.transition_count = s.transition_count + 1;
        assert(s@ =~= self@.push(Transition { on_character, to_state_idx }));
        s
    }

    /// Drops every transition of the state.
    pub fn cleared(self) -> (r: State)
        ensures
            r.wf(),
            r@ == Seq::<Transition>::empty(),
    {
        let mut s = self;
        s.transition_count = 0;
        assert(s@ =~= Seq::<Transition>::empty());
        s
    }
}

/// The mathematical picture of an automaton: the transition list of every
/// allocated state, and the start and accept state of the current fragment.
pub ghost struct NfaModel {
    pub states: Seq<Seq<Transition>>,
    pub start: int,
    pub accept: int,
}

impl NfaModel {
    pub open spec fn empty() -> NfaModel {
        NfaModel { states: Seq::empty(), start: 0, accept: 0 }
    }

    pub open spec fn len(self) -> int {
        self.states.len() as int
    }

    pub open spec fn has_fragment(self) -> bool {
        &&& 0 <= self.start < self.len()
        &&& 0 <= self.accept < self.len()
    }

    /// Every state holds at most the allowed number of transitions and every
    /// transition leads to an allocated state.
    pub open spec fn wf(self, cap: nat) -> bool {
        &&& self.len() <= cap
        &&& forall|i: int|
            #![trigger self.states[i]]
            0 <= i < self.len() ==> {
                &&& self.states[i].len() <= TRANSITIONS_PER_STATE
                &&& forall|j: int|
                    0 <= j < self.states[i].len() ==> (self.states[i][j].to_state_idx as int)
                        < self.len()
            }
    }

    /// `from` gains the transition `t`, if it has a free slot.
    pub open spec fn add_edge(self, from: int, t: Transition) -> Result<NfaModel, ErrorKind> {
        if self.states[from].len() >= TRANSITIONS_PER_STATE {
            Err(ErrorKind::TransitionCapacityExceeded)
        } else {
            Ok(NfaModel { states: self.states.update(from, self.states[from].push(t)), ..self })
        }
    }

    /// Two new states joined by one transition on `on` (epsilon for `None`);
    /// they become the current fragment.
    pub open spec fn add_term(self, cap: nat, on: Option<u8>) -> Result<NfaModel, ErrorKind> {
        let i = self.len();
        if i + 2 > cap {
            Err(ErrorKind::StateCapacityExceeded)
        } else {
            Ok(
                NfaModel {
                    states: self.states.push(
                        seq![Transition { on_character: on, to_state_idx: (i + 1) as u8 }],
                    ).push(Seq::empty()),
                    start: i,
                    accept: i + 1,
                },
            )
        }
    }

    /// Zero or more repetitions of the current fragment, between a new start
    /// state and a new accept state.
    pub open spec fn kleene_star(self, cap: nat) -> Result<NfaModel, ErrorKind> {
        let i = self.len();
        let f = i + 1;
        if i + 2 > cap {
            Err(ErrorKind::StateCapacityExceeded)
        } else {
            let grown = self.states.push(seq![epsilon_to(self.start), epsilon_to(f)]).push(
                Seq::empty(),
            );
            match (NfaModel { states: grown, ..self }).add_edge(self.accept, epsilon_to(self.start)) {
                Err(e) => Err(e),
                Ok(m) => match m.add_edge(self.accept, epsilon_to(f)) {
                    Err(e) => Err(e),
                    Ok(m2) => Ok(NfaModel { start: i, accept: f, ..m2 }),
                },
            }
        }
    }

    /// Fuses the fragment ending at `prev_accept` with the current one: the
    /// transitions of the current start move to `prev_accept`, and the
    /// fragment now starts at `prev_start`.
    pub open spec fn product(self, prev_start: int, prev_accept: int) -> Result<
        NfaModel,
        ErrorKind,
    > {
        let moved = self.states[self.start];
        if self.states[prev_accept].len() + moved.len() > TRANSITIONS_PER_STATE {
            Err(ErrorKind::TransitionCapacityExceeded)
        } else {
            Ok(
                NfaModel {
                    states: self.states.update(
                        prev_accept,
                        self.states[prev_accept] + moved,
                    ).update(self.start, Seq::empty()),
                    start: prev_start,
                    accept: self.accept,
                },
            )
        }
    }

    /// Either the fragment from `prev_start` to `prev_accept` or the current
    /// one, between a new start state and a new accept state.
    pub open spec fn alternate_fragments(self, cap: nat, prev_start: int, prev_accept: int) -> Result<
        NfaModel,
        ErrorKind,
    > {
        let i = self.len();
        let f = i + 1;
        if i + 2 > cap {
            Err(ErrorKind::StateCapacityExceeded)
        } else {
            let grown = self.states.push(seq![epsilon_to(prev_start), epsilon_to(self.start)]).push(
                Seq::empty(),
            );
            match (NfaModel { states: grown, ..self }).add_edge(prev_accept, epsilon_to(f)) {
                Err(e) => Err(e),
                Ok(m) => match m.add_edge(self.accept, epsilon_to(f)) {
                    Err(e) => Err(e),
                    Ok(m2) => Ok(NfaModel { start: i, accept: f, ..m2 }),
                },
            }
        }
    }
}

/// An automaton whose states live in an arena of at most `N` states.
pub struct Nfa<const N: usize> {
    states: Vec<State>,
    start_idx: u8,
    accept_idx: u8,
}

impl<const N: usize> View for Nfa<N> {
    type V = NfaModel;

    closed spec fn view(&self) -> NfaModel {
        NfaModel {
            states: self.states@.map_values(|s: State| s@),
            start: self.start_idx as int,
            accept: self.accept_idx as int,
        }
    }
}

impl<const N: usize> Nfa<N> {
    pub closed spec fn wf(&self) -> bool {
        &&& N <= MAX_STATES
        &&& forall|i: int| 0 <= i < self.states@.len() ==> #[trigger] self.states@[i].wf()
        &&& self@.wf(N as nat)
    }

    pub proof fn lemma_wf(&self)
        requires
            self.wf(),
        ensures
            self@.wf(N as nat),
            N <= MAX_STATES,
    {
    }

    /// An arena with no state allocated yet.
    pub fn new() -> (r: Self)
        requires
            N <= MAX_STATES,
        ensures
            r.wf(),
            r@ == NfaModel::empty(),
    {
        let r = Nfa { states: Vec::with_capacity(N), start_idx: 0, accept_idx: 0 };
        assert(r@.states =~= Seq::<Seq<Transition>>::empty());
        r
    }

    pub fn state_count(&self) -> (r: usize)
        ensures
            r == self@.len(),
    {
        self.states.len()
    }

    pub fn start(&self) -> (r: u8)
        ensures
            r == self@.start,
    {
        self.start_idx
    }

    pub fn accept(&self) -> (r: u8)
        ensures
            r == self@.accept,
    {
        self.accept_idx
    }

    /// The arena after the outcome of an operation on it, as a model.
    pub open spec fn outcome(r: Result<Self, ErrorKind>) -> Result<NfaModel, ErrorKind> {
        match r {
            Ok(n) => Ok(n@),
            Err(e) => Err(e),
        }
    }

    /// Appends a transition to state `from`, if it has a free slot.
    fn add_edge(self, from: u8, on: Option<u8>, to: u8) -> (r: Result<Self, ErrorKind>)
        requires
            self.wf(),
            (from as int) < self@.len(),
            (to as int) < self@.len(),
        ensures
            Self::outcome(r) == self@.add_edge(from as int, Transition { on_character: on, to_state_idx: to }),
            r is Ok ==> r->Ok_0.wf(),
    {
        let st = self.states[from as usize];
        if st.transition_count() >= TRANSITIONS_PER_STATE {
            return Err(ErrorKind::TransitionCapacityExceeded);
        }
        let st = st.add_transition(on, to);
        let mut n = self;
        n.states.set(from as usize, st);
        assert(n@.states =~= self@.states.update(from as int, self@.states[from as int].push(Transition { on_character: on, to_state_idx: to })));
        Ok(n)
    }

    /// Allocates two states joined by a transition on `chara` (epsilon for
    /// `None`) and makes them the current fragment.
    pub fn add_term(self, chara: Option<u8>) -> (r: Result<Self, ErrorKind>)
        requires
            self.wf(),
        ensures
            Self::outcome(r) == self@.add_term(N as nat, chara),
            r is Ok ==> r->Ok_0.wf() && r->Ok_0@.has_fragment(),
    {
        let i = self.states.len();
        if i >= N || N - i < 2 {
            return Err(ErrorKind::StateCapacityExceeded);
        }
        let mut n = self;
        let s = State::new().add_transition(chara, (i + 1) as u8);
        n.states.push(s);
        n.states.push(State::new());
        n.start_idx = i as u8;
        n.accept_idx = (i + 1) as u8;
        assert(n@.states =~= self@.states.push(seq![Transition { on_character: chara, to_state_idx: (i + 1) as u8 }]).push(Seq::empty()));
        Ok(n)
    }

    /// The fragment that matches the empty string.
    pub fn add_empty_term(self) -> (r: Result<Self, ErrorKind>)
        requires
            self.wf(),
        ensures
            Self::outcome(r) == self@.add_term(N as nat, None),
            r is Ok ==> r->Ok_0.wf() && r->Ok_0@.has_fragment(),
    {
        self.add_term(None)
    }

    /// The fragment that matches the one-byte string `chara`.
    pub fn add_alphabet_term(self, chara: u8) -> (r: Result<Self, ErrorKind>)
        requires
            self.wf(),
        ensures
            Self::outcome(r) == self@.add_term(N as nat, Some(chara)),
            r is Ok ==> r->Ok_0.wf() && r->Ok_0@.has_fragment(),
    {
        self.add_term(Some(chara))
    }

    /// Zero or more repetitions of the current fragment: new states `i` and
    /// `f`, epsilon edges `i -> start`, `i -> f`, `accept -> start` and
    /// `accept -> f`; the fragment becomes `i .. f`.
    pub fn kleene_star(self) -> (r: Result<Self, ErrorKind>)
        requires
            self.wf(),
            self@.has_fragment(),
        ensures
            Self::outcome(r) == self@.kleene_star(N as nat),
            r is Ok ==> r->Ok_0.wf() && r->Ok_0@.has_fragment(),
    {
        let i = self.states.len();
        if i >= N || N - i < 2 {
            return Err(ErrorKind::StateCapacityExceeded);
        }
        let start = self.start_idx;
        let accept = self.accept_idx;
        let f = (i + 1) as u8;
        let mut n = self;
        let entry = State::new().add_transition(None, start).add_transition(None, f);
        n.states.push(entry);
        n.states.push(State::new());
        let ghost grown = self@.states.push(seq![epsilon_to(start as int), epsilon_to(f as int)]).push(Seq::empty());
        assert(n@ == (NfaModel { states: grown, ..self@ })) by {
            assert(entry@ =~= seq![epsilon_to(start as int), epsilon_to(f as int)]);
            assert(n@.states =~= grown);
        }
        let n = match n.add_edge(accept, None, start) {
            Ok(n) => n,
            Err(e) => return Err(e),
        };
        let mut n = match n.add_edge(accept, None, f) {
            Ok(n) => n,
            Err(e) => return Err(e),
        };
        n.start_idx = i as u8;
        n.accept_idx = f;
        Ok(n)
    }

    /// Concatenation: the transitions of the current start state move to
    /// `prev_accept` and the current start is left without transitions; the
    /// fragment then runs from `prev_start` to the current accept state.
    pub fn product(self, prev_start: u8, prev_accept: u8) -> (r: Result<Self, ErrorKind>)
        requires
            self.wf(),
            self@.has_fragment(),
            (prev_start as int) < self@.len(),
            (prev_accept as int) < self@.len(),
        ensures
            Self::outcome(r) == self@.product(prev_start as int, prev_accept as int),
            r is Ok ==> r->Ok_0.wf() && r->Ok_0@.has_fragment(),
    {
        let moved = self.states[self.start_idx as usize];
        let mut target = self.states[prev_accept as usize];
        let count = moved.transition_count();
        if target.transition_count() + count > TRANSITIONS_PER_STATE {
            return Err(ErrorKind::TransitionCapacityExceeded);
        }
        let ghost old_target = target@;
        let mut j: usize = 0;
        while j < count
            invariant
                moved.wf(),
                target.wf(),
                count == moved@.len(),
                j <= count,
                old_target.len() + count <= TRANSITIONS_PER_STATE,
                target@ == old_target + moved@.take(j as int),
            decreases count - j,
        {
            let t = moved.transition(j);
            target = target.add_transition(t.on_character, t.to_state_idx);
            j = j + 1;
            assert(target@ =~= old_target + moved@.take(j as int));
        }
        assert(moved@.take(count as int) =~= moved@);
        let mut n = self;
        n.states.set(prev_accept as usize, target);
        let start = n.start_idx as usize;
        let cleared = n.states[start].cleared();
        n.states.set(start, cleared);
        n.start_idx = prev_start;
        assert(n@.states =~= self@.states.update(prev_accept as int, self@.states[prev_accept as int] + self@.states[self@.start]).update(self@.start, Seq::empty()));
        Ok(n)
    }

    /// Alternation: new states `i` and `f`, epsilon edges `i -> prev_start`,
    /// `i -> start`, `prev_accept -> f` and `accept -> f`; the fragment
    /// becomes `i .. f`.
    pub fn alternate_fragments(self, prev_start: u8, prev_accept: u8) -> (r: Result<Self, ErrorKind>)
        requires
            self.wf(),
            self@.has_fragment(),
            (prev_start as int) < self@.len(),
            (prev_accept as int) < self@.len(),
        ensures
            Self::outcome(r) == self@.alternate_fragments(N as nat, prev_start as int, prev_accept as int),
            r is Ok ==> r->Ok_0.wf() && r->Ok_0@.has_fragment(),
    {
        let i = self.states.len();
        if i >= N || N - i < 2 {
            return Err(ErrorKind::StateCapacityExceeded);
        }
        let start = self.start_idx;
        let accept = self.accept_idx;
        let f = (i + 1) as u8;
        let mut n = self;
        let entry = State::new().add_transition(None, prev_start).add_transition(None, start);
        n.states.push(entry);
        n.states.push(State::new());
        let ghost grown = self@.states.push(seq![epsilon_to(prev_start as int), epsilon_to(start as int)]).push(Seq::empty());
        assert(n@ == (NfaModel { states: grown, ..self@ })) by {
            assert(entry@ =~= seq![epsilon_to(prev_start as int), epsilon_to(start as int)]);
            assert(n@.states =~= grown);
        }
        let n = match n.add_edge(prev_accept, None, f) {
            Ok(n) => n,
            Err(e) => return Err(e),
        };
        let mut n = match n.add_edge(accept, None, f) {
            Ok(n) => n,
            Err(e) => return Err(e),
        };
        n.start_idx = i as u8;
        n.accept_idx = f;
        Ok(n)
    }

    /// The transitions of state `i`, in the order they were added.
    pub fn transitions_of(&self, i: usize) -> (r: Vec<Transition>)
        requires
            self.wf(),
            i < self@.len(),
        ensures
            r@ == self@.states[i as int],
    {
        let s = self.states[i];
        assert(s@ == self@.states[i as int]);
        let mut r: Vec<Transition> = Vec::new();
        let n = s.transition_count();
        let mut j: usize = 0;
        while j < n
            invariant
                s.wf(),
                n == s@.len(),
                j <= n,
                r@ == s@.take(j as int),
            decreases n - j,
        {
            r.push(s.transition(j));
            j = j + 1;
            assert(r@ =~= s@.take(j as int));
        }
        assert(r@ =~= s@);
        r
    }
}

} // verus!
