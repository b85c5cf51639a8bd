//! Compiles a small regular-expression language into a nondeterministic
//! finite automaton by Thompson's construction, inside a fixed-capacity arena
//! of states.
//!
//! - `nfa`: the arena, its mathematical model and the construction steps.
//! - `compiler`: the recursive-descent parser that drives the arena.
//! - `reach`: walks and runs over the model; every compiled automaton leads
//!   from its start state to its accept state.
//! - `laws`: properties of compilation as a whole.
//! - `render`: text renderings of an automaton and of an error position.
//! - `translate`: a digit-expression translator into postfix notation.

pub mod compiler;
pub mod laws;
pub mod nfa;
pub mod reach;
pub mod render;
pub mod translate;
