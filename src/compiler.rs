use vstd::prelude::*;

use crate::nfa::{ErrorKind, Nfa, NfaModel, MAX_STATES};
use crate::reach::{accept_reachable, lemma_compiled_accept_reachable};

verus! {

/// `\`, which starts an escape sequence.
pub const BACKSLASH: u8 = 92;
/// `*`, which repeats the term or group before it.
pub const STAR: u8 = 42;
/// `(`, which opens a group.
pub const OPEN_PAREN: u8 = 40;
/// `)`, which closes a group.
pub const CLOSE_PAREN: u8 = 41;
/// `|`, which separates alternatives.
pub const BAR: u8 = 124;

/// A failed compilation: what went wrong and the input offset where the
/// parser stood when it was detected.
#[derive(Clone, Copy, PartialEq, Eq, Structural, Debug)]
pub struct CompileError {
    pub kind: ErrorKind,
    pub offset: usize,
}

pub open spec fn error_at(kind: ErrorKind, offset: int) -> CompileError {
    CompileError { kind, offset: offset as usize }
}

/// The byte at `idx`, if there is one.
pub open spec fn byte_at(input: Seq<u8>, idx: int) -> Option<u8> {
    if 0 <= idx < input.len() {
        Some(input[idx])
    } else {
        None
    }
}

/// Bytes that stand for themselves: letters, digits and a fixed set of
/// punctuation.
pub open spec fn is_alphabet(c: u8) -> bool {
    ||| 97 <= c <= 122  // a-z
    ||| 65 <= c <= 90  // A-Z
    ||| 48 <= c <= 57  // 0-9
    ||| c == 33  // !
    ||| c == 64  // @
    ||| c == 35  // #
    ||| c == 37  // %
    ||| c == 38  // &
    ||| c == 45  // -
    ||| c == 61  // =
    ||| c == 43  // +
    ||| c == 59  // ;
    ||| c == 58  // :
    ||| c == 34  // "
    ||| c == 44  // ,
    ||| c == 60  // <
    ||| c == 62  // >
    ||| c == 47  // /
    ||| c == 96  // `
    ||| c == 126  // ~
    ||| c == 32  // space
    ||| c == 39  // '

}

/// The symbol that a backslash followed by `c` stands for: `\n` and `\t` are
/// newline and tab, a metacharacter stands for itself, anything else is not
/// an escape.
pub open spec fn escape_of(c: u8) -> Option<u8> {
    if c == 110 {
        Some(10u8)
    } else if c == 116 {
        Some(9u8)
    } else if c == 36 || c == 94 || c == 40 || c == 41 || c == 123 || c == 125 || c == 91 || c
        == 93 || c == 124 || c == 63 || c == 42 || c == 92 {
        Some(c)
    } else {
        None
    }
}

/// An arena operation at parse position `offset`: on success the parser goes
/// on at `next`; a failure is reported at `offset`.
pub open spec fn step(r: Result<NfaModel, ErrorKind>, offset: int, next: int) -> Result<
    (NfaModel, int),
    CompileError,
> {
    match r {
        Ok(m) => Ok((m, next)),
        Err(k) => Err(error_at(k, offset)),
    }
}

/// `postfix -> "*" | ε`
pub open spec fn postfix_spec(m: NfaModel, cap: nat, input: Seq<u8>, idx: int) -> Result<
    (NfaModel, int),
    CompileError,
> {
    if byte_at(input, idx) == Some(STAR) {
        step(m.kleene_star(cap), idx, idx + 1)
    } else {
        Ok((m, idx))
    }
}

/// The escaped symbol at `idx`, just after a backslash.
pub open spec fn escaped_term_spec(m: NfaModel, cap: nat, input: Seq<u8>, idx: int) -> Result<
    (NfaModel, int),
    CompileError,
> {
    match byte_at(input, idx) {
        None => Err(error_at(ErrorKind::UnexpectedEndOfInputAfterEscape, idx)),
        Some(c) => match escape_of(c) {
            None => Err(error_at(ErrorKind::UnknownEscapedCharacter, idx)),
            Some(sym) => step(m.add_term(cap, Some(sym)), idx, idx + 1),
        },
    }
}

/// `term -> "\" <escaped-char> postfix | <alphabet-char> postfix | ε`
pub open spec fn term_spec(m: NfaModel, cap: nat, input: Seq<u8>, idx: int) -> Result<
    (NfaModel, int),
    CompileError,
> {
    match byte_at(input, idx) {
        Some(c) => if c == BACKSLASH {
            match escaped_term_spec(m, cap, input, idx + 1) {
                Ok((m1, i1)) => postfix_spec(m1, cap, input, i1),
                Err(e) => Err(e),
            }
        } else if is_alphabet(c) {
            match m.add_term(cap, Some(c)) {
                Ok(m1) => postfix_spec(m1, cap, input, idx + 1),
                Err(k) => Err(error_at(k, idx)),
            }
        } else {
            step(m.add_term(cap, None), idx, idx)
        },
        None => step(m.add_term(cap, None), idx, idx),
    }
}

/// `expr -> term rest*`: one term, then `rest` for as long as it makes
/// progress.
pub open spec fn expr_spec(m: NfaModel, cap: nat, input: Seq<u8>, idx: int) -> Result<
    (NfaModel, int),
    CompileError,
>
    decreases input.len() - idx, 3int,
{
    match term_spec(m, cap, input, idx) {
        Ok((m1, i1)) => expr_loop_spec(m1, cap, input, i1),
        Err(e) => Err(e),
    }
}

/// Applies `rest` until the input ends or `rest` consumes nothing.
pub open spec fn expr_loop_spec(m: NfaModel, cap: nat, input: Seq<u8>, idx: int) -> Result<
    (NfaModel, int),
    CompileError,
>
    decreases input.len() - idx, 2int,
{
    if idx >= input.len() {
        Ok((m, idx))
    } else {
        match rest_spec(m, cap, input, idx) {
            Ok((m1, i1)) => if idx < i1 <= input.len() {
                expr_loop_spec(m1, cap, input, i1)
            } else {
                Ok((m1, i1))
            },
            Err(e) => Err(e),
        }
    }
}

/// `rest -> "(" expr ")" postfix | "|" expr | term`, the last one
/// concatenated onto the fragment built so far.
pub open spec fn rest_spec(m: NfaModel, cap: nat, input: Seq<u8>, idx: int) -> Result<
    (NfaModel, int),
    CompileError,
>
    decreases input.len() - idx, 1int,
{
    if byte_at(input, idx) == Some(OPEN_PAREN) {
        group_spec(m, cap, input, idx)
    } else if byte_at(input, idx) == Some(BAR) {
        alternate_spec(m, cap, input, idx)
    } else {
        match term_spec(m, cap, input, idx) {
            Ok((m1, i1)) => step(m1.product(m.start, m.accept), i1, i1),
            Err(e) => Err(e),
        }
    }
}

/// `"(" expr ")" postfix`, concatenated onto the fragment built so far.
pub open spec fn group_spec(m: NfaModel, cap: nat, input: Seq<u8>, idx: int) -> Result<
    (NfaModel, int),
    CompileError,
>
    decreases input.len() - idx, 0int,
{
    if byte_at(input, idx) != Some(OPEN_PAREN) {
        Err(error_at(ErrorKind::ExpectedOpenParen, idx))
    } else {
        match expr_spec(m, cap, input, idx + 1) {
            Ok((m1, i1)) => if byte_at(input, i1) == Some(CLOSE_PAREN) {
                match postfix_spec(m1, cap, input, i1 + 1) {
                    Ok((m2, i2)) => step(m2.product(m.start, m.accept), i2, i2),
                    Err(e) => Err(e),
                }
            } else {
                Err(error_at(ErrorKind::UnterminatedGroup, i1))
            },
            Err(e) => Err(e),
        }
    }
}

/// `"|" expr`: everything up to the end of the scope is the right-hand
/// alternative of the fragment built so far.
pub open spec fn alternate_spec(m: NfaModel, cap: nat, input: Seq<u8>, idx: int) -> Result<
    (NfaModel, int),
    CompileError,
>
    decreases input.len() - idx, 0int,
{
    if idx < 0 || idx >= input.len() {
        Ok((m, idx))
    } else {
        match expr_spec(m, cap, input, idx + 1) {
            Ok((m1, i1)) => step(m1.alternate_fragments(cap, m.start, m.accept), i1, i1),
            Err(e) => Err(e),
        }
    }
}

/// The automaton for the whole of `input`, or the first error met.
pub open spec fn compile_spec(cap: nat, input: Seq<u8>) -> Result<NfaModel, CompileError> {
    match expr_spec(NfaModel::empty(), cap, input, 0) {
        Ok((m, i)) => if i == input.len() {
            Ok(m)
        } else {
            Err(error_at(ErrorKind::UnexpectedTrailingInput, i))
        },
        Err(e) => Err(e),
    }
}

/// A parse step's outcome, with the automaton seen as its model.
pub open spec fn step_view<const N: usize>(r: Result<(Nfa<N>, usize), CompileError>) -> Result<
    (NfaModel, int),
    CompileError,
> {
    match r {
        Ok((n, i)) => Ok((n@, i as int)),
        Err(e) => Err(e),
    }
}

/// What a successful parse step hands back: a well-formed arena holding a
/// fragment, and a position that has not moved back nor past the input.
pub open spec fn step_ok<const N: usize>(
    r: Result<(Nfa<N>, usize), CompileError>,
    input: Seq<u8>,
    idx: int,
    old_len: int,
) -> bool {
    r is Ok ==> {
        &&& r->Ok_0.0.wf()
        &&& old_len <= r->Ok_0.0@.len()
        &&& r->Ok_0.0@.has_fragment()
        &&& idx <= r->Ok_0.1 <= input.len()
    }
}

/// Whether `c` is a literal symbol of the expression language.
pub fn is_alphabet_byte(c: u8) -> (r: bool)
    ensures
        r == is_alphabet(c),
{
    (97 <= c && c <= 122) || (65 <= c && c <= 90) || (48 <= c && c <= 57) || c == 33 || c == 64
        || c == 35 || c == 37 || c == 38 || c == 45 || c == 61 || c == 43 || c == 59 || c == 58
        || c == 34 || c == 44 || c == 60 || c == 62 || c == 47 || c == 96 || c == 126 || c == 32
        || c == 39
}

/// The symbol that the escape sequence `\c` stands for, if any.
pub fn escaped_symbol(c: u8) -> (r: Option<u8>)
    ensures
        r == escape_of(c),
{
    if c == 110 {
        Some(10)
    } else if c == 116 {
        Some(9)
    } else if c == 36 || c == 94 || c == 40 || c == 41 || c == 123 || c == 125 || c == 91 || c
        == 93 || c == 124 || c == 63 || c == 42 || c == 92 {
        Some(c)
    } else {
        None
    }
}

impl<const N: usize> Nfa<N> {
    /// Compiles the whole of `input`; any byte left over once the top-level
    /// expression ends is an error.
    pub fn from_regex_bytes(input: &[u8]) -> (r: Result<Self, CompileError>)
        requires
            N <= MAX_STATES,
        ensures
            Self::compile_outcome(r) == compile_spec(N as nat, input@),
            r is Ok ==> {
                &&& r->Ok_0.wf()
                &&& r->Ok_0@.wf(N as nat)
                &&& r->Ok_0@.has_fragment()
                &&& accept_reachable(r->Ok_0@)
            },
    {
        let nfa = Nfa::<N>::new();
        let (nfa, idx) = match nfa.expr(input, 0) {
            Ok(p) => p,
            Err(e) => return Err(e),
        };
        if idx != input.len() {
            return Err(CompileError { kind: ErrorKind::UnexpectedTrailingInput, offset: idx });
        }
        proof {
            nfa.lemma_wf();
            lemma_compiled_accept_reachable(N as nat, input@);
        }
        Ok(nfa)
    }

    /// The outcome of a compilation, with the automaton seen as its model.
    pub open spec fn compile_outcome(r: Result<Self, CompileError>) -> Result<NfaModel, CompileError> {
        match r {
            Ok(n) => Ok(n@),
            Err(e) => Err(e),
        }
    }

    /// `expr -> term rest*`
    pub fn expr(self, input: &[u8], idx: usize) -> (r: Result<(Self, usize), CompileError>)
        requires
            self.wf(),
            idx <= input.len(),
        ensures
            step_view(r) == expr_spec(self@, N as nat, input@, idx as int),
            step_ok(r, input@, idx as int, self@.len()),
        decreases input.len() - idx, 3int,
    {
        let (mut nfa, mut pos) = match self.term(input, idx) {
            Ok(p) => p,
            Err(e) => return Err(e),
        };
        let ghost target = expr_spec(self@, N as nat, input@, idx as int);
        while pos < input.len()
            invariant
                nfa.wf(),
                nfa@.has_fragment(),
                idx <= pos <= input.len(),
                self@.len() <= nfa@.len(),
                target == expr_spec(self@, N as nat, input@, idx as int),
                expr_loop_spec(nfa@, N as nat, input@, pos as int) == target,
            decreases input.len() - pos,
        {
            let last = pos;
            let res = nfa.rest(input, pos);
            let (next, p) = match res {
                Ok(p) => p,
                Err(e) => return Err(e),
            };
            nfa = next;
            pos = p;
            if last == pos {
                return Ok((nfa, pos));
            }
        }
        Ok((nfa, pos))
    }

    /// `term -> "\" <escaped-char> postfix | <alphabet-char> postfix | ε`;
    /// any other byte, or the end of the input, gives the empty fragment and
    /// is not consumed.
    pub fn term(self, input: &[u8], idx: usize) -> (r: Result<(Self, usize), CompileError>)
        requires
            self.wf(),
            idx <= input.len(),
        ensures
            step_view(r) == term_spec(self@, N as nat, input@, idx as int),
            step_ok(r, input@, idx as int, self@.len()),
    {
        if idx < input.len() {
            let c = input[idx];
            if c == BACKSLASH {
                let (nfa, pos) = match self.escaped_term(input, idx + 1) {
                    Ok(p) => p,
                    Err(e) => return Err(e),
                };
                return nfa.postfix(input, pos);
            } else if is_alphabet_byte(c) {
                let nfa = match self.add_alphabet_term(c) {
                    Ok(n) => n,
                    Err(k) => return Err(CompileError { kind: k, offset: idx }),
                };
                return nfa.postfix(input, idx + 1);
            }
        }
        match self.add_empty_term() {
            Ok(n) => Ok((n, idx)),
            Err(k) => Err(CompileError { kind: k, offset: idx }),
        }
    }

    /// `postfix -> "*" | ε`: a star repeats the current fragment.
    pub fn postfix(self, input: &[u8], idx: usize) -> (r: Result<(Self, usize), CompileError>)
        requires
            self.wf(),
            self@.has_fragment(),
            idx <= input.len(),
        ensures
            step_view(r) == postfix_spec(self@, N as nat, input@, idx as int),
            step_ok(r, input@, idx as int, self@.len()),
    {
        if idx < input.len() && input[idx] == STAR {
            match self.kleene_star() {
                Ok(n) => Ok((n, idx + 1)),
                Err(k) => Err(CompileError { kind: k, offset: idx }),
            }
        } else {
            Ok((self, idx))
        }
    }

    /// The byte at `idx` follows a backslash: `n` and `t` stand for newline
    /// and tab, a metacharacter for itself.
    pub fn escaped_term(self, input: &[u8], idx: usize) -> (r: Result<(Self, usize), CompileError>)
        requires
            self.wf(),
            idx <= input.len(),
        ensures
            step_view(r) == escaped_term_spec(self@, N as nat, input@, idx as int),
            step_ok(r, input@, idx as int, self@.len()),
    {
        if idx >= input.len() {
            return Err(
                CompileError { kind: ErrorKind::UnexpectedEndOfInputAfterEscape, offset: idx },
            );
        }
        match escaped_symbol(input[idx]) {
            None => Err(CompileError { kind: ErrorKind::UnknownEscapedCharacter, offset: idx }),
            Some(sym) => match self.add_alphabet_term(sym) {
                Ok(n) => Ok((n, idx + 1)),
                Err(k) => Err(CompileError { kind: k, offset: idx }),
            },
        }
    }

    /// `rest -> "(" expr ")" postfix | "|" expr | term`; a plain term is
    /// concatenated onto the fragment built so far.
    pub fn rest(self, input: &[u8], idx: usize) -> (r: Result<(Self, usize), CompileError>)
        requires
            self.wf(),
            self@.has_fragment(),
            idx <= input.len(),
        ensures
            step_view(r) == rest_spec(self@, N as nat, input@, idx as int),
            step_ok(r, input@, idx as int, self@.len()),
        decreases input.len() - idx, 1int,
    {
        if idx < input.len() && input[idx] == OPEN_PAREN {
            return self.group(input, idx);
        }
        if idx < input.len() && input[idx] == BAR {
            return self.alternate(input, idx);
        }
        let last_start = self.start();
        let last_accept = self.accept();
        let (nfa, pos) = match self.term(input, idx) {
            Ok(p) => p,
            Err(e) => return Err(e),
        };
        match nfa.product(last_start, last_accept) {
            Ok(n) => Ok((n, pos)),
            Err(k) => Err(CompileError { kind: k, offset: pos }),
        }
    }

    /// `"(" expr ")" postfix`: the group, starred or not, is concatenated
    /// onto the fragment built so far.
    pub fn group(self, input: &[u8], idx: usize) -> (r: Result<(Self, usize), CompileError>)
        requires
            self.wf(),
            self@.has_fragment(),
            idx <= input.len(),
        ensures
            step_view(r) == group_spec(self@, N as nat, input@, idx as int),
            step_ok(r, input@, idx as int, self@.len()),
        decreases input.len() - idx, 0int,
    {
        if idx >= input.len() || input[idx] != OPEN_PAREN {
            return Err(CompileError { kind: ErrorKind::ExpectedOpenParen, offset: idx });
        }
        let last_start = self.start();
        let last_accept = self.accept();
        let (nfa, pos) = match self.expr(input, idx + 1) {
            Ok(p) => p,
            Err(e) => return Err(e),
        };
        if pos < input.len() && input[pos] == CLOSE_PAREN {
            let (nfa, pos) = match nfa.postfix(input, pos + 1) {
                Ok(p) => p,
                Err(e) => return Err(e),
            };
            match nfa.product(last_start, last_accept) {
                Ok(n) => Ok((n, pos)),
                Err(k) => Err(CompileError { kind: k, offset: pos }),
            }
        } else {
            Err(CompileError { kind: ErrorKind::UnterminatedGroup, offset: pos })
        }
    }

    /// `"|" expr`: the alternative to the right of the bar at `idx` runs to
    /// the end of the scope.
    pub fn alternate(self, input: &[u8], idx: usize) -> (r: Result<(Self, usize), CompileError>)
        requires
            self.wf(),
            self@.has_fragment(),
            idx < input.len(),
        ensures
            step_view(r) == alternate_spec(self@, N as nat, input@, idx as int),
            step_ok(r, input@, idx as int, self@.len()),
        decreases input.len() - idx, 0int,
    {
        let prev_start = self.start();
        let prev_accept = self.accept();
        let (nfa, pos) = match self.expr(input, idx + 1) {
            Ok(p) => p,
            Err(e) => return Err(e),
        };
        match nfa.alternate_fragments(prev_start, prev_accept) {
            Ok(n) => Ok((n, pos)),
            Err(k) => Err(CompileError { kind: k, offset: pos }),
        }
    }
}

} // verus!
