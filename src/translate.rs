//! Translates sums and differences of single digits, such as `9-5+2`, into
//! postfix notation, `95-2+`, by recursive descent over
//! `expr -> term rest`, `rest -> ("+" | "-") term rest | ε`, `term -> 0..9`.
use vstd::prelude::*;

verus! {

/// A digit was expected at `offset`.
#[derive(Clone, Copy, PartialEq, Eq, Structural, Debug)]
pub struct SyntaxError {
    pub offset: usize,
}

pub open spec fn is_digit(c: u8) -> bool {
    48 <= c <= 57
}

pub open spec fn is_operator(c: u8) -> bool {
    c == 43 || c == 45
}

/// The digit at `pos`, or the offset where one was missing.
pub open spec fn term_spec(input: Seq<u8>, pos: int) -> Result<(Seq<u8>, int), int> {
    if 0 <= pos < input.len() && is_digit(input[pos]) {
        Ok((seq![input[pos]], pos + 1))
    } else {
        Err(pos)
    }
}

/// Reads `("+" | "-") term` pairs from `pos` for as long as an operator
/// follows, appending each term then its operator to `acc`; stops without
/// error at any other byte or at the end of the input.
pub open spec fn rest_spec(input: Seq<u8>, pos: int, acc: Seq<u8>) -> Result<(Seq<u8>, int), int>
    decreases input.len() - pos,
{
    if 0 <= pos < input.len() && is_operator(input[pos]) {
        match term_spec(input, pos + 1) {
            Ok((d, p)) => rest_spec(input, p, acc + d + seq![input[pos]]),
            Err(e) => Err(e),
        }
    } else {
        Ok((acc, pos))
    }
}

/// The postfix form of the expression at the start of `input`, with the
/// position where it ends.
pub open spec fn expr_spec(input: Seq<u8>) -> Result<(Seq<u8>, int), int> {
    match term_spec(input, 0) {
        Ok((d, p)) => rest_spec(input, p, d),
        Err(e) => Err(e),
    }
}

/// The error for a missing digit at `offset`.
pub fn error(offset: usize) -> (r: SyntaxError)
    ensures
        r == (SyntaxError { offset }),
{
    SyntaxError { offset }
}

/// Copies the digit at `pos` to `out` and returns the position after it.
pub fn term(input: &[u8], pos: usize, out: &mut Vec<u8>) -> (r: Result<usize, SyntaxError>)
    ensures
        match term_spec(input@, pos as int) {
            Ok((d, p)) => r == Ok::<usize, SyntaxError>(p as usize) && final(out)@ == old(out)@ + d,
            Err(e) => r == Err::<usize, SyntaxError>(SyntaxError { offset: e as usize })
                && final(out)@ == old(out)@,
        },
{
    if pos < input.len() && 48 <= input[pos] && input[pos] <= 57 {
        out.push(input[pos]);
        assert(out@ =~= old(out)@ + seq![input@[pos as int]]);
        Ok(pos + 1)
    } else {
        Err(error(pos))
    }
}

/// Reads the operator-term pairs that follow `pos`, writing each term and
/// then its operator to `out`; returns where they end.
pub fn rest(input: &[u8], pos: usize, out: &mut Vec<u8>) -> (r: Result<usize, SyntaxError>)
    requires
        pos <= input.len(),
    ensures
        match rest_spec(input@, pos as int, old(out)@) {
            Ok((o, p)) => r == Ok::<usize, SyntaxError>(p as usize) && final(out)@ == o,
            Err(e) => r == Err::<usize, SyntaxError>(SyntaxError { offset: e as usize }),
        },
{
    let ghost target = rest_spec(input@, pos as int, out@);
    let mut cur = pos;
    while cur < input.len() && (input[cur] == 43 || input[cur] == 45)
        invariant
            cur <= input.len(),
            target == rest_spec(input@, pos as int, old(out)@),
            rest_spec(input@, cur as int, out@) == target,
        decreases input.len() - cur,
    {
        let op = input[cur];
        let ghost acc = out@;
        cur = match term(input, cur + 1, out) {
            Ok(p) => p,
            Err(e) => return Err(e),
        };
        out.push(op);
        assert(out@ =~= acc + seq![input@[cur as int - 1]] + seq![op]);
    }
    Ok(cur)
}

/// The postfix form of the expression at the start of `input`; any bytes
/// after it are left unread.
pub fn expr(input: &[u8]) -> (r: Result<Vec<u8>, SyntaxError>)
    ensures
        match expr_spec(input@) {
            Ok((o, _)) => r is Ok && r->Ok_0@ == o,
            Err(e) => r == Err::<Vec<u8>, SyntaxError>(SyntaxError { offset: e as usize }),
        },
{
    let mut out: Vec<u8> = Vec::new();
    let pos = match term(input, 0, &mut out) {
        Ok(p) => p,
        Err(e) => return Err(e),
    };
    match rest(input, pos, &mut out) {
        Ok(_) => Ok(out),
        Err(e) => Err(e),
    }
}

} // verus!
