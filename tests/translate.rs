use thompson_nfa::translate::{error, expr, rest, term, SyntaxError};

#[test]
fn sums_and_differences_to_postfix() {
    assert_eq!(expr(b"9-5+2").unwrap(), b"95-2+".to_vec());
    assert_eq!(expr(b"1+2+3-4").unwrap(), b"12+3+4-".to_vec());
    assert_eq!(expr(b"7").unwrap(), b"7".to_vec());
}

#[test]
fn translation_stops_at_other_bytes() {
    assert_eq!(expr(b"9-5\n").unwrap(), b"95-".to_vec());
    assert_eq!(expr(b"9 + 1").unwrap(), b"9".to_vec());
}

#[test]
fn missing_digit_is_an_error() {
    assert_eq!(expr(b""), Err(SyntaxError { offset: 0 }));
    assert_eq!(expr(b"+1"), Err(SyntaxError { offset: 0 }));
    assert_eq!(expr(b"9-"), Err(SyntaxError { offset: 2 }));
    assert_eq!(expr(b"9+x"), Err(SyntaxError { offset: 2 }));
    assert_eq!(error(4), SyntaxError { offset: 4 });
}

#[test]
fn term_and_rest_steps() {
    let mut out: Vec<u8> = Vec::new();
    assert_eq!(term(b"8", 0, &mut out), Ok(1));
    assert_eq!(out, b"8".to_vec());
    assert_eq!(term(b"8", 1, &mut out), Err(SyntaxError { offset: 1 }));
    assert_eq!(rest(b"8+1-2;", 1, &mut out), Ok(5));
    assert_eq!(out, b"81+2-".to_vec());
}
