use pratt::parser::ParserState;
use pratt::scanner::{digit, digits, one_of, skip_ws, some, some_str, token, ErrorWithMark};
use pratt::scanner::{Scannable, ScanningErrors};

fn mark_of(text: &str, consumed: usize) -> pratt::scanner::Mark {
    let mut c = ParserState::new(text);
    for _ in 0..consumed {
        c.next();
    }
    c.mark()
}

#[test]
fn main_it_works() {
    let mut code = ParserState::new("let a = 1");
    let res = token(&mut code, "let");
    assert!(res.is_ok());
    assert_eq!("let", res.unwrap());
    assert_eq!(Some(' '), code.peek());
    assert_eq!(Some(' '), code.next());
    assert_eq!(Some('a'), code.next());
}

#[test]
fn digit_consumes_one_digit() {
    let mut code = ParserState::new("42");
    assert_eq!(Ok('4'), digit(&mut code));
    assert_eq!(Ok('2'), digit(&mut code));
    assert_eq!(
        Err(ScanningErrors::EOF(mark_of("42", 2))),
        digit(&mut code)
    );
}

#[test]
fn digit_fails_without_consuming() {
    let mut code = ParserState::new("x1");
    assert_eq!(
        Err(ScanningErrors::NotADigit(mark_of("x1", 0))),
        digit(&mut code)
    );
    assert_eq!(Some('x'), code.peek());
}

#[test]
fn digits_consumes_whole_run() {
    let mut code = ParserState::new("123abc");
    assert_eq!(Ok(String::from("123")), digits(&mut code));
    assert_eq!(Some('a'), code.peek());
}

#[test]
fn digits_propagates_first_failure() {
    let mut code = ParserState::new("abc");
    assert_eq!(
        Err(ScanningErrors::NotADigit(mark_of("abc", 0))),
        digits(&mut code)
    );
    assert_eq!(Some('a'), code.peek());

    let mut empty = ParserState::new("");
    assert_eq!(Err(ScanningErrors::EOF(mark_of("", 0))), digits(&mut empty));
}

#[test]
fn token_restores_cursor_on_partial_match() {
    let mut code = ParserState::new("lexer");
    let res = token(&mut code, "let");
    assert_eq!(
        Err(ScanningErrors::TokenNotFound(mark_of("lexer", 2))),
        res
    );
    assert_eq!(Some('l'), code.peek());
    let before = code.mark();
    assert!(token(&mut code, "loop").is_err());
    assert_eq!(before, code.mark());
}

#[test]
fn token_fails_at_end_of_input() {
    let mut code = ParserState::new("le");
    assert_eq!(
        Err(ScanningErrors::TokenNotFound(mark_of("le", 2))),
        token(&mut code, "let")
    );
    assert_eq!(Some('l'), code.peek());
}

#[test]
fn empty_token_never_matches() {
    let mut code = ParserState::new("abc");
    assert_eq!(
        Err(ScanningErrors::TokenNotFound(mark_of("abc", 0))),
        token(&mut code, "")
    );
    assert_eq!(Some('a'), code.peek());
}

#[test]
fn mark_restore_roundtrip_preserves_peek() {
    let mut code = ParserState::new("a\nb");
    code.next();
    code.next();
    let m = code.mark();
    let before = code.peek();
    code.restore(&m);
    assert_eq!(before, code.peek());
    assert_eq!(m, code.mark());
}

#[test]
fn restore_rewinds_consumption() {
    let mut code = ParserState::new("one\ntwo");
    let m = code.mark();
    code.next();
    code.next();
    code.next();
    code.next();
    assert_eq!(Some('t'), code.peek());
    code.restore(&m);
    assert_eq!(Some('o'), code.peek());
    assert_eq!(m, code.mark());
}

#[test]
fn substr_returns_consumed_span() {
    let mut code = ParserState::new("hello world");
    let m = code.mark();
    for _ in 0..5 {
        code.next();
    }
    assert_eq!(String::from("hello"), code.substr(&m));
}

#[test]
fn skip_ws_stops_at_first_non_space() {
    let mut code = ParserState::new(" \t\n  x y");
    skip_ws(&mut code);
    assert_eq!(Some('x'), code.peek());
    skip_ws(&mut code);
    assert_eq!(Some('x'), code.peek());
}

#[test]
fn multibyte_characters_scan_and_restore() {
    let mut code = ParserState::new("héllo x");
    let m = code.mark();
    assert_eq!(Ok(String::from("héllo")), token(&mut code, "héllo"));
    assert_eq!(Some(' '), code.peek());
    assert_eq!(String::from("héllo"), code.substr(&m));
    code.restore(&m);
    assert_eq!(Some('h'), code.peek());
    assert_eq!(m, code.mark());
}

#[test]
fn unicode_whitespace_is_skipped() {
    let mut code = ParserState::new(" \u{a0}\u{2003}7");
    skip_ws(&mut code);
    assert_eq!(Some('7'), code.peek());
}

#[test]
fn end_of_input_mark_is_valid() {
    let mut code = ParserState::new("ab");
    code.next();
    code.next();
    assert_eq!(None, code.peek());
    let m = code.mark();
    code.restore(&m);
    assert_eq!(None, code.peek());
    assert_eq!(m, code.mark());
    assert_eq!(String::from(""), code.substr(&m));
}

#[test]
fn error_with_mark_yields_carried_mark() {
    let m = mark_of("abc", 1);
    assert_eq!(m, ScanningErrors::TokenNotFound(m).mark());
    assert_eq!(m, ScanningErrors::NotADigit(m).mark());
    assert_eq!(m, ScanningErrors::EOF(m).mark());
}

fn always_fails(_: &u32) -> Result<u32, ScanningErrors> {
    Err(ScanningErrors::EOF(mark_of("", 0)))
}

fn fails_elsewhere(_: &u32) -> Result<u32, ScanningErrors> {
    Err(ScanningErrors::NotADigit(mark_of("z", 0)))
}

fn succeeds(x: &u32) -> Result<u32, ScanningErrors> {
    Ok(*x + 1)
}

#[test]
fn one_of_returns_first_success() {
    let parsers: [fn(&u32) -> Result<u32, ScanningErrors>; 2] = [always_fails, succeeds];
    assert_eq!(Ok(5), one_of(&4, &parsers));
}

#[test]
fn one_of_returns_last_failure() {
    let parsers: [fn(&u32) -> Result<u32, ScanningErrors>; 2] = [always_fails, fails_elsewhere];
    assert_eq!(
        Err(ScanningErrors::NotADigit(mark_of("z", 0))),
        one_of(&4, &parsers)
    );
}

#[test]
fn some_collects_until_failure() {
    let mut code = ParserState::new("123x");
    assert_eq!(Ok(vec!['1', '2', '3']), some(&mut code, &digit));
    assert_eq!(Some('x'), code.peek());
}

#[test]
fn some_propagates_failure_without_consuming() {
    let mut code = ParserState::new("x");
    assert_eq!(
        Err(ScanningErrors::NotADigit(mark_of("x", 0))),
        some(&mut code, &digit)
    );
    assert_eq!(Some('x'), code.peek());
}

#[test]
fn some_str_returns_consumed_span() {
    let mut code = ParserState::new("907 rest");
    assert_eq!(Ok(String::from("907")), some_str(&mut code, &digit));
    assert_eq!(Some(' '), code.peek());
}
