use pratt::parser::{expression_bp, integer, Expression, Operator, ParserState, ParsingError};
use pratt::scanner::Scannable;

fn mark_of(text: &str, consumed: usize) -> pratt::scanner::Mark {
    let mut c = ParserState::new(text);
    for _ in 0..consumed {
        c.next();
    }
    c.mark()
}

fn lit(v: i64) -> Expression {
    Expression::Integer(v)
}

fn bin(l: Expression, op: Operator, r: Expression) -> Expression {
    Expression::BinaryOperation(Box::new(l), op, Box::new(r))
}

#[test]
fn parser_it_works() {
    let mut code = ParserState::new(" 1 + 2 * 3     ");
    let res = expression_bp(&mut code, 0);
    assert!(res.is_ok());
    assert_eq!(
        Expression::BinaryOperation(
            Box::new(Expression::Integer(1)),
            Operator::Plus,
            Box::new(Expression::BinaryOperation(
                Box::new(Expression::Integer(2)),
                Operator::Multiply,
                Box::new(Expression::Integer(3))
            ))
        ),
        res.unwrap()
    );
}

#[test]
fn multiplication_binds_tighter_than_addition() {
    let mut code = ParserState::new("1 + 2 * 3");
    let res = expression_bp(&mut code, 0).unwrap();
    assert_eq!(bin(lit(1), Operator::Plus, bin(lit(2), Operator::Multiply, lit(3))), res);

    let mut flipped = ParserState::new("1 * 2 + 3");
    let res = expression_bp(&mut flipped, 0).unwrap();
    assert_eq!(bin(bin(lit(1), Operator::Multiply, lit(2)), Operator::Plus, lit(3)), res);
}

#[test]
fn equal_precedence_folds_to_the_left() {
    let mut code = ParserState::new("1 + 2 + 3");
    let res = expression_bp(&mut code, 0).unwrap();
    assert_eq!(bin(bin(lit(1), Operator::Plus, lit(2)), Operator::Plus, lit(3)), res);
    assert_ne!(bin(lit(1), Operator::Plus, bin(lit(2), Operator::Plus, lit(3))), res);
}

#[test]
fn whitespace_does_not_change_the_tree() {
    let mut tight = ParserState::new("1+2");
    let mut spaced = ParserState::new(" 1 + 2 ");
    assert_eq!(
        expression_bp(&mut tight, 0).unwrap(),
        expression_bp(&mut spaced, 0).unwrap()
    );
}

#[test]
fn trailing_input_is_left_unconsumed() {
    let mut code = ParserState::new("1 + 2 $");
    let res = expression_bp(&mut code, 0);
    assert_eq!(Ok(bin(lit(1), Operator::Plus, lit(2))), res);
    assert_eq!(Some('$'), code.peek());
}

#[test]
fn single_integer_parses() {
    let mut code = ParserState::new("907");
    assert_eq!(Ok(lit(907)), expression_bp(&mut code, 0));
}

#[test]
fn leading_zeroes_are_accepted() {
    let mut code = ParserState::new("007");
    assert_eq!(Ok(lit(7)), expression_bp(&mut code, 0));
}

#[test]
fn largest_literal_still_fits() {
    let mut code = ParserState::new("9223372036854775807");
    assert_eq!(Ok(lit(i64::MAX)), expression_bp(&mut code, 0));
}

#[test]
fn overflowing_literal_reports_conversion_failure() {
    let text = "9223372036854775808";
    let mut code = ParserState::new(text);
    assert_eq!(
        Err(ParsingError::NumericConversionFailure(mark_of(text, 0))),
        expression_bp(&mut code, 0)
    );
}

#[test]
fn conversion_failure_carries_mark_of_literal_start() {
    let text = "  99999999999999999999";
    let mut code = ParserState::new(text);
    code.next();
    code.next();
    assert_eq!(
        Err(ParsingError::NumericConversionFailure(mark_of(text, 2))),
        integer(&mut code)
    );
}

#[test]
fn missing_term_is_invalid() {
    let mut empty = ParserState::new("");
    assert_eq!(
        Err(ParsingError::Invalid(mark_of("", 0))),
        expression_bp(&mut empty, 0)
    );

    let text = "  x";
    let mut code = ParserState::new(text);
    assert_eq!(
        Err(ParsingError::Invalid(mark_of(text, 2))),
        expression_bp(&mut code, 0)
    );
}

#[test]
fn missing_right_hand_side_is_invalid() {
    let text = "1 + ";
    let mut code = ParserState::new(text);
    assert_eq!(
        Err(ParsingError::Invalid(mark_of(text, 4))),
        expression_bp(&mut code, 0)
    );
}

#[test]
fn registered_multi_character_operator_is_probed() {
    let mut code = ParserState::new("2 mul 3 + 4");
    code.infixl("mul", Operator::Multiply, 5);
    let res = expression_bp(&mut code, 0).unwrap();
    assert_eq!(bin(bin(lit(2), Operator::Multiply, lit(3)), Operator::Plus, lit(4)), res);
}

#[test]
fn late_registration_replaces_earlier_entry() {
    let mut code = ParserState::new("1 + 2 * 3");
    code.infixl("+", Operator::Plus, 6);
    let res = expression_bp(&mut code, 0).unwrap();
    assert_eq!(bin(bin(lit(1), Operator::Plus, lit(2)), Operator::Multiply, lit(3)), res);

    let mut again = ParserState::new("1 + 2 * 3");
    again.infixl("*", Operator::Multiply, 0);
    let res = expression_bp(&mut again, 0).unwrap();
    assert_eq!(bin(bin(lit(1), Operator::Plus, lit(2)), Operator::Multiply, lit(3)), res);
}
