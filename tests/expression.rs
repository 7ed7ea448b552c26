use romancalc::expression::{tokenise, Expression, ExpressionToken, NumeralSystem, Operator};
use romancalc::checked_pow::CheckedPow;
use romancalc::expression::ExpressionToken::{ClosingBracket, OpeningBracket, Value};
use romancalc::expression::Operator::{Add, Div, Pow, Sub};
use romancalc::parse_integer;

fn value(v: i64) -> Box<Expression> {
    Box::new(Expression::Value(v))
}

#[test]
fn test_sample_expressions() {
    let samples = vec![
        ("1", Expression::Value(1)),
        ("-1", Expression::Value(-1)),
        ("1 + 1", Expression::Addition { lhs: value(1), rhs: value(1) }),
        ("1 - 1", Expression::Subtraction { lhs: value(1), rhs: value(1) }),
        ("1 + -1", Expression::Addition { lhs: value(1), rhs: value(-1) }),
        ("1 * 1", Expression::Multiplication { lhs: value(1), rhs: value(1) }),
        (
            "1 / 1",
            Expression::Division { numerator: value(1), denominator: value(1) },
        ),
        ("1 ^ 1", Expression::Order { base: value(1), exponent: value(1) }),
        ("(1)", Expression::Brackets { expr: value(1) }),
    ];

    for (expr, expected) in samples {
        println!("{}", expr);
        assert_eq!(Expression::parse(expr).unwrap(), expected);
    }
}

#[test]
fn test_sample_evaluations() {
    let samples = vec![
        ("1 + 1", 2),
        ("1 * 5", 5),
        ("1 + 1 * 2", 3),
        ("(1 + 1) * 2", 4),
        ("1 + 2 / 2", 2),
        ("(1 + 2) / 2", 1),
        ("1 + 2 ^ 2", 5),
        ("(1 + 2) ^ 2", 9),
        ("-1 * 10", -10),
        ("-100", -100),
        ("10 ^ 2 * 13", 1300),
        ("10 ^ 2 * -13", -1300),
        ("10 ^ (2 * 2)", 10000),
        ("10 / -3", -3),
        ("10 / -3 + 4", 1),
        ("(-100 * 2) + (6 - 10) ^ 2", -184),
    ];

    for (expr, expected) in samples {
        println!("{}", expr);
        assert_eq!(Expression::parse(expr).unwrap().evaluate().unwrap(), expected);
    }
}

#[test]
fn test_parse_integer() {
    assert_eq!(parse_integer("100").unwrap(), 100);
    assert_eq!(parse_integer("+100").unwrap(), 100);
    assert_eq!(parse_integer("-64").unwrap(), -64);
}

#[test]
fn test_tokenise() {
    let samples = vec![
        ("1", vec![Value(1)]),
        ("-1", vec![ExpressionToken::Operator(Sub), Value(1)]),
        ("1 + 1", vec![Value(1), ExpressionToken::Operator(Add), Value(1)]),
        ("1 - 1", vec![Value(1), ExpressionToken::Operator(Sub), Value(1)]),
        (
            "1 + -1",
            vec![
                Value(1),
                ExpressionToken::Operator(Add),
                ExpressionToken::Operator(Sub),
                Value(1),
            ],
        ),
        ("1 / 1", vec![Value(1), ExpressionToken::Operator(Div), Value(1)]),
        ("1 ^ 1", vec![Value(1), ExpressionToken::Operator(Pow), Value(1)]),
        ("(1)", vec![OpeningBracket, Value(1), ClosingBracket]),
    ];

    for (expr, expected) in samples {
        println!("{}", expr);
        assert_eq!(tokenise(expr, NumeralSystem::Decimal).unwrap(), expected);
    }
}

#[test]
fn test_tokenise_roman() {
    let samples = vec![
        ("I", vec![Value(1)]),
        ("-IV", vec![ExpressionToken::Operator(Sub), Value(4)]),
        ("VI + L", vec![Value(6), ExpressionToken::Operator(Add), Value(50)]),
        ("MMC - IX", vec![Value(2100), ExpressionToken::Operator(Sub), Value(9)]),
        (
            "XI + -D",
            vec![
                Value(11),
                ExpressionToken::Operator(Add),
                ExpressionToken::Operator(Sub),
                Value(500),
            ],
        ),
        ("CD / XC", vec![Value(400), ExpressionToken::Operator(Div), Value(90)]),
        ("M ^ II", vec![Value(1000), ExpressionToken::Operator(Pow), Value(2)]),
        ("(CLI)", vec![OpeningBracket, Value(151), ClosingBracket]),
    ];

    for (expr, expected) in samples {
        println!("{}", expr);
        assert_eq!(tokenise(expr, NumeralSystem::Roman).unwrap(), expected);
    }
}

fn eval(expr: &str) -> Option<i64> {
    Expression::parse(expr).unwrap().evaluate()
}

fn parse_error(expr: &str) -> String {
    Expression::parse(expr).err().unwrap()
}

#[test]
fn precedence_and_associativity() {
    assert_eq!(eval("1 + 2 * 3"), Some(7));
    assert_eq!(eval("(1 + 2) * 2"), Some(6));
    assert_eq!(eval("10 ^ 2 * 13"), Some(1300));
    assert_eq!(eval("10 ^ (2 * 2)"), Some(10000));
    assert_eq!(eval("2 ^ 3 ^ 2"), Some(512));
    assert_eq!(eval("1 - 2 + 3"), Some(2));
    assert_eq!(eval("10 - 3 - 2"), Some(5));
    assert_eq!(eval("100 / 10 / 5"), Some(2));
    assert_eq!(eval("12 / 3 * 2"), Some(8));
}

#[test]
fn subtraction_associates_to_the_left() {
    let e = Expression::parse("1 - 2 + 3").unwrap();
    assert_eq!(
        e,
        Expression::Addition {
            lhs: Box::new(Expression::Subtraction { lhs: value(1), rhs: value(2) }),
            rhs: value(3),
        }
    );
}

#[test]
fn power_associates_to_the_right() {
    let e = Expression::parse("2 ^ 3 ^ 2").unwrap();
    assert_eq!(
        e,
        Expression::Order {
            base: value(2),
            exponent: Box::new(Expression::Order { base: value(3), exponent: value(2) }),
        }
    );
}

#[test]
fn truncating_division() {
    assert_eq!(eval("10 / -3"), Some(-3));
    assert_eq!(eval("10 / -3 + 4"), Some(1));
    assert_eq!(eval("-7 / 2"), Some(-3));
    assert_eq!(eval("-7 / -2"), Some(3));
}

#[test]
fn roman_expression() {
    let e = Expression::parse_roman("MMC - IX").unwrap();
    assert_eq!(e.evaluate(), Some(2091));
    assert_eq!(romancalc::numeral(2091).unwrap(), "MMXCI");
    assert_eq!(
        Expression::parse_roman("IIII").err().unwrap(),
        "Repetition of 'I' more than three times"
    );
}

#[test]
fn bracket_after_sign_rejected() {
    assert_eq!(parse_error("-(1+1)"), "Cannot have bracket after sign");
}

#[test]
fn unmatched_brackets() {
    assert_eq!(parse_error("(1"), "Unmatched opening bracket");
    assert_eq!(parse_error("1)"), "Closing bracket without opening bracket");
    assert_eq!(parse_error("()"), "Unexpected closing bracket");
}

#[test]
fn end_to_end_scenario() {
    let e = Expression::parse("(-100 * 2) + (6 - 10) ^ 2").unwrap();
    assert_eq!(e.evaluate(), Some(-184));
}

#[test]
fn syntax_errors() {
    assert_eq!(parse_error(""), "Empty input");
    assert_eq!(parse_error("   "), "Empty input");
    assert_eq!(parse_error("1 +"), "Unfinished operator: +");
    assert_eq!(parse_error("1 2"), "Expected operator before value");
    assert_eq!(parse_error("* 2"), "Unexpected operator '*'");
    assert_eq!(parse_error("--2"), "Unexpected operator '-'");
    assert_eq!(parse_error("-"), "Expected value for sign at end of input");
    assert_eq!(parse_error("1 % 2"), "Unexpected character '%'");
    assert_eq!(parse_error("99999999999999999999"), "Invalid number");
}

#[test]
fn juxtaposed_brackets_multiply() {
    assert_eq!(eval("2(3)"), Some(6));
    assert_eq!(eval("(2)(3 + 1)"), Some(8));
}

#[test]
fn overflow_gives_no_value() {
    assert_eq!(eval("9223372036854775807 + 1"), None);
    assert_eq!(eval("-9223372036854775807 - 2"), None);
    assert_eq!(eval("3037000500 * 3037000500"), None);
    assert_eq!(eval("1 / 0"), None);
    assert_eq!(eval("2 ^ 63"), None);
    assert_eq!(eval("2 ^ 62"), Some(4611686018427387904));
    assert_eq!(eval("-2 ^ 63"), Some(i64::MIN));
    assert_eq!(eval("2 ^ -1"), None);
    assert_eq!(eval("1 ^ 4294967296"), None);
    assert_eq!(eval("1 ^ 4294967295"), Some(1));
    assert_eq!(eval("-1 ^ 4294967295"), Some(-1));
    assert_eq!(eval("0 ^ 0"), Some(1));
}

#[test]
fn checked_pow_directly() {
    assert_eq!(CheckedPow::checked_pow(3i64, 4), Some(81));
    assert_eq!(CheckedPow::checked_pow(-3i64, 3), Some(-27));
    assert_eq!(CheckedPow::checked_pow(10i64, 19), None);
    assert_eq!(CheckedPow::checked_pow(10i64, 18), Some(1_000_000_000_000_000_000));
}

#[test]
fn parse_integer_rejects() {
    assert_eq!(parse_integer("").err().unwrap(), "Invalid number");
    assert_eq!(parse_integer("-").err().unwrap(), "Invalid number");
    assert_eq!(parse_integer("1a").err().unwrap(), "Invalid number");
    assert_eq!(parse_integer("9223372036854775808").err().unwrap(), "Invalid number");
    assert_eq!(parse_integer("-9223372036854775808").unwrap(), i64::MIN);
    assert_eq!(parse_integer("9223372036854775807").unwrap(), i64::MAX);
}

#[test]
fn operator_symbols() {
    assert_eq!(Operator::Pow.symbol(), '^');
    assert_eq!(Operator::Sub.symbol(), '-');
}

#[test]
fn cloned_tree_is_equal() {
    let e = Expression::parse("(1 + 2) * 3 ^ 2 / -4").unwrap();
    let c = e.clone();
    assert_eq!(c, e);
    assert_eq!(c.evaluate(), Some(-6));
}
