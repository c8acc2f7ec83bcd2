use calculator::{float_literal, to_postfix, BinOp, CalcError, Calculator, Func, Token};

fn num(s: &str) -> Token {
    Token::Number(s.to_string())
}

#[test]
fn precedence_of_operator_characters() {
    assert_eq!(Calculator::get_precedence('+'), 1);
    assert_eq!(Calculator::get_precedence('-'), 1);
    assert_eq!(Calculator::get_precedence('*'), 2);
    assert_eq!(Calculator::get_precedence('/'), 2);
    assert_eq!(Calculator::get_precedence('x'), 0);
    assert_eq!(BinOp::Mul.precedence(), 2);
    assert_eq!(BinOp::Sub.precedence(), 1);
}

#[test]
fn calculator_keeps_its_angle_mode() {
    assert!(Calculator::new(true).rad_mode);
    assert!(!Calculator::new(false).rad_mode);
}

#[test]
fn float_literals_follow_the_documented_grammar() {
    for s in ["5", "1.5", "1.", ".5", "-2", "+0.25", "1e5", "1E-3", "2.5e+10", "inf", "-Infinity", "NaN", "iNf"] {
        assert!(float_literal(s), "{s}");
        assert!(s.parse::<f64>().is_ok(), "{s}");
    }
    for s in ["", ".", "-", "1e", "1.2.3", "e5", "abc", "5sin", "1e5.0", "infinit", "--1", "1 2"] {
        assert!(!float_literal(s), "{s}");
        assert!(s.parse::<f64>().is_err(), "{s}");
    }
}

#[test]
fn postfix_respects_precedence() {
    let calc = Calculator::new(true);
    let r = calc.infix_to_postfix(vec!["2", "+", "3", "*", "4"]).unwrap();
    assert_eq!(
        r,
        vec![num("2"), num("3"), num("4"), Token::Operator(BinOp::Mul), Token::Operator(BinOp::Add)]
    );
}

#[test]
fn postfix_associates_left() {
    let r = to_postfix(&vec!["24", "/", "2", "/", "3"]).unwrap();
    assert_eq!(
        r,
        vec![num("24"), num("2"), Token::Operator(BinOp::Div), num("3"), Token::Operator(BinOp::Div)]
    );
}

#[test]
fn postfix_applies_functions_to_the_next_operand() {
    let r = to_postfix(&vec!["sin", "90", "-", "1"]).unwrap();
    assert_eq!(
        r,
        vec![num("90"), Token::Function(Func::Sin), num("1"), Token::Operator(BinOp::Sub)]
    );
    let r = to_postfix(&vec!["tan", "45", "*", "2"]).unwrap();
    assert_eq!(
        r,
        vec![num("45"), Token::Function(Func::Tan), num("2"), Token::Operator(BinOp::Mul)]
    );
}

#[test]
fn postfix_recognises_every_function_name() {
    let names = ["sin", "cos", "tan", "ln", "log", "asin", "acos", "atan"];
    let funcs = [Func::Sin, Func::Cos, Func::Tan, Func::Ln, Func::Log, Func::Asin, Func::Acos, Func::Atan];
    for (n, f) in names.iter().zip(funcs.iter()) {
        let r = to_postfix(&vec![*n, "1"]).unwrap();
        assert_eq!(r, vec![num("1"), Token::Function(*f)]);
    }
}

#[test]
fn postfix_rejects_an_invalid_unit() {
    assert_eq!(to_postfix(&vec!["abc"]), Err(CalcError::InvalidNumber));
    assert_eq!(to_postfix(&vec!["1", "+", "SIN"]), Err(CalcError::InvalidNumber));
    assert_eq!(to_postfix(&vec![]), Ok(vec![]));
}
