use calculator::{assemble, BinOp, CalcError, Calculator, Expr, Func, Token};

fn n(s: &str) -> Expr {
    Expr::Number(s.to_string())
}

fn bin(op: BinOp, a: Expr, b: Expr) -> Expr {
    Expr::Binary(op, Box::new(a), Box::new(b))
}

fn single(calc: &Calculator, line: &str) -> Expr {
    let mut a = calc.prepare(line).unwrap();
    assert!(a.complete);
    assert_eq!(a.operands.len(), 1);
    a.operands.pop().unwrap()
}

#[test]
fn empty_and_invalid_lines_fail() {
    let calc = Calculator::new(true);
    assert_eq!(calc.parse(""), Err(CalcError::EmptyExpression));
    assert_eq!(calc.parse("  ()"), Err(CalcError::EmptyExpression));
    assert_eq!(calc.parse("abc"), Err(CalcError::InvalidNumber));
    assert!(calc.prepare("abc").is_err());
}

#[test]
fn two_operand_lines() {
    let calc = Calculator::new(true);
    assert_eq!(single(&calc, "5+3"), bin(BinOp::Add, n("5"), n("3")));
    assert_eq!(single(&calc, "10-4"), bin(BinOp::Sub, n("10"), n("4")));
    assert_eq!(single(&calc, "8*8"), bin(BinOp::Mul, n("8"), n("8")));
    assert_eq!(single(&calc, "15/3"), bin(BinOp::Div, n("15"), n("3")));
    assert_eq!(single(&calc, "5/0"), bin(BinOp::Div, n("5"), n("0")));
}

#[test]
fn precedence_shapes_the_tree() {
    let calc = Calculator::new(true);
    assert_eq!(single(&calc, "2+3*4"), bin(BinOp::Add, n("2"), bin(BinOp::Mul, n("3"), n("4"))));
    assert_eq!(single(&calc, "32-6*6"), bin(BinOp::Sub, n("32"), bin(BinOp::Mul, n("6"), n("6"))));
    assert_eq!(
        single(&calc, "2*3+4*5"),
        bin(BinOp::Add, bin(BinOp::Mul, n("2"), n("3")), bin(BinOp::Mul, n("4"), n("5")))
    );
}

#[test]
fn equal_precedence_associates_left() {
    let calc = Calculator::new(true);
    assert_eq!(single(&calc, "24/2/3"), bin(BinOp::Div, bin(BinOp::Div, n("24"), n("2")), n("3")));
    assert_eq!(single(&calc, "10-2-3"), bin(BinOp::Sub, bin(BinOp::Sub, n("10"), n("2")), n("3")));
    assert_eq!(single(&calc, "10/2*5"), bin(BinOp::Mul, bin(BinOp::Div, n("10"), n("2")), n("5")));
}

#[test]
fn functions_bind_to_their_operand() {
    let calc = Calculator::new(false);
    assert_eq!(single(&calc, "sin90"), Expr::Apply(Func::Sin, Box::new(n("90"))));
    assert_eq!(
        single(&calc, "sin90-1"),
        bin(BinOp::Sub, Expr::Apply(Func::Sin, Box::new(n("90"))), n("1"))
    );
    assert_eq!(single(&calc, "log10"), Expr::Apply(Func::Log, Box::new(n("10"))));
    assert_eq!(
        single(&calc, "cos0+1"),
        bin(BinOp::Add, Expr::Apply(Func::Cos, Box::new(n("0"))), n("1"))
    );
    assert_eq!(
        single(&calc, "tan45*2"),
        bin(BinOp::Mul, Expr::Apply(Func::Tan, Box::new(n("45"))), n("2"))
    );
    assert_eq!(single(&calc, "ln0"), Expr::Apply(Func::Ln, Box::new(n("0"))));
    assert_eq!(single(&calc, "asin2"), Expr::Apply(Func::Asin, Box::new(n("2"))));
}

#[test]
fn missing_operands_stop_the_assembly() {
    let calc = Calculator::new(true);
    let a = calc.prepare("1/0+").unwrap();
    assert!(!a.complete);
    assert_eq!(a.operands, vec![bin(BinOp::Div, n("1"), n("0"))]);
    let a = calc.prepare("sin").unwrap();
    assert!(!a.complete);
    assert!(a.operands.is_empty());
    let a = calc.prepare("acos-2").unwrap();
    assert!(!a.complete);
    assert!(a.operands.is_empty());
}

#[test]
fn extra_operands_are_kept() {
    let calc = Calculator::new(true);
    let a = calc.prepare("inf5").unwrap();
    assert!(a.complete);
    assert_eq!(a.operands, vec![n("inf"), n("5")]);
}

#[test]
fn assemble_of_empty_postfix() {
    let a = assemble(vec![]);
    assert!(a.complete);
    assert!(a.operands.is_empty());
    let a = assemble(vec![Token::Operator(BinOp::Add)]);
    assert!(!a.complete);
}

#[test]
fn decimal_operands() {
    let calc = Calculator::new(true);
    assert_eq!(single(&calc, "2.5*4"), bin(BinOp::Mul, n("2.5"), n("4")));
    assert_eq!(single(&calc, ".5+1."), bin(BinOp::Add, n(".5"), n("1.")));
    assert_eq!(calc.parse("1.2.3"), Err(CalcError::InvalidNumber));
}

#[test]
fn mixed_chain_groups_products_first() {
    let calc = Calculator::new(true);
    // 1 + 2 * 3 - 8 / 4 / 2 + 5
    let expected = bin(
        BinOp::Add,
        bin(
            BinOp::Sub,
            bin(BinOp::Add, n("1"), bin(BinOp::Mul, n("2"), n("3"))),
            bin(BinOp::Div, bin(BinOp::Div, n("8"), n("4")), n("2")),
        ),
        n("5"),
    );
    assert_eq!(single(&calc, "1+2*3-8/4/2+5"), expected);
}

#[test]
fn long_chain_of_one_precedence_nests_left() {
    let calc = Calculator::new(true);
    let expected = bin(
        BinOp::Sub,
        bin(BinOp::Add, bin(BinOp::Sub, n("9"), n("1")), n("2")),
        n("3"),
    );
    assert_eq!(single(&calc, "9-1+2-3"), expected);
    assert_eq!(single(&calc, "2*3*4"), bin(BinOp::Mul, bin(BinOp::Mul, n("2"), n("3")), n("4")));
    assert_eq!(single(&calc, "1+2+3"), bin(BinOp::Add, bin(BinOp::Add, n("1"), n("2")), n("3")));
}
