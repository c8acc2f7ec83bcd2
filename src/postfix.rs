//! Classification of units and conversion from infix to postfix order with
//! the shunting-yard algorithm.

use vstd::prelude::*;
use crate::lexer::{float_literal, is_float_literal, texts};
use crate::token::{function_name, precedence, symbols, BinOp, Func, Symbol, Token};

verus! {

/// The function that a unit names, if any.
pub open spec fn function_of(u: Seq<char>) -> Option<Func> {
    if u == function_name(Func::Sin) {
        Some(Func::Sin)
    } else if u == function_name(Func::Cos) {
        Some(Func::Cos)
    } else if u == function_name(Func::Tan) {
        Some(Func::Tan)
    } else if u == function_name(Func::Ln) {
        Some(Func::Ln)
    } else if u == function_name(Func::Log) {
        Some(Func::Log)
    } else if u == function_name(Func::Asin) {
        Some(Func::Asin)
    } else if u == function_name(Func::Acos) {
        Some(Func::Acos)
    } else if u == function_name(Func::Atan) {
        Some(Func::Atan)
    } else {
        None
    }
}

/// Each function name names its function.
pub proof fn lemma_function_of_name(f: Func)
    ensures
        function_of(function_name(f)) == Some(f),
{
    let n = function_name(f);
    assert(function_name(Func::Sin)[0] == 's' && function_name(Func::Cos)[0] == 'c');
    assert(function_name(Func::Tan)[0] == 't' && function_name(Func::Ln)[1] == 'n');
    assert(function_name(Func::Log)[1] == 'o' && function_name(Func::Asin)[1] == 's');
    assert(function_name(Func::Acos)[1] == 'c' && function_name(Func::Atan)[1] == 't');
    assert(n =~= function_name(f));
}

/// The operator that a unit is, if any.
pub open spec fn operator_of(u: Seq<char>) -> Option<BinOp> {
    if u == seq!['+'] {
        Some(BinOp::Add)
    } else if u == seq!['-'] {
        Some(BinOp::Sub)
    } else if u == seq!['*'] {
        Some(BinOp::Mul)
    } else if u == seq!['/'] {
        Some(BinOp::Div)
    } else {
        None
    }
}

/// What a unit stands for: a function name, an operator, or else a number
/// literal; `None` for a unit that is none of these.
pub open spec fn classify(u: Seq<char>) -> Option<Symbol> {
    match function_of(u) {
        Some(f) => Some(Symbol::Function(f)),
        None => match operator_of(u) {
            Some(op) => Some(Symbol::Operator(op)),
            None => if is_float_literal(u) {
                Some(Symbol::Number(u))
            } else {
                None
            },
        },
    }
}

/// Whether every unit stands for a symbol.
pub open spec fn all_classified(units: Seq<Seq<char>>) -> bool {
    forall|i: int| 0 <= i < units.len() ==> (#[trigger] classify(units[i])) is Some
}

/// The symbols of units that all classify.
pub open spec fn classified(units: Seq<Seq<char>>) -> Seq<Symbol> {
    units.map_values(
        |u: Seq<char>|
            match classify(u) {
                Some(s) => s,
                None => Symbol::Number(u),
            },
    )
}

/// Whether a pending entry leaves the working stack before `op` is pushed:
/// an operator of at least `op`'s precedence, or any function.
pub open spec fn yields_to(top: Symbol, op: BinOp) -> bool {
    match top {
        Symbol::Operator(t) => precedence(t) >= precedence(op),
        Symbol::Function(_) => true,
        Symbol::Number(_) => false,
    }
}

/// The output so far and the working stack of pending operators and functions.
pub struct Shunt {
    pub output: Seq<Symbol>,
    pub pending: Seq<Symbol>,
}

/// Pops the entries that yield to `op`, from the top of the working stack to
/// the output.
pub open spec fn pop_yielding(st: Shunt, op: BinOp) -> Shunt
    decreases st.pending.len(),
{
    if st.pending.len() > 0 && yields_to(st.pending.last(), op) {
        pop_yielding(
            Shunt { output: st.output.push(st.pending.last()), pending: st.pending.drop_last() },
            op,
        )
    } else {
        st
    }
}

/// One symbol of the scan: a number goes to the output, a function onto the
/// working stack, and an operator onto it once what yields to it has left.
pub open spec fn shunt_step(st: Shunt, s: Symbol) -> Shunt {
    match s {
        Symbol::Number(_) => Shunt { output: st.output.push(s), pending: st.pending },
        Symbol::Function(_) => Shunt { output: st.output, pending: st.pending.push(s) },
        Symbol::Operator(op) => {
            let p = pop_yielding(st, op);
            Shunt { output: p.output, pending: p.pending.push(s) }
        },
    }
}

/// The state after scanning all of `syms` from the left.
pub open spec fn shunt(syms: Seq<Symbol>) -> Shunt
    decreases syms.len(),
{
    if syms.len() == 0 {
        Shunt { output: seq![], pending: seq![] }
    } else {
        shunt_step(shunt(syms.drop_last()), syms.last())
    }
}

/// The entries of a stack from its top down.
pub open spec fn top_down(s: Seq<Symbol>) -> Seq<Symbol>
    decreases s.len(),
{
    if s.len() == 0 {
        seq![]
    } else {
        seq![s.last()] + top_down(s.drop_last())
    }
}

/// The postfix order of a sequence of symbols: the output of the scan, then
/// what is still pending, popped in stack order.
pub open spec fn postfix(syms: Seq<Symbol>) -> Seq<Symbol> {
    shunt(syms).output + top_down(shunt(syms).pending)
}

/// Whether two texts are equal.
fn same_text(a: &str, b: &str) -> (r: bool)
    ensures
        r == (a@ == b@),
{
    let n = a.unicode_len();
    if n != b.unicode_len() {
        return false;
    }
    let mut i: usize = 0;
    while i < n
        invariant
            i <= n == a@.len() == b@.len(),
            forall|j: int| 0 <= j < i ==> a@[j] == b@[j],
        decreases n - i,
    {
        if a.get_char(i) != b.get_char(i) {
            return false;
        }
        i = i + 1;
    }
    assert(a@ =~= b@);
    true
}

fn function_named(u: &str) -> (r: Option<Func>)
    ensures
        r == function_of(u@),
{
    proof {
        reveal_strlit("sin");
        reveal_strlit("cos");
        reveal_strlit("tan");
        reveal_strlit("ln");
        reveal_strlit("log");
        reveal_strlit("asin");
        reveal_strlit("acos");
        reveal_strlit("atan");
        assert("sin"@ =~= seq!['s', 'i', 'n']);
        assert("cos"@ =~= seq!['c', 'o', 's']);
        assert("tan"@ =~= seq!['t', 'a', 'n']);
        assert("ln"@ =~= seq!['l', 'n']);
        assert("log"@ =~= seq!['l', 'o', 'g']);
        assert("asin"@ =~= seq!['a', 's', 'i', 'n']);
        assert("acos"@ =~= seq!['a', 'c', 'o', 's']);
        assert("atan"@ =~= seq!['a', 't', 'a', 'n']);
    }
    if same_text(u, "sin") {
        Some(Func::Sin)
    } else if same_text(u, "cos") {
        Some(Func::Cos)
    } else if same_text(u, "tan") {
        Some(Func::Tan)
    } else if same_text(u, "ln") {
        Some(Func::Ln)
    } else if same_text(u, "log") {
        Some(Func::Log)
    } else if same_text(u, "asin") {
        Some(Func::Asin)
    } else if same_text(u, "acos") {
        Some(Func::Acos)
    } else if same_text(u, "atan") {
        Some(Func::Atan)
    } else {
        None
    }
}

fn operator_named(u: &str) -> (r: Option<BinOp>)
    ensures
        r == operator_of(u@),
{
    proof {
        reveal_strlit("+");
        reveal_strlit("-");
        reveal_strlit("*");
        reveal_strlit("/");
        assert("+"@ =~= seq!['+']);
        assert("-"@ =~= seq!['-']);
        assert("*"@ =~= seq!['*']);
        assert("/"@ =~= seq!['/']);
    }
    if same_text(u, "+") {
        Some(BinOp::Add)
    } else if same_text(u, "-") {
        Some(BinOp::Sub)
    } else if same_text(u, "*") {
        Some(BinOp::Mul)
    } else if same_text(u, "/") {
        Some(BinOp::Div)
    } else {
        None
    }
}

/// The token that a unit stands for, if any.
pub fn classify_unit(u: &str) -> (r: Option<Token>)
    ensures
        match r {
            Some(t) => classify(u@) == Some(t@),
            None => classify(u@) is None,
        },
{
    if let Some(f) = function_named(u) {
        Some(Token::Function(f))
    } else if let Some(op) = operator_named(u) {
        Some(Token::Operator(op))
    } else if float_literal(u) {
        Some(Token::Number(String::from_str(u)))
    } else {
        None
    }
}

fn yields(top: &Token, op: BinOp) -> (r: bool)
    ensures
        r == yields_to(top@, op),
{
    match top {
        Token::Operator(t) => t.precedence() >= op.precedence(),
        Token::Function(_) => true,
        Token::Number(_) => false,
    }
}

proof fn lemma_symbols_push(ts: Seq<Token>, t: Token)
    ensures
        symbols(ts.push(t)) == symbols(ts).push(t@),
{
    assert(symbols(ts.push(t)) =~= symbols(ts).push(t@));
}

proof fn lemma_symbols_drop_last(ts: Seq<Token>)
    requires
        ts.len() > 0,
    ensures
        symbols(ts.drop_last()) == symbols(ts).drop_last(),
        symbols(ts).last() == ts.last()@,
{
    assert(symbols(ts.drop_last()) =~= symbols(ts).drop_last());
}

/// Moves pending entries that yield to `op` onto the output.
fn pop_yielding_exec(output: &mut Vec<Token>, pending: &mut Vec<Token>, op: BinOp)
    ensures
        (Shunt { output: symbols(final(output)@), pending: symbols(final(pending)@) })
            == pop_yielding(Shunt { output: symbols(old(output)@), pending: symbols(old(pending)@) }, op),
{
    let ghost target = pop_yielding(
        Shunt { output: symbols(output@), pending: symbols(pending@) },
        op,
    );
    while pending.len() > 0 && yields(&pending[pending.len() - 1], op)
        invariant
            pop_yielding(Shunt { output: symbols(output@), pending: symbols(pending@) }, op)
                == target,
        decreases pending.len(),
    {
        proof {
            lemma_symbols_drop_last(pending@);
        }
        let t = pending.pop().unwrap();
        proof {
            lemma_symbols_push(output@, t);
        }
        output.push(t);
    }
}

/// Converts units to postfix order; fails with `InvalidNumber` on the first
/// unit that is neither a function name, an operator nor a number literal.
pub fn to_postfix(units: &Vec<&str>) -> (r: Result<Vec<Token>, crate::token::CalcError>)
    ensures
        match r {
            Ok(ts) => all_classified(texts(units@)) && symbols(ts@) == postfix(
                classified(texts(units@)),
            ),
            Err(e) => e == crate::token::CalcError::InvalidNumber && !all_classified(
                texts(units@),
            ),
        },
{
    let ghost us = texts(units@);
    let mut output: Vec<Token> = Vec::new();
    let mut pending: Vec<Token> = Vec::new();
    let n = units.len();
    let mut i: usize = 0;
    assert(classified(us).take(0) =~= Seq::<Symbol>::empty());
    assert(symbols(output@) =~= Seq::<Symbol>::empty());
    assert(symbols(pending@) =~= Seq::<Symbol>::empty());
    while i < n
        invariant
            n == units@.len() == us.len(),
            us == texts(units@),
            i <= n,
            forall|j: int| 0 <= j < i ==> (#[trigger] classify(us[j])) is Some,
            shunt(classified(us).take(i as int)) == (Shunt {
                output: symbols(output@),
                pending: symbols(pending@),
            }),
        decreases n - i,
    {
        let u = units[i];
        assert(us[i as int] == u@);
        match classify_unit(u) {
            None => {
                return Err(crate::token::CalcError::InvalidNumber);
            },
            Some(t) => {
                let ghost before = Shunt { output: symbols(output@), pending: symbols(pending@) };
                proof {
                    let c = classified(us);
                    assert(c.take(i + 1).drop_last() =~= c.take(i as int));
                    assert(c.take(i + 1).last() == t@);
                }
                match t {
                    Token::Number(_) => {
                        proof {
                            lemma_symbols_push(output@, t);
                        }
                        output.push(t);
                    },
                    Token::Function(_) => {
                        proof {
                            lemma_symbols_push(pending@, t);
                        }
                        pending.push(t);
                    },
                    Token::Operator(op) => {
                        pop_yielding_exec(&mut output, &mut pending, op);
                        proof {
                            lemma_symbols_push(pending@, t);
                        }
                        pending.push(t);
                    },
                }
                assert(shunt_step(before, t@) == (Shunt {
                    output: symbols(output@),
                    pending: symbols(pending@),
                }));
            },
        }
        i = i + 1;
    }
    assert(classified(us).take(n as int) =~= classified(us));
    let ghost result = postfix(classified(us));
    while pending.len() > 0
        invariant
            symbols(output@) + top_down(symbols(pending@)) == result,
        decreases pending.len(),
    {
        proof {
            lemma_symbols_drop_last(pending@);
            assert(symbols(output@) + top_down(symbols(pending@)) =~= symbols(output@).push(
                symbols(pending@).last(),
            ) + top_down(symbols(pending@).drop_last()));
        }
        let t = pending.pop().unwrap();
        proof {
            lemma_symbols_push(output@, t);
        }
        output.push(t);
    }
    assert(symbols(output@) + top_down(symbols(pending@)) =~= symbols(output@));
    Ok(output)
}

} // verus!
