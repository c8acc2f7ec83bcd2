//! Operand trees: the numeric stack of a postfix evaluation, kept symbolically.
//!
//! Assembling a postfix sequence pushes a leaf for each number, and replaces
//! the top one or two operands by a node for each function or operator. The
//! caller evaluates the resulting trees numerically.

use vstd::prelude::*;
use crate::token::{symbols, BinOp, Func, Symbol, Token};

verus! {

/// An operand: a number literal, or an operator or function applied to operands.
#[derive(Debug, PartialEq)]
pub enum Expr {
    Number(String),
    Binary(BinOp, Box<Expr>, Box<Expr>),
    Apply(Func, Box<Expr>),
}

/// The mathematical view of an operand.
pub enum Tree {
    Number(Seq<char>),
    Binary(BinOp, Box<Tree>, Box<Tree>),
    Apply(Func, Box<Tree>),
}

/// The tree that an operand stands for.
pub open spec fn tree_of(e: Expr) -> Tree
    decreases e,
{
    match e {
        Expr::Number(s) => Tree::Number(s@),
        Expr::Binary(op, a, b) => Tree::Binary(op, Box::new(tree_of(*a)), Box::new(tree_of(*b))),
        Expr::Apply(f, a) => Tree::Apply(f, Box::new(tree_of(*a))),
    }
}

impl View for Expr {
    type V = Tree;

    open spec fn view(&self) -> Tree {
        tree_of(*self)
    }
}

/// The trees of a stack of operands.
pub open spec fn trees(es: Seq<Expr>) -> Seq<Tree> {
    es.map_values(|e: Expr| e@)
}

/// The symbols of an operand in postfix order.
pub open spec fn postorder(t: Tree) -> Seq<Symbol>
    decreases t,
{
    match t {
        Tree::Number(s) => seq![Symbol::Number(s)],
        Tree::Binary(op, a, b) => postorder(*a) + postorder(*b) + seq![Symbol::Operator(op)],
        Tree::Apply(f, a) => postorder(*a) + seq![Symbol::Function(f)],
    }
}

/// The symbols of a stack of operands, bottom first, in postfix order.
pub open spec fn flatten(f: Seq<Tree>) -> Seq<Symbol>
    decreases f.len(),
{
    if f.len() == 0 {
        seq![]
    } else {
        flatten(f.drop_last()) + postorder(f.last())
    }
}

/// The operand stack after a postfix scan, and whether every operator and
/// function found its operands (`false`: the scan stopped at the first that
/// did not).
pub struct Assembled {
    pub operands: Seq<Tree>,
    pub complete: bool,
}

/// One symbol applied to the operand stack; `None` if too few operands.
pub open spec fn apply_symbol(st: Seq<Tree>, s: Symbol) -> Option<Seq<Tree>> {
    match s {
        Symbol::Number(x) => Some(st.push(Tree::Number(x))),
        Symbol::Operator(op) => if st.len() >= 2 {
            Some(
                st.drop_last().drop_last().push(
                    Tree::Binary(op, Box::new(st[st.len() - 2]), Box::new(st.last())),
                ),
            )
        } else {
            None
        },
        Symbol::Function(f) => if st.len() >= 1 {
            Some(st.drop_last().push(Tree::Apply(f, Box::new(st.last()))))
        } else {
            None
        },
    }
}

/// Scans `syms` from the stack `start`.
pub open spec fn run(start: Seq<Tree>, syms: Seq<Symbol>) -> Assembled
    decreases syms.len(),
{
    if syms.len() == 0 {
        Assembled { operands: start, complete: true }
    } else {
        let prev = run(start, syms.drop_last());
        if !prev.complete {
            prev
        } else {
            match apply_symbol(prev.operands, syms.last()) {
                Some(st) => Assembled { operands: st, complete: true },
                None => Assembled { operands: prev.operands, complete: false },
            }
        }
    }
}

/// The operand stack of a postfix scan that starts from an empty stack.
pub open spec fn assembled(syms: Seq<Symbol>) -> Assembled {
    run(seq![], syms)
}

/// The operand stack after a postfix scan (see `Assembled`).
pub struct Assembly {
    pub operands: Vec<Expr>,
    pub complete: bool,
}

impl View for Assembly {
    type V = Assembled;

    open spec fn view(&self) -> Assembled {
        Assembled { operands: trees(self.operands@), complete: self.complete }
    }
}

proof fn lemma_run_stops(start: Seq<Tree>, syms: Seq<Symbol>, k: int)
    requires
        0 <= k <= syms.len(),
        !run(start, syms.take(k)).complete,
    ensures
        run(start, syms) == run(start, syms.take(k)),
    decreases syms.len(),
{
    if syms.len() > k {
        assert(syms.drop_last().take(k) =~= syms.take(k));
        lemma_run_stops(start, syms.drop_last(), k);
    } else {
        assert(syms.take(k) =~= syms);
    }
}

proof fn lemma_trees_push(es: Seq<Expr>, e: Expr)
    ensures
        trees(es.push(e)) == trees(es).push(e@),
{
    assert(trees(es.push(e)) =~= trees(es).push(e@));
}

proof fn lemma_trees_drop_last(es: Seq<Expr>)
    requires
        es.len() > 0,
    ensures
        trees(es.drop_last()) == trees(es).drop_last(),
        trees(es).last() == es.last()@,
{
    assert(trees(es.drop_last()) =~= trees(es).drop_last());
}

/// Assembles a postfix sequence into operand trees.
pub fn assemble(postfix: Vec<Token>) -> (r: Assembly)
    ensures
        r@ == assembled(symbols(postfix@)),
{
    let ghost all = symbols(postfix@);
    let mut rest = postfix;
    let mut operands: Vec<Expr> = Vec::new();
    let ghost mut k: int = 0;
    assert(all.take(0) =~= Seq::<Symbol>::empty());
    assert(trees(operands@) =~= Seq::<Tree>::empty());
    while rest.len() > 0
        invariant
            all == symbols(postfix@),
            0 <= k <= all.len(),
            symbols(rest@) == all.skip(k),
            assembled(all.take(k)) == (Assembled { operands: trees(operands@), complete: true }),
        decreases rest.len(),
    {
        let ghost before = rest@;
        let t = rest.remove(0);
        proof {
            assert(symbols(before).len() == before.len());
            assert(all.skip(k)[0] == all[k]);
            assert(symbols(before)[0] == before[0]@);
            assert(all[k] == t@);
            assert(rest@ =~= before.skip(1));
            assert(symbols(rest@) =~= symbols(before).skip(1));
            assert(symbols(rest@) =~= all.skip(k + 1));
            assert(all.take(k + 1).drop_last() =~= all.take(k));
            assert(all.take(k + 1).last() == t@);
        }
        match t {
            Token::Number(s) => {
                let e = Expr::Number(s);
                proof {
                    lemma_trees_push(operands@, e);
                }
                operands.push(e);
            },
            Token::Operator(op) => {
                if operands.len() < 2 {
                    proof {
                        lemma_run_stops(seq![], all, k + 1);
                    }
                    return Assembly { operands, complete: false };
                }
                proof {
                    lemma_trees_drop_last(operands@);
                    lemma_trees_drop_last(operands@.drop_last());
                }
                let b = operands.pop().unwrap();
                let a = operands.pop().unwrap();
                let e = Expr::Binary(op, Box::new(a), Box::new(b));
                proof {
                    lemma_trees_push(operands@, e);
                }
                operands.push(e);
            },
            Token::Function(f) => {
                if operands.len() < 1 {
                    proof {
                        lemma_run_stops(seq![], all, k + 1);
                    }
                    return Assembly { operands, complete: false };
                }
                proof {
                    lemma_trees_drop_last(operands@);
                }
                let a = operands.pop().unwrap();
                let e = Expr::Apply(f, Box::new(a));
                proof {
                    lemma_trees_push(operands@, e);
                }
                operands.push(e);
            },
        }
        proof {
            k = k + 1;
        }
    }
    assert(all.take(k) =~= all);
    Assembly { operands, complete: true }
}

proof fn lemma_run_concat(start: Seq<Tree>, x: Seq<Symbol>, y: Seq<Symbol>)
    ensures
        run(start, x + y) == if run(start, x).complete {
            run(run(start, x).operands, y)
        } else {
            run(start, x)
        },
    decreases y.len(),
{
    if y.len() == 0 {
        assert(x + y =~= x);
    } else {
        assert((x + y).drop_last() =~= x + y.drop_last());
        assert((x + y).last() == y.last());
        lemma_run_concat(start, x, y.drop_last());
    }
}

proof fn lemma_run_single(start: Seq<Tree>, s: Symbol)
    ensures
        run(start, seq![s]) == match apply_symbol(start, s) {
            Some(st) => Assembled { operands: st, complete: true },
            None => Assembled { operands: start, complete: false },
        },
{
    assert(seq![s].drop_last() =~= Seq::<Symbol>::empty());
    assert(seq![s].last() == s);
    assert(run(start, Seq::<Symbol>::empty()).complete);
}

proof fn lemma_run_tree(start: Seq<Tree>, t: Tree)
    ensures
        run(start, postorder(t)) == (Assembled { operands: start.push(t), complete: true }),
    decreases t,
{
    match t {
        Tree::Number(s) => {
            lemma_run_single(start, Symbol::Number(s));
        },
        Tree::Binary(op, a, b) => {
            let pa = postorder(*a);
            let pb = postorder(*b);
            lemma_run_tree(start, *a);
            lemma_run_tree(start.push(*a), *b);
            lemma_run_concat(start, pa, pb);
            lemma_run_concat(start, pa + pb, seq![Symbol::Operator(op)]);
            let st = start.push(*a).push(*b);
            lemma_run_single(st, Symbol::Operator(op));
            assert(st.drop_last().drop_last() =~= start);
        },
        Tree::Apply(f, a) => {
            lemma_run_tree(start, *a);
            lemma_run_concat(start, postorder(*a), seq![Symbol::Function(f)]);
            lemma_run_single(start.push(*a), Symbol::Function(f));
            assert(start.push(*a).drop_last() =~= start);
        },
    }
}

/// Any stack of operands, written out in postfix order, assembles back into
/// exactly that stack, with every operator and function finding its operands.
pub proof fn lemma_flatten_assembles(f: Seq<Tree>)
    ensures
        assembled(flatten(f)) == (Assembled { operands: f, complete: true }),
    decreases f.len(),
{
    if f.len() == 0 {
        assert(f =~= Seq::<Tree>::empty());
        assert(flatten(f) =~= Seq::<Symbol>::empty());
    } else {
        lemma_flatten_assembles(f.drop_last());
        lemma_run_concat(seq![], flatten(f.drop_last()), postorder(f.last()));
        lemma_run_tree(f.drop_last(), f.last());
        assert(f.drop_last().push(f.last()) =~= f);
    }
}

/// When every operator and function of a postfix sequence finds its operands,
/// the operand trees, written out in postfix order, give back the sequence.
pub proof fn lemma_assembled_flattens(syms: Seq<Symbol>)
    ensures
        assembled(syms).complete ==> flatten(assembled(syms).operands) == syms,
    decreases syms.len(),
{
    if syms.len() > 0 {
        let prev = assembled(syms.drop_last());
        lemma_assembled_flattens(syms.drop_last());
        if prev.complete && assembled(syms).complete {
            let ops = prev.operands;
            let last = syms.last();
            assert(syms.drop_last().push(last) =~= syms);
            match last {
                Symbol::Number(x) => {
                    assert(ops.push(Tree::Number(x)).drop_last() =~= ops);
                },
                Symbol::Operator(op) => {
                    let r = ops.drop_last().drop_last();
                    let a = ops[ops.len() - 2];
                    let b = ops.last();
                    assert(ops.drop_last().drop_last().push(a) =~= ops.drop_last());
                    assert(r.push(Tree::Binary(op, Box::new(a), Box::new(b))).drop_last() =~= r);
                    assert(ops.drop_last().last() == a);
                    assert(flatten(ops.drop_last()) == flatten(r) + postorder(a));
                    assert(flatten(ops) == flatten(r) + postorder(a) + postorder(b));
                },
                Symbol::Function(f) => {
                    let r = ops.drop_last();
                    assert(r.push(Tree::Apply(f, Box::new(ops.last()))).drop_last() =~= r);
                },
            }
        }
    }
}

} // verus!
