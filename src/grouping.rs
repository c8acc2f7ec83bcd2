//! How a line of unsigned decimal literals, operators and functions groups
//! into operands.

use vstd::prelude::*;
use crate::calculator::parsed;
use crate::expr::{assembled, flatten, lemma_flatten_assembles, postorder, Assembled, Tree};
use crate::format::{
    formatted, is_letter, is_numeral, is_operator, is_white_space, lemma_scan_numerals,
    lemma_scan_operator, lemma_scan_word_numerals, scan, spaced, trim, ScanState,
};
use crate::lexer::{
    all_digits, is_decimal, is_digits, lemma_words_append, lemma_words_push_space, unsigned,
    words,
};
use crate::postfix::{
    all_classified, classified, classify, function_of, lemma_function_of_name, operator_of,
    pop_yielding, postfix, shunt, shunt_step, top_down, Shunt,
};
use crate::token::{function_name, operator_char, precedence, BinOp, Func, Symbol};

verus! {

/// An unsigned decimal literal (`Digit+ | Digit+ '.' Digit* | Digit* '.' Digit+`)
/// is a number unit made of numeral characters only.
proof fn lemma_decimal_unit(a: Seq<char>)
    requires
        is_decimal(a),
    ensures
        classify(a) == Some(Symbol::Number(a)),
        forall|i: int| 0 <= i < a.len() ==> is_numeral(#[trigger] a[i]),
        forall|i: int| 0 <= i < a.len() ==> !is_white_space(#[trigger] a[i]),
{
    if !is_digits(a) {
        let k = choose|k: int|
            0 <= k < a.len() && #[trigger] a[k] == '.' && a.len() >= 2 && all_digits(a.take(k))
                && all_digits(a.skip(k + 1));
        assert forall|i: int| 0 <= i < a.len() implies is_numeral(#[trigger] a[i]) by {
            if i < k {
                assert(a.take(k)[i] == a[i]);
            } else if i > k {
                assert(a.skip(k + 1)[i - k - 1] == a[i]);
            }
        }
    }
    assert(a.len() > 0);
    assert(is_numeral(a[0]));
    assert(unsigned(a) == a);
    assert(function_of(a) is None) by {
        assert(a[0] != 's' && a[0] != 'c' && a[0] != 't' && a[0] != 'l' && a[0] != 'a');
        if a.len() == 2 {
            assert(a != seq!['l', 'n']) by {
                assert(seq!['l', 'n'][0] == 'l');
            }
        }
        if a.len() == 3 {
            assert(seq!['s', 'i', 'n'][0] == 's');
            assert(seq!['c', 'o', 's'][0] == 'c');
            assert(seq!['t', 'a', 'n'][0] == 't');
            assert(seq!['l', 'o', 'g'][0] == 'l');
        }
        if a.len() == 4 {
            assert(seq!['a', 's', 'i', 'n'][0] == 'a');
            assert(seq!['a', 'c', 'o', 's'][0] == 'a');
            assert(seq!['a', 't', 'a', 'n'][0] == 'a');
        }
    }
    assert(operator_of(a) is None) by {
        if a.len() == 1 {
            assert(seq!['+'][0] == '+');
            assert(seq!['-'][0] == '-');
            assert(seq!['*'][0] == '*');
            assert(seq!['/'][0] == '/');
        }
    }
}

proof fn lemma_operator_unit(op: BinOp)
    ensures
        classify(seq![operator_char(op)]) == Some(Symbol::Operator(op)),
        is_operator(operator_char(op)),
        !is_white_space(operator_char(op)),
{
    let u = seq![operator_char(op)];
    assert(function_of(u) is None);
    assert(seq!['+'][0] == '+' && seq!['-'][0] == '-' && seq!['*'][0] == '*' && seq!['/'][0]
        == '/');
    match op {
        BinOp::Add => assert(u =~= seq!['+']),
        BinOp::Sub => assert(u =~= seq!['-']),
        BinOp::Mul => assert(u =~= seq!['*']),
        BinOp::Div => assert(u =~= seq!['/']),
    }
    assert(operator_of(u) == Some(op));
}

/// Scanning `OP b` after an output that ends in a numeral.
proof fn lemma_scan_operand(x: Seq<char>, c: char, b: Seq<char>)
    requires
        is_decimal(b),
        is_operator(c),
        scan(x).word.len() == 0,
        scan(x).after_numeral,
        scan(x).out.len() > 0,
        is_numeral(scan(x).out.last()),
    ensures
        scan(x + seq![c] + b) == (ScanState {
            out: scan(x).out + seq![' ', c, ' '] + b,
            after_numeral: true,
            word: seq![],
        }),
{
    lemma_decimal_unit(b);
    lemma_scan_operator(x, c);
    lemma_scan_numerals(x.push(c), b);
    assert(x.push(c) + b =~= x + seq![c] + b);
}

proof fn lemma_scan_first(a: Seq<char>)
    requires
        is_decimal(a),
    ensures
        scan(a) == (ScanState { out: a, after_numeral: true, word: seq![] }),
{
    lemma_decimal_unit(a);
    let e = Seq::<char>::empty();
    lemma_scan_numerals(e, a);
    assert(e + a =~= a);
    assert(scan(e).out + a =~= a);
}

/// The words of `o OP b`, where `o` ends in a non-whitespace character.
proof fn lemma_words_operand(o: Seq<char>, c: char, b: Seq<char>)
    requires
        is_decimal(b),
        is_operator(c),
        o.len() > 0,
        !is_white_space(o.last()),
    ensures
        words(o + seq![' ', c, ' '] + b) == words(o).push(seq![c]).push(b),
{
    lemma_decimal_unit(b);
    let o1 = o.push(' ');
    lemma_words_push_space(o);
    lemma_words_append(o1, seq![c]);
    let o2 = o1 + seq![c];
    lemma_words_push_space(o2);
    let o3 = o2.push(' ');
    lemma_words_append(o3, b);
    assert(o3 + b =~= o + seq![' ', c, ' '] + b);
}

proof fn lemma_trim_plain(s: Seq<char>)
    requires
        s.len() > 0,
        !is_white_space(s[0]),
        !is_white_space(s.last()),
    ensures
        trim(s) == s,
{
}

proof fn lemma_top_down_one(o: Symbol)
    ensures
        top_down(seq![o]) == seq![o],
{
    assert(seq![o].drop_last() =~= Seq::<Symbol>::empty());
    assert(top_down(Seq::<Symbol>::empty()) == Seq::<Symbol>::empty());
    assert(seq![seq![o].last()] + Seq::<Symbol>::empty() =~= seq![o]);
}

proof fn lemma_flatten_one(t: Tree)
    ensures
        flatten(seq![t]) == postorder(t),
{
    assert(seq![t].drop_last() =~= Seq::<Tree>::empty());
    assert(flatten(Seq::<Tree>::empty()) == Seq::<Symbol>::empty());
    assert(Seq::<Symbol>::empty() + postorder(t) =~= postorder(t));
}

proof fn lemma_shunt_push(s: Seq<Symbol>, t: Symbol)
    ensures
        shunt(s.push(t)) == shunt_step(shunt(s), t),
{
    assert(s.push(t).drop_last() =~= s);
}

/// A line `a OP b` of two unsigned decimal literals parses to the single operand
/// `OP(a, b)`.
pub proof fn lemma_two_operands(a: Seq<char>, op: BinOp, b: Seq<char>)
    requires
        is_decimal(a),
        is_decimal(b),
    ensures
        parsed(a + seq![operator_char(op)] + b) is Ok,
        assembled(parsed(a + seq![operator_char(op)] + b)->Ok_0) == (Assembled {
            operands: seq![
                Tree::Binary(op, Box::new(Tree::Number(a)), Box::new(Tree::Number(b))),
            ],
            complete: true,
        }),
{
    let c = operator_char(op);
    let line = a + seq![c] + b;
    lemma_decimal_unit(a);
    lemma_decimal_unit(b);
    lemma_operator_unit(op);
    lemma_scan_first(a);
    lemma_scan_operand(a, c, b);
    let out = a + seq![' ', c, ' '] + b;
    assert(spaced(line) =~= out);
    assert(out[0] == a[0]);
    assert(out.last() == b.last());
    lemma_trim_plain(out);
    let e = Seq::<char>::empty();
    lemma_words_append(e, a);
    assert(e + a =~= a);
    lemma_words_operand(a, c, b);
    let units = seq![a, seq![c], b];
    assert(words(formatted(line)) =~= units);
    assert(all_classified(units));
    let na = Symbol::Number(a);
    let nb = Symbol::Number(b);
    let o = Symbol::Operator(op);
    assert(classified(units) =~= seq![na, o, nb]);
    let syms = seq![na, o, nb];
    assert(syms =~= seq![].push(na).push(o).push(nb));
    lemma_shunt_push(seq![], na);
    lemma_shunt_push(seq![na], o);
    lemma_shunt_push(seq![na, o], nb);
    assert(seq![].push(na) =~= seq![na]);
    assert(seq![na].push(o) =~= seq![na, o]);
    let st = shunt(syms);
    assert(st.output =~= seq![na, nb]);
    assert(st.pending =~= seq![o]);
    lemma_top_down_one(o);
    let t = Tree::Binary(op, Box::new(Tree::Number(a)), Box::new(Tree::Number(b)));
    lemma_flatten_one(t);
    assert(postorder(Tree::Number(a)) == seq![na]);
    assert(postorder(Tree::Number(b)) == seq![nb]);
    assert(postorder(t) =~= seq![na, nb, o]);
    assert(postfix(syms) =~= flatten(seq![t]));
    lemma_flatten_assembles(seq![t]);
}

/// The line `a0 OP1 a1 ... OPk ak`, written without spaces, for the first
/// operand `a0` and the pairs `(OPi, ai)` that follow it.
pub open spec fn chain_line(first: Seq<char>, rest: Seq<(BinOp, Seq<char>)>) -> Seq<char>
    decreases rest.len(),
{
    if rest.len() == 0 {
        first
    } else {
        chain_line(first, rest.drop_last()) + seq![operator_char(rest.last().0)] + rest.last().1
    }
}

/// The operand tree that nests every operator to the left:
/// `(...((a0 OP1 a1) OP2 a2) ... OPk ak)`.
pub open spec fn left_nested(first: Seq<char>, rest: Seq<(BinOp, Seq<char>)>) -> Tree
    decreases rest.len(),
{
    if rest.len() == 0 {
        Tree::Number(first)
    } else {
        Tree::Binary(
            rest.last().0,
            Box::new(left_nested(first, rest.drop_last())),
            Box::new(Tree::Number(rest.last().1)),
        )
    }
}

spec fn chain_spaced(first: Seq<char>, rest: Seq<(BinOp, Seq<char>)>) -> Seq<char>
    decreases rest.len(),
{
    if rest.len() == 0 {
        first
    } else {
        chain_spaced(first, rest.drop_last()) + seq![' ', operator_char(rest.last().0), ' ']
            + rest.last().1
    }
}

spec fn chain_units(first: Seq<char>, rest: Seq<(BinOp, Seq<char>)>) -> Seq<Seq<char>>
    decreases rest.len(),
{
    if rest.len() == 0 {
        seq![first]
    } else {
        chain_units(first, rest.drop_last()).push(seq![operator_char(rest.last().0)]).push(
            rest.last().1,
        )
    }
}

spec fn chain_symbols(first: Seq<char>, rest: Seq<(BinOp, Seq<char>)>) -> Seq<Symbol>
    decreases rest.len(),
{
    if rest.len() == 0 {
        seq![Symbol::Number(first)]
    } else {
        chain_symbols(first, rest.drop_last()).push(Symbol::Operator(rest.last().0)).push(
            Symbol::Number(rest.last().1),
        )
    }
}

spec fn chain_decimals(first: Seq<char>, rest: Seq<(BinOp, Seq<char>)>) -> bool {
    is_decimal(first) && forall|i: int| 0 <= i < rest.len() ==> is_decimal(#[trigger] rest[i].1)
}

proof fn lemma_chain_drop_last(first: Seq<char>, rest: Seq<(BinOp, Seq<char>)>)
    requires
        chain_decimals(first, rest),
        rest.len() > 0,
    ensures
        chain_decimals(first, rest.drop_last()),
        is_decimal(rest.last().1),
{
    assert forall|i: int| 0 <= i < rest.drop_last().len() implies is_decimal(
        #[trigger] rest.drop_last()[i].1,
    ) by {
        assert(rest.drop_last()[i] == rest[i]);
    }
    assert(is_decimal(rest[rest.len() - 1].1));
}

proof fn lemma_chain_scan(first: Seq<char>, rest: Seq<(BinOp, Seq<char>)>)
    requires
        chain_decimals(first, rest),
    ensures
        scan(chain_line(first, rest)) == (ScanState {
            out: chain_spaced(first, rest),
            after_numeral: true,
            word: seq![],
        }),
        chain_spaced(first, rest).len() > 0,
        chain_spaced(first, rest)[0] == first[0],
        is_numeral(chain_spaced(first, rest).last()),
    decreases rest.len(),
{
    lemma_decimal_unit(first);
    if rest.len() == 0 {
        lemma_scan_first(first);
    } else {
        let r = rest.drop_last();
        let (op, a) = rest.last();
        lemma_chain_drop_last(first, rest);
        lemma_chain_scan(first, r);
        lemma_decimal_unit(a);
        lemma_operator_unit(op);
        lemma_scan_operand(chain_line(first, r), operator_char(op), a);
        let o = chain_spaced(first, r);
        assert((o + seq![' ', operator_char(op), ' '] + a)[0] == o[0]);
        assert((o + seq![' ', operator_char(op), ' '] + a).last() == a.last());
    }
}

proof fn lemma_chain_words(first: Seq<char>, rest: Seq<(BinOp, Seq<char>)>)
    requires
        chain_decimals(first, rest),
    ensures
        words(chain_spaced(first, rest)) == chain_units(first, rest),
    decreases rest.len(),
{
    lemma_chain_scan(first, rest);
    if rest.len() == 0 {
        lemma_decimal_unit(first);
        let e = Seq::<char>::empty();
        lemma_words_append(e, first);
        assert(e + first =~= first);
        assert(e.len() == 0);
        assert(words(e) =~= Seq::<Seq<char>>::empty());
        assert(Seq::<Seq<char>>::empty().push(first) =~= seq![first]);
    } else {
        let r = rest.drop_last();
        let (op, a) = rest.last();
        lemma_chain_drop_last(first, rest);
        lemma_chain_words(first, r);
        lemma_chain_scan(first, r);
        lemma_operator_unit(op);
        lemma_words_operand(chain_spaced(first, r), operator_char(op), a);
    }
}

proof fn lemma_chain_classified(first: Seq<char>, rest: Seq<(BinOp, Seq<char>)>)
    requires
        chain_decimals(first, rest),
    ensures
        all_classified(chain_units(first, rest)),
        classified(chain_units(first, rest)) == chain_symbols(first, rest),
    decreases rest.len(),
{
    let units = chain_units(first, rest);
    lemma_decimal_unit(first);
    if rest.len() == 0 {
        assert(classified(units) =~= chain_symbols(first, rest));
    } else {
        let r = rest.drop_last();
        let (op, a) = rest.last();
        lemma_chain_drop_last(first, rest);
        lemma_chain_classified(first, r);
        lemma_decimal_unit(a);
        lemma_operator_unit(op);
        let prev = chain_units(first, r);
        assert forall|i: int| 0 <= i < units.len() implies (#[trigger] classify(units[i])) is Some by {
            if i < prev.len() {
                assert(units[i] == prev[i]);
            }
        }
        assert(classified(units) =~= classified(prev).push(Symbol::Operator(op)).push(
            Symbol::Number(a),
        ));
    }
}

proof fn lemma_chain_shunt(first: Seq<char>, rest: Seq<(BinOp, Seq<char>)>)
    requires
        rest.len() > 0,
        forall|i: int| 0 <= i < rest.len() ==> precedence(#[trigger] rest[i].0) == precedence(rest[0].0),
    ensures
        shunt(chain_symbols(first, rest)) == (Shunt {
            output: postorder(left_nested(first, rest.drop_last())).push(Symbol::Number(rest.last().1)),
            pending: seq![Symbol::Operator(rest.last().0)],
        }),
    decreases rest.len(),
{
    let r = rest.drop_last();
    let (op, a) = rest.last();
    let so = Symbol::Operator(op);
    let sa = Symbol::Number(a);
    let prev = chain_symbols(first, r);
    lemma_shunt_push(prev, so);
    lemma_shunt_push(prev.push(so), sa);
    if r.len() == 0 {
        let sf = Symbol::Number(first);
        assert(prev == seq![sf]);
        lemma_shunt_push(Seq::<Symbol>::empty(), sf);
        assert(Seq::<Symbol>::empty().push(sf) =~= seq![sf]);
        assert(postorder(left_nested(first, r)) == seq![sf]);
        assert(shunt(prev).output =~= seq![sf]);
        assert(shunt(prev).pending =~= Seq::<Symbol>::empty());
    } else {
        assert forall|i: int| 0 <= i < r.len() implies precedence(#[trigger] r[i].0) == precedence(
            r[0].0,
        ) by {
            assert(r[i] == rest[i]);
            assert(r[0] == rest[0]);
        }
        lemma_chain_shunt(first, r);
        let (op0, a0) = r.last();
        assert(r.last() == rest[rest.len() - 2]);
        assert(precedence(op0) == precedence(op));
        let st = shunt(prev);
        let popped = Shunt { output: st.output.push(st.pending.last()), pending: st.pending.drop_last() };
        assert(st.pending.drop_last() =~= Seq::<Symbol>::empty());
        assert(pop_yielding(popped, op) == popped);
        assert(pop_yielding(st, op) == popped);
        let inner = left_nested(first, r.drop_last());
        assert(postorder(Tree::Number(a0)) == seq![Symbol::Number(a0)]);
        assert(postorder(left_nested(first, r)) =~= postorder(inner).push(Symbol::Number(a0)).push(
            Symbol::Operator(op0),
        ));
        assert(popped.output =~= postorder(left_nested(first, r)));
        assert(Seq::<Symbol>::empty().push(so) =~= seq![so]);
    }
}

proof fn lemma_chain_postfix(first: Seq<char>, rest: Seq<(BinOp, Seq<char>)>)
    requires
        forall|i: int| 0 <= i < rest.len() ==> precedence(#[trigger] rest[i].0) == precedence(rest[0].0),
    ensures
        postfix(chain_symbols(first, rest)) == postorder(left_nested(first, rest)),
{
    let sf = Symbol::Number(first);
    if rest.len() == 0 {
        lemma_shunt_push(Seq::<Symbol>::empty(), sf);
        assert(Seq::<Symbol>::empty().push(sf) =~= seq![sf]);
        assert(top_down(Seq::<Symbol>::empty()) == Seq::<Symbol>::empty());
        assert(shunt(seq![sf]).output =~= seq![sf]);
        assert(postfix(seq![sf]) =~= seq![sf]);
    } else {
        lemma_chain_shunt(first, rest);
        let (op, a) = rest.last();
        lemma_top_down_one(Symbol::Operator(op));
        assert(postorder(Tree::Number(a)) == seq![Symbol::Number(a)]);
        assert(postfix(chain_symbols(first, rest)) =~= postorder(left_nested(first, rest)));
    }
}

/// Operators of one precedence associate to the left: a line
/// `a0 OP1 a1 OP2 a2 ... OPk ak` of unsigned decimal literals whose operators share
/// one precedence parses to the single operand
/// `(...((a0 OP1 a1) OP2 a2) ... OPk ak)`.
pub proof fn lemma_chain_associates_left(first: Seq<char>, rest: Seq<(BinOp, Seq<char>)>)
    requires
        is_decimal(first),
        forall|i: int| 0 <= i < rest.len() ==> is_decimal(#[trigger] rest[i].1),
        forall|i: int| 0 <= i < rest.len() ==> precedence(#[trigger] rest[i].0) == precedence(rest[0].0),
    ensures
        parsed(chain_line(first, rest)) is Ok,
        assembled(parsed(chain_line(first, rest))->Ok_0) == (Assembled {
            operands: seq![left_nested(first, rest)],
            complete: true,
        }),
{
    lemma_chain_scan(first, rest);
    let out = chain_spaced(first, rest);
    lemma_decimal_unit(first);
    assert(spaced(chain_line(first, rest)) =~= out);
    lemma_trim_plain(out);
    lemma_chain_words(first, rest);
    lemma_chain_classified(first, rest);
    lemma_chain_postfix(first, rest);
    let t = left_nested(first, rest);
    lemma_flatten_one(t);
    lemma_flatten_assembles(seq![t]);
}

/// A line read so far under the usual precedence: the sum of the finished
/// terms with the additive operator that follows it, if any, and the
/// product that is still open.
pub struct Grouping {
    pub done: Option<(Tree, BinOp)>,
    pub term: Tree,
}

/// The open product, joined to the finished terms.
pub open spec fn close(g: Grouping) -> Tree {
    match g.done {
        None => g.term,
        Some((s, op)) => Tree::Binary(op, Box::new(s), Box::new(g.term)),
    }
}

/// Reads `a0 OP1 a1 ... OPk ak` from the left: `*` and `/` extend the open
/// product, `+` and `-` close it and start the next.
pub open spec fn grouped(first: Seq<char>, rest: Seq<(BinOp, Seq<char>)>) -> Grouping
    decreases rest.len(),
{
    if rest.len() == 0 {
        Grouping { done: None, term: Tree::Number(first) }
    } else {
        let g = grouped(first, rest.drop_last());
        let (op, a) = rest.last();
        if precedence(op) == 2 {
            Grouping { done: g.done, term: Tree::Binary(op, Box::new(g.term), Box::new(Tree::Number(a))) }
        } else {
            Grouping { done: Some((close(g), op)), term: Tree::Number(a) }
        }
    }
}

/// The operand tree of `a0 OP1 a1 ... OPk ak` under the usual precedence:
/// products first, and both sums and products associate to the left.
pub open spec fn standard_tree(first: Seq<char>, rest: Seq<(BinOp, Seq<char>)>) -> Tree {
    close(grouped(first, rest))
}

spec fn term_output(t: Tree) -> Seq<Symbol> {
    match t {
        Tree::Binary(_, l, r) => postorder(*l) + postorder(*r),
        _ => postorder(t),
    }
}

spec fn term_pending(t: Tree) -> Seq<Symbol> {
    match t {
        Tree::Binary(op, _, _) => seq![Symbol::Operator(op)],
        _ => seq![],
    }
}

/// The converter's state after the units of a grouping.
spec fn shunt_of(g: Grouping) -> Shunt {
    match g.done {
        None => Shunt { output: term_output(g.term), pending: term_pending(g.term) },
        Some((s, op)) => Shunt {
            output: postorder(s) + term_output(g.term),
            pending: seq![Symbol::Operator(op)] + term_pending(g.term),
        },
    }
}

spec fn grouping_wf(g: Grouping) -> bool {
    &&& match g.done {
        None => true,
        Some((_, op)) => precedence(op) == 1,
    }
    &&& match g.term {
        Tree::Number(_) => true,
        Tree::Binary(op, _, r) => precedence(op) == 2 && (*r) is Number,
        Tree::Apply(_, _) => false,
    }
}

proof fn lemma_term_output(t: Tree)
    requires
        match t {
            Tree::Number(_) => true,
            Tree::Binary(_, _, r) => (*r) is Number,
            Tree::Apply(_, _) => false,
        },
    ensures
        term_output(t) + top_down(term_pending(t)) == postorder(t),
{
    match t {
        Tree::Binary(op, l, r) => {
            lemma_top_down_one(Symbol::Operator(op));
        },
        _ => {
            assert(top_down(Seq::<Symbol>::empty()) == Seq::<Symbol>::empty());
            assert(term_output(t) + Seq::<Symbol>::empty() =~= postorder(t));
        },
    }
}

proof fn lemma_grouping_shunt(first: Seq<char>, rest: Seq<(BinOp, Seq<char>)>)
    ensures
        grouping_wf(grouped(first, rest)),
        shunt(chain_symbols(first, rest)) == shunt_of(grouped(first, rest)),
    decreases rest.len(),
{
    let sf = Symbol::Number(first);
    if rest.len() == 0 {
        lemma_shunt_push(Seq::<Symbol>::empty(), sf);
        assert(Seq::<Symbol>::empty().push(sf) =~= seq![sf]);
        assert(shunt(seq![sf]).output =~= seq![sf]);
        assert(shunt(seq![sf]).pending =~= Seq::<Symbol>::empty());
    } else {
        let r = rest.drop_last();
        let (op, a) = rest.last();
        lemma_grouping_shunt(first, r);
        let g = grouped(first, r);
        let st = shunt_of(g);
        let so = Symbol::Operator(op);
        let sa = Symbol::Number(a);
        let prev = chain_symbols(first, r);
        lemma_shunt_push(prev, so);
        lemma_shunt_push(prev.push(so), sa);
        let p = pop_yielding(st, op);
        assert(postorder(Tree::Number(a)) == seq![sa]);
        if precedence(op) == 2 {
            // Only a product operator on top of the stack leaves it.
            let t = g.term;
            let done_out = match g.done {
                None => Seq::<Symbol>::empty(),
                Some((s, _)) => postorder(s),
            };
            let done_pending = match g.done {
                None => Seq::<Symbol>::empty(),
                Some((_, d)) => seq![Symbol::Operator(d)],
            };
            assert(st.output =~= done_out + term_output(t));
            assert(st.pending =~= done_pending + term_pending(t));
            let stop = Shunt { output: done_out + postorder(t), pending: done_pending };
            assert(pop_yielding(stop, op) == stop);
            match t {
                Tree::Binary(m, _, _) => {
                    assert(st.pending.last() == Symbol::Operator(m));
                    assert(st.pending.drop_last() =~= done_pending);
                    assert(st.output.push(Symbol::Operator(m)) =~= stop.output);
                },
                _ => {
                    assert(st.output =~= stop.output);
                    assert(st.pending =~= stop.pending);
                },
            }
            assert(p == stop);
            let ng = grouped(first, rest);
            assert(shunt(chain_symbols(first, rest)).output =~= shunt_of(ng).output);
            assert(shunt(chain_symbols(first, rest)).pending =~= shunt_of(ng).pending);
        } else {
            // Everything pending leaves the stack.
            let c = close(g);
            let empty = Shunt { output: postorder(c), pending: Seq::<Symbol>::empty() };
            assert(pop_yielding(empty, op) == empty);
            let t = g.term;
            match g.done {
                None => {
                    match t {
                        Tree::Binary(m, _, _) => {
                            assert(st.pending.drop_last() =~= Seq::<Symbol>::empty());
                            assert(st.output.push(Symbol::Operator(m)) =~= postorder(c));
                        },
                        _ => {
                            assert(st.pending =~= Seq::<Symbol>::empty());
                        },
                    }
                },
                Some((s, d)) => {
                    let sd = Symbol::Operator(d);
                    let mid = Shunt { output: postorder(s) + postorder(t), pending: seq![sd] };
                    assert(mid.pending.drop_last() =~= Seq::<Symbol>::empty());
                    assert(mid.output.push(sd) =~= postorder(c));
                    assert(pop_yielding(mid, op) == empty);
                    match t {
                        Tree::Binary(m, _, _) => {
                            assert(st.pending.drop_last() =~= seq![sd]);
                            assert(st.pending.last() == Symbol::Operator(m));
                            assert(st.output.push(Symbol::Operator(m)) =~= mid.output);
                        },
                        _ => {
                            assert(st.pending =~= seq![sd]);
                            assert(st.output =~= mid.output);
                        },
                    }
                },
            }
            assert(p == empty);
            let ng = grouped(first, rest);
            assert(shunt(chain_symbols(first, rest)).output =~= shunt_of(ng).output);
            assert(shunt(chain_symbols(first, rest)).pending =~= shunt_of(ng).pending);
        }
    }
}

/// Standard precedence, read from the left: a line `a0 OP1 a1 ... OPk ak` of
/// unsigned decimal literals parses to the single operand in which `*` and
/// `/` bind tighter than `+` and `-`, and operators of equal precedence
/// associate to the left.
pub proof fn lemma_standard_precedence(first: Seq<char>, rest: Seq<(BinOp, Seq<char>)>)
    requires
        is_decimal(first),
        forall|i: int| 0 <= i < rest.len() ==> is_decimal(#[trigger] rest[i].1),
    ensures
        parsed(chain_line(first, rest)) is Ok,
        assembled(parsed(chain_line(first, rest))->Ok_0) == (Assembled {
            operands: seq![standard_tree(first, rest)],
            complete: true,
        }),
{
    lemma_chain_scan(first, rest);
    let out = chain_spaced(first, rest);
    lemma_decimal_unit(first);
    assert(spaced(chain_line(first, rest)) =~= out);
    lemma_trim_plain(out);
    lemma_chain_words(first, rest);
    lemma_chain_classified(first, rest);
    lemma_grouping_shunt(first, rest);
    let g = grouped(first, rest);
    let t = standard_tree(first, rest);
    lemma_term_output(g.term);
    match g.done {
        None => {},
        Some((s, d)) => {
            let sd = Symbol::Operator(d);
            let tp = term_pending(g.term);
            assert(top_down(seq![sd] + tp) =~= top_down(tp) + seq![sd]) by {
                lemma_top_down_one(sd);
                if tp.len() > 0 {
                    assert((seq![sd] + tp).drop_last() =~= seq![sd]);
                    assert(tp.drop_last() =~= Seq::<Symbol>::empty());
                    assert(top_down(Seq::<Symbol>::empty()) == Seq::<Symbol>::empty());
                } else {
                    assert(seq![sd] + tp =~= seq![sd]);
                    assert(top_down(Seq::<Symbol>::empty()) == Seq::<Symbol>::empty());
                }
            }
        },
    }
    assert(postfix(chain_symbols(first, rest)) =~= postorder(t));
    lemma_flatten_one(t);
    lemma_flatten_assembles(seq![t]);
}

proof fn lemma_function_name_letters(f: Func)
    ensures
        function_name(f).len() > 0,
        forall|i: int| 0 <= i < function_name(f).len() ==> is_letter(#[trigger] function_name(f)[i]),
{
}

/// A function applies to the operand right after it only: a line
/// `f a OP b` of unsigned decimal literals parses to the single operand
/// `OP(f(a), b)`.
pub proof fn lemma_function_binds_adjacent(f: Func, a: Seq<char>, op: BinOp, b: Seq<char>)
    requires
        is_decimal(a),
        is_decimal(b),
    ensures
        parsed(function_name(f) + a + seq![operator_char(op)] + b) is Ok,
        assembled(parsed(function_name(f) + a + seq![operator_char(op)] + b)->Ok_0) == (Assembled {
            operands: seq![
                Tree::Binary(
                    op,
                    Box::new(Tree::Apply(f, Box::new(Tree::Number(a)))),
                    Box::new(Tree::Number(b)),
                ),
            ],
            complete: true,
        }),
{
    let name = function_name(f);
    let c = operator_char(op);
    let x = name + a;
    let line = x + seq![c] + b;
    lemma_decimal_unit(a);
    lemma_decimal_unit(b);
    lemma_operator_unit(op);
    lemma_function_of_name(f);
    lemma_function_name_letters(f);
    lemma_scan_word_numerals(name, a);
    let o = name + seq![' '] + a;
    assert(o.last() == a.last());
    lemma_scan_operand(x, c, b);
    let out = o + seq![' ', c, ' '] + b;
    assert(spaced(line) =~= out);
    assert(out[0] == name[0]);
    assert(out.last() == b.last());
    lemma_trim_plain(out);
    let e = Seq::<char>::empty();
    lemma_words_append(e, name);
    assert(e + name =~= name);
    lemma_words_push_space(name);
    lemma_words_append(name.push(' '), a);
    assert(name.push(' ') + a =~= o);
    lemma_words_operand(o, c, b);
    let units = seq![name, a, seq![c], b];
    assert(words(formatted(line)) =~= units);
    assert(classify(name) == Some(Symbol::Function(f)));
    assert(all_classified(units));
    let sf = Symbol::Function(f);
    let na = Symbol::Number(a);
    let so = Symbol::Operator(op);
    let nb = Symbol::Number(b);
    let syms = seq![sf, na, so, nb];
    assert(classified(units) =~= syms);
    lemma_shunt_push(seq![], sf);
    lemma_shunt_push(seq![sf], na);
    lemma_shunt_push(seq![sf, na], so);
    lemma_shunt_push(seq![sf, na, so], nb);
    assert(seq![].push(sf) =~= seq![sf]);
    assert(seq![sf].push(na) =~= seq![sf, na]);
    assert(seq![sf, na].push(so) =~= seq![sf, na, so]);
    assert(seq![sf, na, so].push(nb) =~= syms);
    let st = shunt(seq![sf, na]);
    assert(st.output =~= seq![na]);
    assert(st.pending =~= seq![sf]);
    let popped = Shunt { output: st.output.push(sf), pending: st.pending.drop_last() };
    assert(popped.pending =~= Seq::<Symbol>::empty());
    assert(pop_yielding(popped, op) == popped);
    assert(shunt(syms).output =~= seq![na, sf, nb]);
    assert(shunt(syms).pending =~= seq![so]);
    lemma_top_down_one(so);
    let inner = Tree::Apply(f, Box::new(Tree::Number(a)));
    let t = Tree::Binary(op, Box::new(inner), Box::new(Tree::Number(b)));
    assert(postorder(Tree::Number(a)) == seq![na]);
    assert(postorder(Tree::Number(b)) == seq![nb]);
    assert(postorder(inner) =~= seq![na, sf]);
    assert(postorder(t) =~= seq![na, sf, nb, so]);
    lemma_flatten_one(t);
    assert(postfix(syms) =~= flatten(seq![t]));
    lemma_flatten_assembles(seq![t]);
}

} // verus!
