use vstd::prelude::*;

use crate::compiler::{
    compile_from, compile_spec, drain_ops, only_operators_and_lparens, pop_for_op, pop_to_lparen,
    pops_before,
};
use crate::digits::{decimal_bytes, is_digit, lemma_decimal_bytes, lemma_digits_value_shift};
use crate::expr::{evaluate_spec, spec_eval2, value_outcome};
use crate::lexer::{lemma_digit_run_end_exact, lex_from, lex_spec, minus_is_unary};
use crate::rpn::{rpn_from, rpn_spec, STACK_CAPACITY};
use crate::token::{is_binary, spec_apply, spec_prec, Op, Token};

verus! {

/// An arithmetic expression as it is written: decimal numerals, unary
/// minus, parentheses and binary operators.
pub enum Expr {
    Num(nat),
    Neg(Box<Expr>),
    Paren(Box<Expr>),
    Bin(Op, Box<Expr>, Box<Expr>),
}

/// How strongly the outermost construct of `e` binds: a binary operator
/// by its precedence (`+ -` 1, `* /` 2), unary minus 3, a numeral or a
/// parenthesised expression 4.
pub open spec fn level(e: Expr) -> int {
    match e {
        Expr::Num(_) => 4,
        Expr::Paren(_) => 4,
        Expr::Neg(_) => 3,
        Expr::Bin(op, _, _) => spec_prec(Token::Op(op)) as int,
    }
}

/// `e` is the reading of its own text: numerals fit `i64`, unary minus
/// applies to a numeral, a parenthesised expression or another unary
/// minus, the left operand of a binary operator binds at least as strongly
/// as it (left association), the right operand more strongly.
pub open spec fn wf(e: Expr) -> bool
    decreases e,
{
    match e {
        Expr::Num(n) => n <= i64::MAX,
        Expr::Neg(x) => level(*x) >= 3 && wf(*x),
        Expr::Paren(x) => wf(*x),
        Expr::Bin(op, l, r) => {
            &&& is_binary(Token::Op(op))
            &&& level(*l) >= level(e)
            &&& level(*r) > level(e)
            &&& wf(*l)
            &&& wf(*r)
        },
    }
}

/// The byte that writes a binary operator.
pub open spec fn operator_byte(op: Op) -> u8 {
    match op {
        Op::Add => 43,
        Op::Sub => 45,
        Op::Mul => 42,
        _ => 47,
    }
}

/// The text of `e`, without spaces.
pub open spec fn render(e: Expr) -> Seq<u8>
    decreases e,
{
    match e {
        Expr::Num(n) => decimal_bytes(n),
        Expr::Neg(x) => seq![45u8] + render(*x),
        Expr::Paren(x) => seq![40u8] + render(*x) + seq![41u8],
        Expr::Bin(op, l, r) => render(*l) + seq![operator_byte(op)] + render(*r),
    }
}

/// The tokens of `e`.
pub open spec fn tokens(e: Expr) -> Seq<Token>
    decreases e,
{
    match e {
        Expr::Num(n) => seq![Token::Num(n as i64)],
        Expr::Neg(x) => seq![Token::Op(Op::Neg)] + tokens(*x),
        Expr::Paren(x) => seq![Token::LParen] + tokens(*x) + seq![Token::RParen],
        Expr::Bin(op, l, r) => tokens(*l) + seq![Token::Op(op)] + tokens(*r),
    }
}

/// `e` in reverse Polish notation.
pub open spec fn postfix(e: Expr) -> Seq<Token>
    decreases e,
{
    match e {
        Expr::Num(n) => seq![Token::Num(n as i64)],
        Expr::Neg(x) => postfix(*x) + seq![Token::Op(Op::Neg)],
        Expr::Paren(x) => postfix(*x),
        Expr::Bin(op, l, r) => postfix(*l) + postfix(*r) + seq![Token::Op(op)],
    }
}

/// The value of `e` in `i64` arithmetic (division rounds toward zero);
/// `None` on overflow or division by zero.
pub open spec fn arith(e: Expr) -> Option<i64>
    decreases e,
{
    match e {
        Expr::Num(n) => Some(n as i64),
        Expr::Neg(x) => match arith(*x) {
            Some(v) => if v == i64::MIN {
                None
            } else {
                Some((-v) as i64)
            },
            None => None,
        },
        Expr::Paren(x) => arith(*x),
        Expr::Bin(op, l, r) => spec_eval2(op, arith(*l), arith(*r)),
    }
}

/// The most operands pending at once while `e` is evaluated.
pub open spec fn depth(e: Expr) -> nat
    decreases e,
{
    match e {
        Expr::Num(_) => 1,
        Expr::Neg(x) => depth(*x),
        Expr::Paren(x) => depth(*x),
        Expr::Bin(_, l, r) => {
            let dl = depth(*l);
            let dr = depth(*r) + 1;
            if dl >= dr {
                dl
            } else {
                dr
            }
        },
    }
}

/// The value of `e` for the calculator: its arithmetic value, or `None`
/// when the arithmetic fails or more than `STACK_CAPACITY` operands are
/// pending at once.
pub open spec fn value(e: Expr) -> Option<i64> {
    if depth(e) <= STACK_CAPACITY {
        arith(e)
    } else {
        None
    }
}

/// The part of `postfix(e)` that the conversion has sent to its output
/// once the tokens of `e` are read.
pub open spec fn emitted(e: Expr) -> Seq<Token>
    decreases e,
{
    match e {
        Expr::Num(n) => seq![Token::Num(n as i64)],
        Expr::Neg(x) => emitted(*x),
        Expr::Paren(x) => postfix(*x),
        Expr::Bin(_, l, r) => postfix(*l) + emitted(*r),
    }
}

/// The operators of `e` still on the conversion's stack once its tokens
/// are read, bottom first.
pub open spec fn pending(e: Expr) -> Seq<Token>
    decreases e,
{
    match e {
        Expr::Num(_) => Seq::empty(),
        Expr::Neg(x) => seq![Token::Op(Op::Neg)] + pending(*x),
        Expr::Paren(_) => Seq::empty(),
        Expr::Bin(op, _, r) => seq![Token::Op(op)] + pending(*r),
    }
}

/// An operator stack that keeps what lies below it when an operator of
/// strength `l` arrives: empty, `(` on top, or (for a binary operator)
/// a weaker operator on top.
pub open spec fn guards(ops: Seq<Token>, l: int) -> bool {
    ||| ops.len() == 0
    ||| ops.last() == Token::LParen
    ||| (l <= 2 ==> (spec_prec(ops.last()) as int) < l)
}

pub open spec fn min3(l: int) -> int {
    if l < 3 {
        l
    } else {
        3
    }
}

proof fn lemma_pending(e: Expr)
    requires
        wf(e),
    ensures
        forall|i: int|
            0 <= i < pending(e).len() ==> (#[trigger] pending(e)[i] is Op && spec_prec(pending(e)[i])
                >= min3(level(e))),
        postfix(e) == emitted(e) + pending(e).reverse(),
    decreases e,
{
    match e {
        Expr::Num(_) => {
            assert(postfix(e) =~= emitted(e) + pending(e).reverse());
        },
        Expr::Neg(x) => {
            lemma_pending(*x);
            let p = pending(e);
            assert forall|i: int| 0 <= i < p.len() implies (#[trigger] p[i] is Op && spec_prec(p[i])
                >= min3(level(e))) by {
                if i > 0 {
                    assert(p[i] == pending(*x)[i - 1]);
                }
            }
            assert(postfix(e) =~= emitted(e) + pending(e).reverse());
        },
        Expr::Paren(x) => {
            lemma_pending(*x);
            assert(postfix(e) =~= emitted(e) + pending(e).reverse());
        },
        Expr::Bin(op, l, r) => {
            lemma_pending(*l);
            lemma_pending(*r);
            let p = pending(e);
            assert forall|i: int| 0 <= i < p.len() implies (#[trigger] p[i] is Op && spec_prec(p[i])
                >= min3(level(e))) by {
                if i > 0 {
                    assert(p[i] == pending(*r)[i - 1]);
                }
            }
            assert(postfix(e) =~= emitted(e) + pending(e).reverse());
        },
    }
}

/// Popping a run of operators that all give way to `t`, down to one that
/// does not.
proof fn lemma_pop_chain(out: Seq<Token>, base: Seq<Token>, s: Seq<Token>, t: Token)
    requires
        forall|i: int| 0 <= i < s.len() ==> (#[trigger] s[i] != Token::LParen && s[i] != Token::Eof
            && pops_before(s[i], t)),
        base.len() == 0 || base.last() == Token::LParen || !pops_before(base.last(), t),
    ensures
        pop_for_op(out, base + s, t) == (out + s.reverse(), base),
    decreases s.len(),
{
    if s.len() == 0 {
        assert(base + s =~= base);
        assert(out + s.reverse() =~= out);
    } else {
        let top = s.last();
        assert((base + s).last() == top);
        assert((base + s).drop_last() =~= base + s.drop_last());
        lemma_pop_chain(out.push(top), base, s.drop_last(), t);
        assert(out.push(top) + s.drop_last().reverse() =~= out + s.reverse());
    }
}

/// Closing a parenthesis pops a run of operators down to its `(`.
proof fn lemma_pop_to_lparen_chain(out: Seq<Token>, base: Seq<Token>, s: Seq<Token>)
    requires
        forall|i: int| 0 <= i < s.len() ==> #[trigger] s[i] != Token::LParen,
    ensures
        pop_to_lparen(out, base.push(Token::LParen) + s) == Some((out + s.reverse(), base)),
    decreases s.len(),
{
    if s.len() == 0 {
        assert(base.push(Token::LParen) + s =~= base.push(Token::LParen));
        assert(base.push(Token::LParen).drop_last() =~= base);
        assert(out + s.reverse() =~= out);
    } else {
        let top = s.last();
        assert((base.push(Token::LParen) + s).last() == top);
        assert((base.push(Token::LParen) + s).drop_last() =~= base.push(Token::LParen)
            + s.drop_last());
        lemma_pop_to_lparen_chain(out.push(top), base, s.drop_last());
        assert(out.push(top) + s.drop_last().reverse() =~= out + s.reverse());
    }
}

/// Draining pops the whole stack.
proof fn lemma_drain_chain(out: Seq<Token>, s: Seq<Token>)
    requires
        forall|i: int| 0 <= i < s.len() ==> (#[trigger] s[i] is Op),
    ensures
        drain_ops(out, s) == Ok::<Seq<Token>, &'static str>(out + s.reverse()),
    decreases s.len(),
{
    if s.len() == 0 {
        assert(out + s.reverse() =~= out);
    } else {
        let top = s.last();
        lemma_drain_chain(out.push(top), s.drop_last());
        assert(out.push(top) + s.drop_last().reverse() =~= out + s.reverse());
    }
}

/// Reading the tokens of `e` sends `emitted(e)` to the output and leaves
/// `pending(e)` on the stack, above what was there.
proof fn lemma_compile_expr(toks: Seq<Token>, k: int, e: Expr, out: Seq<Token>, ops: Seq<Token>)
    requires
        wf(e),
        0 <= k,
        k + tokens(e).len() <= toks.len(),
        forall|j: int| 0 <= j < tokens(e).len() ==> toks[k + j] == #[trigger] tokens(e)[j],
        only_operators_and_lparens(ops),
        guards(ops, level(e)),
    ensures
        compile_from(toks, k, out, ops) == compile_from(
            toks,
            k + tokens(e).len(),
            out + emitted(e),
            ops + pending(e),
        ),
    decreases e,
{
    lemma_pending(e);
    match e {
        Expr::Num(n) => {
            assert(toks[k + 0] == tokens(e)[0]);
            assert(out.push(Token::Num(n as i64)) =~= out + emitted(e));
            assert(ops + pending(e) =~= ops);
        },
        Expr::Neg(x) => {
            let t = Token::Op(Op::Neg);
            assert(toks[k + 0] == tokens(e)[0]);
            assert(pop_for_op(out, ops, t) == (out, ops));
            let ops1 = ops.push(t);
            assert forall|j: int| 0 <= j < tokens(*x).len() implies toks[(k + 1) + j]
                == #[trigger] tokens(*x)[j] by {
                assert(tokens(e)[1 + j] == tokens(*x)[j]);
            }
            lemma_compile_expr(toks, k + 1, *x, out, ops1);
            assert(ops1 + pending(*x) =~= ops + pending(e));
        },
        Expr::Paren(x) => {
            assert(toks[k + 0] == tokens(e)[0]);
            let ops1 = ops.push(Token::LParen);
            assert forall|j: int| 0 <= j < tokens(*x).len() implies toks[(k + 1) + j]
                == #[trigger] tokens(*x)[j] by {
                assert(tokens(e)[1 + j] == tokens(*x)[j]);
            }
            lemma_compile_expr(toks, k + 1, *x, out, ops1);
            lemma_pending(*x);
            let m = k + 1 + tokens(*x).len();
            assert(toks[m] == tokens(e)[1 + tokens(*x).len() as int]);
            lemma_pop_to_lparen_chain(out + emitted(*x), ops, pending(*x));
            assert(out + emitted(*x) + pending(*x).reverse() =~= out + emitted(e));
            assert(ops + pending(e) =~= ops);
        },
        Expr::Bin(op, l, r) => {
            let t = Token::Op(op);
            let nl = tokens(*l).len() as int;
            assert forall|j: int| 0 <= j < nl implies toks[k + j] == #[trigger] tokens(*l)[j] by {
                assert(tokens(e)[j] == tokens(*l)[j]);
            }
            lemma_compile_expr(toks, k, *l, out, ops);
            lemma_pending(*l);
            assert(toks[k + nl] == tokens(e)[nl]);
            let o1 = out + emitted(*l);
            assert forall|i: int| 0 <= i < pending(*l).len() implies (#[trigger] pending(*l)[i]
                != Token::LParen && pending(*l)[i] != Token::Eof && pops_before(pending(*l)[i], t)) by {
            }
            lemma_pop_chain(o1, ops, pending(*l), t);
            let o2 = o1 + pending(*l).reverse();
            let ops2 = ops.push(t);
            assert forall|j: int| 0 <= j < tokens(*r).len() implies toks[(k + nl + 1) + j]
                == #[trigger] tokens(*r)[j] by {
                assert(tokens(e)[nl + 1 + j] == tokens(*r)[j]);
            }
            lemma_compile_expr(toks, k + nl + 1, *r, o2, ops2);
            assert(o2 + emitted(*r) =~= out + emitted(e));
            assert(ops2 + pending(*r) =~= ops + pending(e));
        },
    }
}

/// Lexing reads a decimal numeral that stands at `i` as one number token.
proof fn lemma_lex_numeral(b: Seq<u8>, i: int, n: nat, acc: Seq<Token>)
    requires
        n <= i64::MAX,
        0 <= i,
        i + decimal_bytes(n).len() <= b.len(),
        forall|k: int| 0 <= k < decimal_bytes(n).len() ==> b[i + k] == #[trigger] decimal_bytes(n)[k],
        i + decimal_bytes(n).len() == b.len() || !is_digit(b[i + decimal_bytes(n).len()]),
    ensures
        lex_from(b, i, acc) == lex_from(
            b,
            i + decimal_bytes(n).len(),
            acc.push(Token::Num(n as i64)),
        ),
{
    let d = decimal_bytes(n);
    let e = i + d.len();
    lemma_decimal_bytes(n);
    assert forall|k: int| i <= k < e implies is_digit(#[trigger] b[k]) by {
        assert(b[i + (k - i)] == d[k - i]);
    }
    lemma_digit_run_end_exact(b, i, e);
    lemma_digits_value_shift(b, d, i, e);
    assert(b[i + 0] == d[0]);
}

/// Reading the text of `e` where an operand may stand gives its tokens.
proof fn lemma_lex_expr(b: Seq<u8>, i: int, e: Expr, acc: Seq<Token>)
    requires
        wf(e),
        0 <= i,
        i + render(e).len() <= b.len(),
        forall|k: int| 0 <= k < render(e).len() ==> b[i + k] == #[trigger] render(e)[k],
        i + render(e).len() == b.len() || !is_digit(b[i + render(e).len()]),
        minus_is_unary(acc),
    ensures
        lex_from(b, i, acc) == lex_from(b, i + render(e).len(), acc + tokens(e)),
        tokens(e).len() > 0,
        tokens(e).last() is Num || tokens(e).last() == Token::RParen,
    decreases e,
{
    match e {
        Expr::Num(n) => {
            lemma_lex_numeral(b, i, n, acc);
            assert(acc.push(Token::Num(n as i64)) =~= acc + tokens(e));
        },
        Expr::Neg(x) => {
            assert(b[i + 0] == render(e)[0]);
            let acc1 = acc.push(Token::Op(Op::Neg));
            assert(lex_from(b, i, acc) == lex_from(b, i + 1, acc1));
            assert forall|k: int| 0 <= k < render(*x).len() implies b[(i + 1) + k]
                == #[trigger] render(*x)[k] by {
                assert(render(e)[1 + k] == render(*x)[k]);
            }
            lemma_lex_expr(b, i + 1, *x, acc1);
            assert(acc1 + tokens(*x) =~= acc + tokens(e));
            assert(tokens(e).last() == tokens(*x).last());
        },
        Expr::Paren(x) => {
            assert(b[i + 0] == render(e)[0]);
            let acc1 = acc.push(Token::LParen);
            assert(lex_from(b, i, acc) == lex_from(b, i + 1, acc1));
            assert forall|k: int| 0 <= k < render(*x).len() implies b[(i + 1) + k]
                == #[trigger] render(*x)[k] by {
                assert(render(e)[1 + k] == render(*x)[k]);
            }
            let m = i + 1 + render(*x).len();
            assert(b[m] == render(e)[1 + render(*x).len() as int]);
            lemma_lex_expr(b, i + 1, *x, acc1);
            let acc2 = acc1 + tokens(*x);
            assert(lex_from(b, m, acc2) == lex_from(b, m + 1, acc2.push(Token::RParen)));
            assert(acc2.push(Token::RParen) =~= acc + tokens(e));
        },
        Expr::Bin(op, l, r) => {
            let nl = render(*l).len() as int;
            assert forall|k: int| 0 <= k < nl implies b[i + k] == #[trigger] render(*l)[k] by {
                assert(render(e)[k] == render(*l)[k]);
            }
            assert(b[i + nl] == render(e)[nl]);
            lemma_lex_expr(b, i, *l, acc);
            let acc1 = acc + tokens(*l);
            assert(acc1.last() == tokens(*l).last());
            let acc2 = acc1.push(Token::Op(op));
            assert(lex_from(b, i + nl, acc1) == lex_from(b, i + nl + 1, acc2));
            assert forall|k: int| 0 <= k < render(*r).len() implies b[(i + nl + 1) + k]
                == #[trigger] render(*r)[k] by {
                assert(render(e)[nl + 1 + k] == render(*r)[k]);
            }
            lemma_lex_expr(b, i + nl + 1, *r, acc2);
            assert(acc2 + tokens(*r) =~= acc + tokens(e));
            assert(tokens(e).last() == tokens(*r).last());
        },
    }
}

/// Evaluating `postfix(e)` on a stack `st` pushes the value of `e`, or
/// panics where the arithmetic fails or the stack would grow past
/// `STACK_CAPACITY`.
proof fn lemma_rpn_expr(rpn: Seq<Token>, k: int, e: Expr, st: Seq<i64>)
    requires
        wf(e),
        0 <= k,
        k + postfix(e).len() <= rpn.len(),
        forall|j: int| 0 <= j < postfix(e).len() ==> rpn[k + j] == #[trigger] postfix(e)[j],
    ensures
        rpn_from(rpn, k, st) == match (if st.len() + depth(e) <= STACK_CAPACITY {
            arith(e)
        } else {
            None
        }) {
            Some(v) => rpn_from(rpn, k + postfix(e).len(), st.push(v)),
            None => None,
        },
    decreases e,
{
    match e {
        Expr::Num(n) => {
            assert(rpn[k + 0] == postfix(e)[0]);
        },
        Expr::Neg(x) => {
            let px = postfix(*x);
            assert forall|j: int| 0 <= j < px.len() implies rpn[k + j] == #[trigger] px[j] by {
                assert(postfix(e)[j] == px[j]);
            }
            lemma_rpn_expr(rpn, k, *x, st);
            assert(rpn[k + px.len()] == postfix(e)[px.len() as int]);
            if st.len() + depth(e) <= STACK_CAPACITY {
                if let Some(v) = arith(*x) {
                    let s1 = st.push(v);
                    assert(s1.last() == v);
                    if v != i64::MIN {
                        assert(s1.drop_last().push((-v) as i64) =~= st.push((-v) as i64));
                    }
                }
            }
        },
        Expr::Paren(x) => {
            lemma_rpn_expr(rpn, k, *x, st);
        },
        Expr::Bin(op, l, r) => {
            let pl = postfix(*l);
            let pr = postfix(*r);
            let nl = pl.len() as int;
            assert forall|j: int| 0 <= j < pl.len() implies rpn[k + j] == #[trigger] pl[j] by {
                assert(postfix(e)[j] == pl[j]);
            }
            assert forall|j: int| 0 <= j < pr.len() implies rpn[(k + nl) + j] == #[trigger] pr[j] by {
                assert(postfix(e)[nl + j] == pr[j]);
            }
            assert(rpn[k + nl + pr.len()] == postfix(e)[nl + pr.len()]);
            lemma_rpn_expr(rpn, k, *l, st);
            if st.len() + depth(*l) <= STACK_CAPACITY {
                if let Some(a) = arith(*l) {
                    let s1 = st.push(a);
                    lemma_rpn_expr(rpn, k + nl, *r, s1);
                    if s1.len() + depth(*r) <= STACK_CAPACITY {
                        if let Some(c) = arith(*r) {
                            let s2 = s1.push(c);
                            assert(s2.last() == c);
                            assert(s2[s2.len() - 2] == a);
                            if let Some(v) = spec_apply(Token::Op(op), a, c) {
                                assert(s2.subrange(0, s2.len() - 2).push(v) =~= st.push(v));
                            }
                        }
                    }
                }
            }
        },
    }
}

/// Every well-formed expression evaluates to its value: its text lexes to
/// its tokens, they convert to its reverse Polish form, and that evaluates
/// to the arithmetic value of the expression (with precedence, left
/// association, parentheses, unary minus binding most strongly and
/// division rounding toward zero); evaluation panics exactly where that
/// arithmetic overflows, divides by zero, or keeps more than
/// `STACK_CAPACITY` operands pending.
pub proof fn lemma_evaluate_expr(e: Expr)
    requires
        wf(e),
    ensures
        lex_spec(render(e)) == Some(tokens(e).push(Token::Eof)),
        compile_spec(tokens(e)) == Ok::<Seq<Token>, &'static str>(postfix(e)),
        compile_spec(tokens(e).push(Token::Eof)) == Ok::<Seq<Token>, &'static str>(postfix(e)),
        rpn_spec(postfix(e)) == value_outcome(value(e)),
        evaluate_spec(render(e)) == value_outcome(value(e)),
{
    let b = render(e);
    let empty: Seq<Token> = Seq::empty();
    lemma_lex_expr(b, 0, e, empty);
    assert(empty + tokens(e) =~= tokens(e));
    let ts = tokens(e);
    let te = ts.push(Token::Eof);
    lemma_pending(e);
    lemma_compile_expr(ts, 0, e, empty, empty);
    assert forall|j: int| 0 <= j < ts.len() implies te[0 + j] == #[trigger] ts[j] by {}
    lemma_compile_expr(te, 0, e, empty, empty);
    assert(empty + emitted(e) =~= emitted(e));
    assert(empty + pending(e) =~= pending(e));
    lemma_drain_chain(emitted(e), pending(e));
    assert(te[ts.len() as int] == Token::Eof);
    let p = postfix(e);
    let st: Seq<i64> = Seq::empty();
    lemma_rpn_expr(p, 0, e, st);
}

/// Parentheses do not change the value, and a minus before parentheses
/// negates it (failing on the negation of `i64::MIN`).
pub proof fn lemma_evaluate_parenthesised(e: Expr)
    requires
        wf(e),
    ensures
        evaluate_spec(render(Expr::Paren(Box::new(e)))) == value_outcome(value(e)),
        evaluate_spec(render(Expr::Neg(Box::new(Expr::Paren(Box::new(e)))))) == value_outcome(
            match value(e) {
                Some(v) => if v == i64::MIN {
                    None
                } else {
                    Some((-v) as i64)
                },
                None => None,
            },
        ),
{
    let p = Expr::Paren(Box::new(e));
    let n = Expr::Neg(Box::new(p));
    assert(wf(p));
    assert(wf(n));
    lemma_evaluate_expr(p);
    lemma_evaluate_expr(n);
}

} // verus!
