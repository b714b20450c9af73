use vstd::prelude::*;

use crate::token::{no_eof, prec, spec_prec, Op, Token};

verus! {

/// Whether an operator `t` that arrives with `top` on the operator stack
/// sends `top` to the output first: `top` binds more strongly, or as
/// strongly and `t` is not a unary minus (which is right-associative).
pub open spec fn pops_before(top: Token, t: Token) -> bool {
    let tp = spec_prec(top);
    let cp = spec_prec(t);
    tp > cp || (tp == cp && t != Token::Op(Op::Neg))
}

/// Moves operators from the top of `ops` to `out` as long as they bind at
/// least as strongly as the arriving operator `t`; stops at `(`.
pub open spec fn pop_for_op(out: Seq<Token>, ops: Seq<Token>, t: Token) -> (Seq<Token>, Seq<Token>)
    decreases ops.len(),
{
    if ops.len() == 0 {
        (out, ops)
    } else {
        let top = ops.last();
        if top == Token::LParen || top == Token::Eof {
            (out, ops)
        } else if pops_before(top, t) {
            pop_for_op(out.push(top), ops.drop_last(), t)
        } else {
            (out, ops)
        }
    }
}

/// Moves operators to `out` until the matching `(`, which is dropped;
/// `None` when there is none.
pub open spec fn pop_to_lparen(out: Seq<Token>, ops: Seq<Token>) -> Option<(Seq<Token>, Seq<Token>)>
    decreases ops.len(),
{
    if ops.len() == 0 {
        None
    } else if ops.last() == Token::LParen {
        Some((out, ops.drop_last()))
    } else {
        pop_to_lparen(out.push(ops.last()), ops.drop_last())
    }
}

/// Moves all remaining operators to `out`; an unclosed `(` is an error.
pub open spec fn drain_ops(out: Seq<Token>, ops: Seq<Token>) -> Result<Seq<Token>, &'static str>
    decreases ops.len(),
{
    if ops.len() == 0 {
        Ok(out)
    } else {
        let top = ops.last();
        if top == Token::LParen || top == Token::RParen || top == Token::Eof {
            Err("mismatched parentheses")
        } else {
            drain_ops(out.push(top), ops.drop_last())
        }
    }
}

/// The shunting-yard conversion of `toks[k..]`, with output `out` and
/// operator stack `ops` so far. Tokens after the first `Eof` are ignored.
pub open spec fn compile_from(toks: Seq<Token>, k: int, out: Seq<Token>, ops: Seq<Token>) -> Result<
    Seq<Token>,
    &'static str,
>
    decreases toks.len() - k,
{
    if k < 0 || k >= toks.len() {
        drain_ops(out, ops)
    } else {
        let t = toks[k];
        match t {
            Token::Num(_) => compile_from(toks, k + 1, out.push(t), ops),
            Token::Op(_) => {
                let (o2, s2) = pop_for_op(out, ops, t);
                compile_from(toks, k + 1, o2, s2.push(t))
            },
            Token::LParen => compile_from(toks, k + 1, out, ops.push(t)),
            Token::RParen => match pop_to_lparen(out, ops) {
                None => Err("mismatched ')'"),
                Some((o2, s2)) => compile_from(toks, k + 1, o2, s2),
            },
            Token::Eof => drain_ops(out, ops),
        }
    }
}

/// The reverse Polish form of an infix token sequence.
pub open spec fn compile_spec(toks: Seq<Token>) -> Result<Seq<Token>, &'static str> {
    compile_from(toks, 0, Seq::empty(), Seq::empty())
}

/// Converts infix tokens to reverse Polish notation (shunting-yard).
pub fn compile(toks: Vec<Token>) -> (r: Result<Vec<Token>, &'static str>)
    ensures
        match r {
            Ok(v) => compile_spec(toks@) == Ok::<Seq<Token>, &'static str>(v@),
            Err(e) => compile_spec(toks@) == Err::<Seq<Token>, &'static str>(e),
        },
{
    let mut out: Vec<Token> = Vec::new();
    let mut ops: Vec<Token> = Vec::new();
    let n = toks.len();
    let mut k: usize = 0;
    while k < n
        invariant_except_break
            n == toks@.len(),
            k <= n,
            compile_from(toks@, k as int, out@, ops@) == compile_spec(toks@),
        ensures
            drain_ops(out@, ops@) == compile_spec(toks@),
        decreases n - k,
    {
        let t = toks[k];
        match t {
            Token::Num(_) => {
                out.push(t);
            },
            Token::Op(_) => {
                let t_is_neg = t == Token::Op(Op::Neg);
                let ghost out0 = out@;
                let ghost ops0 = ops@;
                while ops.len() > 0
                    invariant_except_break
                        pop_for_op(out0, ops0, t) == pop_for_op(out@, ops@, t),
                        t_is_neg == (t == Token::Op(Op::Neg)),
                    ensures
                        pop_for_op(out0, ops0, t) == (out@, ops@),
                    decreases ops.len(),
                {
                    let top = ops[ops.len() - 1];
                    if top == Token::LParen || top == Token::Eof {
                        break;
                    }
                    let tp = prec(&top);
                    let cp = prec(&t);
                    if tp > cp || (tp == cp && !t_is_neg) {
                        let popped = ops.pop();
                        match popped {
                            Some(p) => out.push(p),
                            None => {},
                        }
                    } else {
                        break;
                    }
                }
                ops.push(t);
            },
            Token::LParen => {
                ops.push(t);
            },
            Token::RParen => {
                let ghost out0 = out@;
                let ghost ops0 = ops@;
                while ops.len() > 0 && ops[ops.len() - 1] != Token::LParen
                    invariant
                        pop_to_lparen(out0, ops0) == pop_to_lparen(out@, ops@),
                    decreases ops.len(),
                {
                    let popped = ops.pop();
                    match popped {
                        Some(p) => out.push(p),
                        None => {},
                    }
                }
                if ops.len() > 0 {
                    ops.pop();
                } else {
                    return Err("mismatched ')'");
                }
            },
            Token::Eof => {
                break;
            },
        }
        k += 1;
    }
    while ops.len() > 0
        invariant
            drain_ops(out@, ops@) == compile_spec(toks@),
        decreases ops.len(),
    {
        let top = ops[ops.len() - 1];
        if top == Token::LParen || top == Token::RParen || top == Token::Eof {
            return Err("mismatched parentheses");
        }
        ops.pop();
        out.push(top);
    }
    Ok(out)
}

/// Every token is a number or an operator.
pub open spec fn only_numbers_and_operators(s: Seq<Token>) -> bool {
    forall|i: int| 0 <= i < s.len() ==> (s[i] is Num || s[i] is Op)
}

/// Every token is an operator or an opening parenthesis.
pub open spec fn only_operators_and_lparens(s: Seq<Token>) -> bool {
    forall|i: int| 0 <= i < s.len() ==> (s[i] is Op || s[i] == Token::LParen)
}

/// The values of the number tokens, in order.
pub open spec fn number_values(s: Seq<Token>) -> Seq<i64>
    decreases s.len(),
{
    if s.len() == 0 {
        Seq::empty()
    } else {
        let r = number_values(s.drop_last());
        match s.last() {
            Token::Num(n) => r.push(n),
            _ => r,
        }
    }
}

/// Position of the first `Eof` at or after `k`, or the length.
pub open spec fn eof_index(s: Seq<Token>, k: int) -> int
    decreases s.len() - k,
{
    if k < 0 || k >= s.len() {
        s.len() as int
    } else if s[k] == Token::Eof {
        k
    } else {
        eof_index(s, k + 1)
    }
}

proof fn lemma_number_values_push(s: Seq<Token>, t: Token)
    ensures
        number_values(s.push(t)) == match t {
            Token::Num(n) => number_values(s).push(n),
            _ => number_values(s),
        },
{
    assert(s.push(t).drop_last() =~= s);
}

proof fn lemma_pop_for_op(out: Seq<Token>, ops: Seq<Token>, t: Token)
    requires
        only_numbers_and_operators(out),
        only_operators_and_lparens(ops),
    ensures
        only_numbers_and_operators(pop_for_op(out, ops, t).0),
        only_operators_and_lparens(pop_for_op(out, ops, t).1),
        number_values(pop_for_op(out, ops, t).0) == number_values(out),
    decreases ops.len(),
{
    if ops.len() > 0 {
        let top = ops.last();
        if top != Token::LParen && top != Token::Eof && pops_before(top, t) {
            lemma_number_values_push(out, top);
            lemma_pop_for_op(out.push(top), ops.drop_last(), t);
        }
    }
}

proof fn lemma_pop_to_lparen(out: Seq<Token>, ops: Seq<Token>)
    requires
        only_numbers_and_operators(out),
        only_operators_and_lparens(ops),
    ensures
        pop_to_lparen(out, ops) matches Some((o2, s2)) ==> {
            &&& only_numbers_and_operators(o2)
            &&& only_operators_and_lparens(s2)
            &&& number_values(o2) == number_values(out)
        },
    decreases ops.len(),
{
    if ops.len() > 0 && ops.last() != Token::LParen {
        lemma_number_values_push(out, ops.last());
        lemma_pop_to_lparen(out.push(ops.last()), ops.drop_last());
    }
}

proof fn lemma_drain_ops(out: Seq<Token>, ops: Seq<Token>)
    requires
        only_numbers_and_operators(out),
        only_operators_and_lparens(ops),
    ensures
        drain_ops(out, ops) matches Ok(r) ==> only_numbers_and_operators(r) && number_values(r)
            == number_values(out),
    decreases ops.len(),
{
    if ops.len() > 0 {
        let top = ops.last();
        if top != Token::LParen {
            lemma_number_values_push(out, top);
            lemma_drain_ops(out.push(top), ops.drop_last());
        }
    }
}

proof fn lemma_compile_from(toks: Seq<Token>, k: int, out: Seq<Token>, ops: Seq<Token>)
    requires
        0 <= k <= toks.len(),
        eof_index(toks, 0) == eof_index(toks, k),
        only_numbers_and_operators(out),
        only_operators_and_lparens(ops),
        number_values(out) == number_values(toks.take(k)),
    ensures
        compile_from(toks, k, out, ops) matches Ok(r) ==> {
            &&& only_numbers_and_operators(r)
            &&& number_values(r) == number_values(toks.take(eof_index(toks, 0)))
        },
    decreases toks.len() - k,
{
    if k >= toks.len() {
        lemma_drain_ops(out, ops);
    } else {
        let t = toks[k];
        if t == Token::Eof {
            lemma_drain_ops(out, ops);
        } else {
            assert(toks.take(k + 1).drop_last() =~= toks.take(k));
            assert(toks.take(k + 1).last() == t);
            lemma_number_values_push(toks.take(k), t);
            match t {
                Token::Num(_) => {
                    lemma_number_values_push(out, t);
                    lemma_compile_from(toks, k + 1, out.push(t), ops);
                },
                Token::Op(_) => {
                    lemma_pop_for_op(out, ops, t);
                    let (o2, s2) = pop_for_op(out, ops, t);
                    lemma_compile_from(toks, k + 1, o2, s2.push(t));
                },
                Token::LParen => {
                    lemma_compile_from(toks, k + 1, out, ops.push(t));
                },
                Token::RParen => {
                    lemma_pop_to_lparen(out, ops);
                    if let Some((o2, s2)) = pop_to_lparen(out, ops) {
                        lemma_compile_from(toks, k + 1, o2, s2);
                    }
                },
                Token::Eof => {},
            }
        }
    }
}

/// A successful conversion holds only numbers and operators, and
/// its numbers are those of the input before its first `Eof`, in the same
/// order.
pub proof fn lemma_compile_keeps_numbers(toks: Seq<Token>)
    ensures
        compile_spec(toks) matches Ok(r) ==> {
            &&& only_numbers_and_operators(r)
            &&& number_values(r) == number_values(toks.take(eof_index(toks, 0)))
        },
{
    assert(toks.take(0) =~= Seq::<Token>::empty());
    lemma_compile_from(toks, 0, Seq::empty(), Seq::empty());
}

/// An `(` beneath the operator stack stops `pop_for_op` as the bottom of
/// the stack does.
proof fn lemma_pop_for_op_floor(out: Seq<Token>, q: Seq<Token>, ops: Seq<Token>, t: Token)
    requires
        q.len() > 0,
        q.last() == Token::LParen,
    ensures
        pop_for_op(out, q + ops, t) == (pop_for_op(out, ops, t).0, q + pop_for_op(out, ops, t).1),
    decreases ops.len(),
{
    let s = q + ops;
    if ops.len() == 0 {
        assert(s =~= q);
    } else {
        assert(s.last() == ops.last());
        assert(s.drop_last() =~= q + ops.drop_last());
        lemma_pop_for_op_floor(out.push(ops.last()), q, ops.drop_last(), t);
    }
}

/// An `(` beneath the operator stack is not reached by `pop_to_lparen`
/// when the stack above it holds one.
proof fn lemma_pop_to_lparen_floor(out: Seq<Token>, q: Seq<Token>, ops: Seq<Token>)
    requires
        pop_to_lparen(out, ops) is Some,
    ensures
        pop_to_lparen(out, q + ops) == Some(
            (pop_to_lparen(out, ops)->Some_0.0, q + pop_to_lparen(out, ops)->Some_0.1),
        ),
    decreases ops.len(),
{
    let s = q + ops;
    assert(s.last() == ops.last());
    assert(s.drop_last() =~= q + ops.drop_last());
    if ops.last() != Token::LParen {
        lemma_pop_to_lparen_floor(out.push(ops.last()), q, ops.drop_last());
    }
}

/// A `)` above an `(` beneath a stack that drains moves the same
/// operators to the output as draining does.
proof fn lemma_drain_to_lparen(out: Seq<Token>, q: Seq<Token>, ops: Seq<Token>)
    requires
        q.len() > 0,
        q.last() == Token::LParen,
        drain_ops(out, ops) is Ok,
    ensures
        pop_to_lparen(out, q + ops) == Some((drain_ops(out, ops)->Ok_0, q.drop_last())),
    decreases ops.len(),
{
    let s = q + ops;
    if ops.len() == 0 {
        assert(s =~= q);
    } else {
        assert(s.last() == ops.last());
        assert(s.drop_last() =~= q + ops.drop_last());
        lemma_drain_to_lparen(out.push(ops.last()), q, ops.drop_last());
    }
}

/// Converting tokens `t` that stand in `toks2` at `off`, between an `(`
/// pushed on the stack `p` and a closing `)` and `Eof`: the `(` keeps `p`
/// out of reach, and the `)` moves out what the end of `t` alone would,
/// after which `p` is drained.
pub proof fn lemma_compile_wrapped(
    t: Seq<Token>,
    toks2: Seq<Token>,
    off: int,
    k: int,
    out: Seq<Token>,
    p: Seq<Token>,
    ops: Seq<Token>,
)
    requires
        no_eof(t),
        0 <= off,
        0 <= k <= t.len(),
        toks2.len() == off + t.len() + 2,
        forall|i: int| 0 <= i < t.len() ==> toks2[off + i] == #[trigger] t[i],
        toks2[off + t.len()] == Token::RParen,
        toks2[off + t.len() + 1] == Token::Eof,
        compile_from(t.push(Token::Eof), k, out, ops) is Ok,
    ensures
        compile_from(toks2, off + k, out, p.push(Token::LParen) + ops) == drain_ops(
            compile_from(t.push(Token::Eof), k, out, ops)->Ok_0,
            p,
        ),
    decreases t.len() - k,
{
    let te = t.push(Token::Eof);
    let q = p.push(Token::LParen);
    if k == t.len() {
        assert(te[k] == Token::Eof);
        lemma_drain_to_lparen(out, q, ops);
        assert(q.drop_last() =~= p);
        let r = drain_ops(out, ops)->Ok_0;
        assert(compile_from(toks2, off + k, out, q + ops) == compile_from(toks2, off + k + 1, r, p));
    } else {
        let tk = t[k];
        assert(te[k] == tk);
        assert(toks2[off + k] == tk);
        assert(tk != Token::Eof);
        match tk {
            Token::Num(_) => {
                lemma_compile_wrapped(t, toks2, off, k + 1, out.push(tk), p, ops);
            },
            Token::Op(_) => {
                lemma_pop_for_op_floor(out, q, ops, tk);
                let (o2, s2) = pop_for_op(out, ops, tk);
                assert((q + s2).push(tk) =~= q + s2.push(tk));
                lemma_compile_wrapped(t, toks2, off, k + 1, o2, p, s2.push(tk));
            },
            Token::LParen => {
                assert((q + ops).push(tk) =~= q + ops.push(tk));
                lemma_compile_wrapped(t, toks2, off, k + 1, out, p, ops.push(tk));
            },
            Token::RParen => {
                lemma_pop_to_lparen_floor(out, q, ops);
                let (o2, s2) = pop_to_lparen(out, ops)->Some_0;
                lemma_compile_wrapped(t, toks2, off, k + 1, o2, p, s2);
            },
            Token::Eof => {},
        }
    }
}

} // verus!
