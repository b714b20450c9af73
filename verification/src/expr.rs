use vstd::prelude::*;
use vstd::string::StringSliceAdditionalSpecFns;

use vstd::utf8::*;

use crate::compiler::{compile, compile_from, compile_spec, drain_ops, lemma_compile_wrapped, pop_for_op};
use crate::token::{no_eof, spec_apply, Op, Token};
use crate::lexer::{lemma_lex_wrapped, lex, lex_from, lex_spec, try_lex, wraps};
use crate::rpn::{eval_rpn, lemma_rpn_negated, rpn_from, rpn_spec, try_eval_rpn};
use crate::text::lemma_encode_ascii;
use crate::utf8_index::lemma_encode_concat;

verus! {

/// The value of the expression written in the UTF-8 bytes `b`: lexing,
/// conversion to reverse Polish notation, evaluation. `None` where
/// evaluating it panics.
pub open spec fn evaluate_spec(b: Seq<u8>) -> Option<Result<i64, &'static str>> {
    match lex_spec(b) {
        None => None,
        Some(toks) => match compile_spec(toks) {
            Err(e) => Some(Err(e)),
            Ok(rpn) => rpn_spec(rpn),
        },
    }
}

/// Evaluates `input`, or returns `None` on the inputs on which `evaluate` panics.
pub fn try_evaluate(input: &str) -> (r: Option<Result<i64, &'static str>>)
    ensures
        r == evaluate_spec(input.spec_bytes()),
{
    let toks = match try_lex(input) {
        Some(t) => t,
        None => {
            return None;
        },
    };
    let rpn = match compile(toks) {
        Ok(v) => v,
        Err(e) => {
            return Some(Err(e));
        },
    };
    try_eval_rpn(rpn.as_slice())
}

/// Evaluates an arithmetic expression over `i64`.
pub fn evaluate(input: &str) -> (r: Result<i64, &'static str>)
    requires
        evaluate_spec(input.spec_bytes()) is Some,
    ensures
        evaluate_spec(input.spec_bytes()) == Some(r),
{
    let toks = lex(input);
    let rpn = match compile(toks) {
        Ok(v) => v,
        Err(e) => {
            return Err(e);
        },
    };
    eval_rpn(rpn.as_slice())
}

/// The value of `x op y` in `i64`, or `None` where computing it panics.
pub open spec fn spec_eval2(op: Op, x: Option<i64>, y: Option<i64>) -> Option<i64> {
    match (x, y) {
        (Some(a), Some(b)) => spec_apply(Token::Op(op), a, b),
        _ => None,
    }
}

/// The outcome of an evaluation whose arithmetic gives `v`.
pub open spec fn value_outcome(v: Option<i64>) -> Option<Result<i64, &'static str>> {
    match v {
        Some(n) => Some(Ok(n)),
        None => None,
    }
}

/// The bytes of `s` with the ASCII text `pre` before them and `)` after
/// them: the prefix, the bytes, `)`, with characters starting at the same
/// places.
proof fn lemma_wrapped_bytes(pre: Seq<char>, s: Seq<char>)
    requires
        forall|k: int| 0 <= k < pre.len() ==> (#[trigger] pre[k] as u32) < 0x80,
    ensures
        encode_utf8(pre + s + seq![')']) == encode_utf8(pre) + encode_utf8(s) + seq![41u8],
        encode_utf8(pre).len() == pre.len(),
        wraps(encode_utf8(s), encode_utf8(pre + s + seq![')']), pre.len() as int),
    decreases pre.len(),
{
    let b = encode_utf8(s);
    let b2 = encode_utf8(pre + s + seq![')']);
    lemma_encode_ascii(')');
    lemma_encode_concat(pre, s);
    lemma_encode_concat(pre + s, seq![')']);
    if pre.len() > 0 {
        lemma_wrapped_bytes(pre.drop_last(), seq![pre.last()]);
        lemma_encode_concat(pre.drop_last(), seq![pre.last()]);
        assert(pre.drop_last() + seq![pre.last()] =~= pre);
        lemma_encode_ascii(pre.last());
    }
    let off = pre.len() as int;
    encode_utf8_valid_utf8(s);
    encode_utf8_valid_utf8(pre + s + seq![')']);
    is_char_boundary_start_end_of_seq(b);
    assert forall|i: int| 0 <= i <= b.len() implies is_char_boundary(b2, off + i)
        == #[trigger] is_char_boundary(b, i) by {
        if i < b.len() {
            assert(b2[off + i] == b[i]);
            is_char_boundary_iff_not_is_continuation_byte(b, i);
        } else {
            assert(b2[off + i] == 41);
        }
        is_char_boundary_iff_not_is_continuation_byte(b2, off + i);
    }
}

/// Evaluating tokens that an unknown character cut short: `0`.
proof fn lemma_evaluate_cut_short()
    ensures
        ({
            let toks = seq![Token::Num(0), Token::Eof];
            compile_spec(toks) == Ok::<Seq<Token>, &'static str>(seq![Token::Num(0)])
                && rpn_spec(seq![Token::Num(0)]) == Some(Ok::<i64, &'static str>(0))
        }),
{
    let toks = seq![Token::Num(0), Token::Eof];
    let e: Seq<Token> = Seq::empty();
    assert(e.push(Token::Num(0)) =~= seq![Token::Num(0)]);
    assert(compile_from(toks, 0, e, e) == compile_from(toks, 1, seq![Token::Num(0)], e));
    assert(drain_ops(seq![Token::Num(0)], e) == Ok::<Seq<Token>, &'static str>(seq![Token::Num(0)]));
    let st: Seq<i64> = Seq::empty();
    assert(st.push(0) =~= seq![0i64]);
    assert(rpn_from(seq![Token::Num(0)], 0, st) == rpn_from(seq![Token::Num(0)], 1, seq![0i64]));
}

/// Parentheses around a text that evaluates keep its value, and a minus
/// before them negates it (leaving out `i64::MIN`, whose negation
/// overflows).
pub proof fn lemma_parentheses_keep_value(s: Seq<char>, v: i64)
    requires
        evaluate_spec(encode_utf8(s)) == Some(Ok::<i64, &'static str>(v)),
    ensures
        evaluate_spec(encode_utf8(seq!['('] + s + seq![')'])) == Some(Ok::<i64, &'static str>(v)),
        v != i64::MIN ==> evaluate_spec(encode_utf8(seq!['-', '('] + s + seq![')'])) == Some(
            Ok::<i64, &'static str>((-v) as i64),
        ),
{
    let b = encode_utf8(s);
    let p1 = seq!['('];
    let p2 = seq!['-', '('];
    lemma_wrapped_bytes(p1, s);
    lemma_wrapped_bytes(p2, s);
    let b2 = encode_utf8(p1 + s + seq![')']);
    let b3 = encode_utf8(p2 + s + seq![')']);
    assert(encode_utf8(p1) =~= seq![40u8]) by {
        lemma_encode_ascii('(');
    }
    assert(encode_utf8(p2) =~= seq![45u8, 40u8]) by {
        lemma_encode_ascii('-');
        lemma_encode_ascii('(');
        lemma_encode_concat(seq!['-'], seq!['(']);
        assert(seq!['-'] + seq!['('] =~= p2);
    }
    assert(b2[0] == 40);
    assert(b3[0] == 45);
    assert(b3[1] == 40);
    let e: Seq<Token> = Seq::empty();
    let pt2 = seq![Token::LParen];
    let pt3 = seq![Token::Op(Op::Neg), Token::LParen];
    assert(e.push(Token::LParen) =~= pt2);
    assert(e.push(Token::Op(Op::Neg)).push(Token::LParen) =~= pt3);
    assert(pt2 + e =~= pt2);
    assert(pt3 + e =~= pt3);
    assert(lex_spec(b2) == lex_from(b2, 1, pt2));
    assert(lex_from(b3, 0, e) == lex_from(b3, 1, e.push(Token::Op(Op::Neg))));
    assert(lex_spec(b3) == lex_from(b3, 2, pt3));
    lemma_lex_wrapped(b, b2, 1, pt2, 0, e);
    lemma_lex_wrapped(b, b3, 2, pt3, 0, e);
    lemma_evaluate_cut_short();
    if lex_spec(b) == Some(seq![Token::Num(0), Token::Eof]) && lex_spec(b2) == lex_spec(b) {
        assert(v == 0);
    } else {
        let t = choose|t: Seq<Token>|
            #[trigger] no_eof(t) && lex_spec(b) == Some(e + t.push(Token::Eof)) && lex_spec(b2)
                == Some(pt2 + e + t + seq![Token::RParen, Token::Eof]);
        let te = t.push(Token::Eof);
        assert(e + te =~= te);
        let toks2 = pt2 + e + t + seq![Token::RParen, Token::Eof];
        assert(compile_spec(toks2) == compile_from(toks2, 1, e, e.push(Token::LParen)));
        assert(e.push(Token::LParen) + e =~= e.push(Token::LParen));
        lemma_compile_wrapped(t, toks2, 1, 0, e, e, e);
        let r = compile_spec(te)->Ok_0;
        assert(drain_ops(r, e) == Ok::<Seq<Token>, &'static str>(r));
    }
    if v != i64::MIN {
        if lex_spec(b) == Some(seq![Token::Num(0), Token::Eof]) && lex_spec(b3) == lex_spec(b) {
            assert(v == 0);
        } else {
            let t = choose|t: Seq<Token>|
                #[trigger] no_eof(t) && lex_spec(b) == Some(e + t.push(Token::Eof)) && lex_spec(b3)
                    == Some(pt3 + e + t + seq![Token::RParen, Token::Eof]);
            let te = t.push(Token::Eof);
            assert(e + te =~= te);
            let toks3 = pt3 + e + t + seq![Token::RParen, Token::Eof];
            let pn = seq![Token::Op(Op::Neg)];
            assert(pop_for_op(e, e, Token::Op(Op::Neg)) == (e, e));
            assert(e.push(Token::Op(Op::Neg)) =~= pn);
            assert(compile_spec(toks3) == compile_from(toks3, 1, e, pn));
            assert(compile_from(toks3, 1, e, pn) == compile_from(toks3, 2, e, pn.push(Token::LParen)));
            assert(pn.push(Token::LParen) + e =~= pn.push(Token::LParen));
            lemma_compile_wrapped(t, toks3, 2, 0, e, pn, e);
            let r = compile_spec(te)->Ok_0;
            assert(pn.drop_last() =~= e);
            assert(drain_ops(r, pn) == drain_ops(r.push(Token::Op(Op::Neg)), e));
            lemma_rpn_negated(r, v);
        }
    }
}

} // verus!
