use vstd::prelude::*;

use crate::token::{checked_apply, is_binary, spec_apply, Op, Token};

verus! {

/// Number of values the evaluation stack holds.
pub const STACK_CAPACITY: usize = 256;

/// Evaluation of `rpn[k..]` with the value stack `st` (top last).
/// `None` where the evaluator panics: a stack deeper than `STACK_CAPACITY`,
/// a division by zero, or a result outside `i64`.
pub open spec fn rpn_from(rpn: Seq<Token>, k: int, st: Seq<i64>) -> Option<Result<i64, &'static str>>
    decreases rpn.len() - k,
{
    if k < 0 || k >= rpn.len() {
        if st.len() != 1 {
            Some(Err("malformed expression"))
        } else {
            Some(Ok(st[0]))
        }
    } else {
        let t = rpn[k];
        match t {
            Token::Num(n) => {
                if st.len() >= STACK_CAPACITY {
                    None
                } else {
                    rpn_from(rpn, k + 1, st.push(n))
                }
            },
            Token::Op(Op::Neg) => {
                if st.len() < 1 {
                    Some(Err("stack underflow"))
                } else if st.last() == i64::MIN {
                    None
                } else {
                    rpn_from(rpn, k + 1, st.drop_last().push((-st.last()) as i64))
                }
            },
            _ => {
                if !is_binary(t) {
                    Some(Err("unexpected token in RPN"))
                } else if st.len() < 2 {
                    Some(Err("stack underflow"))
                } else {
                    let b = st.last();
                    let a = st[st.len() - 2];
                    match spec_apply(t, a, b) {
                        None => None,
                        Some(v) => rpn_from(rpn, k + 1, st.subrange(0, st.len() - 2).push(v)),
                    }
                }
            },
        }
    }
}

/// The value of a reverse Polish token sequence; `None` where evaluating it panics.
pub open spec fn rpn_spec(rpn: Seq<Token>) -> Option<Result<i64, &'static str>> {
    rpn_from(rpn, 0, Seq::empty())
}

/// Running `rpn[k..]` on the stack `st` without the final check on the
/// stack: the stack it leaves, an error, or `None` where it panics.
pub open spec fn rpn_run(rpn: Seq<Token>, k: int, st: Seq<i64>) -> Option<
    Result<Seq<i64>, &'static str>,
>
    decreases rpn.len() - k,
{
    if k < 0 || k >= rpn.len() {
        Some(Ok(st))
    } else {
        let t = rpn[k];
        match t {
            Token::Num(n) => {
                if st.len() >= STACK_CAPACITY {
                    None
                } else {
                    rpn_run(rpn, k + 1, st.push(n))
                }
            },
            Token::Op(Op::Neg) => {
                if st.len() < 1 {
                    Some(Err("stack underflow"))
                } else if st.last() == i64::MIN {
                    None
                } else {
                    rpn_run(rpn, k + 1, st.drop_last().push((-st.last()) as i64))
                }
            },
            _ => {
                if !is_binary(t) {
                    Some(Err("unexpected token in RPN"))
                } else if st.len() < 2 {
                    Some(Err("stack underflow"))
                } else {
                    match spec_apply(t, st[st.len() - 2], st.last()) {
                        None => None,
                        Some(v) => rpn_run(rpn, k + 1, st.subrange(0, st.len() - 2).push(v)),
                    }
                }
            },
        }
    }
}

/// The deepest the stack gets while `rpn[k..]` runs on `st`.
pub open spec fn rpn_peak(rpn: Seq<Token>, k: int, st: Seq<i64>) -> nat
    decreases rpn.len() - k,
{
    if k < 0 || k >= rpn.len() {
        st.len()
    } else {
        let t = rpn[k];
        let next = match t {
            Token::Num(n) => rpn_peak(rpn, k + 1, st.push(n)),
            Token::Op(Op::Neg) => if st.len() >= 1 && st.last() != i64::MIN {
                rpn_peak(rpn, k + 1, st.drop_last().push((-st.last()) as i64))
            } else {
                0
            },
            _ => if is_binary(t) && st.len() >= 2 && spec_apply(t, st[st.len() - 2], st.last()) is Some {
                rpn_peak(rpn, k + 1, st.subrange(0, st.len() - 2).push(
                    spec_apply(t, st[st.len() - 2], st.last())->Some_0,
                ))
            } else {
                0
            },
        };
        if next >= st.len() {
            next
        } else {
            st.len()
        }
    }
}

/// `rpn_from` is `rpn_run` followed by the check that one value is left.
pub proof fn lemma_rpn_from_run(rpn: Seq<Token>, k: int, st: Seq<i64>)
    ensures
        rpn_from(rpn, k, st) == match rpn_run(rpn, k, st) {
            None => None,
            Some(Err(e)) => Some(Err(e)),
            Some(Ok(s)) => if s.len() != 1 {
                Some(Err("malformed expression"))
            } else {
                Some(Ok(s[0]))
            },
        },
    decreases rpn.len() - k,
{
    if 0 <= k < rpn.len() {
        let t = rpn[k];
        match t {
            Token::Num(n) => {
                lemma_rpn_from_run(rpn, k + 1, st.push(n));
            },
            Token::Op(Op::Neg) => {
                if st.len() >= 1 {
                    lemma_rpn_from_run(rpn, k + 1, st.drop_last().push((-st.last()) as i64));
                }
            },
            _ => {
                if is_binary(t) && st.len() >= 2 {
                    if let Some(v) = spec_apply(t, st[st.len() - 2], st.last()) {
                        lemma_rpn_from_run(rpn, k + 1, st.subrange(0, st.len() - 2).push(v));
                    }
                }
            },
        }
    }
}

/// Running a segment `x` that stands in `rpn` at `off`: first `x`, then
/// what follows it.
pub proof fn lemma_rpn_run_segment(rpn: Seq<Token>, off: int, x: Seq<Token>, k: int, st: Seq<i64>)
    requires
        0 <= off,
        0 <= k <= x.len(),
        off + x.len() <= rpn.len(),
        forall|i: int| 0 <= i < x.len() ==> rpn[off + i] == #[trigger] x[i],
    ensures
        rpn_run(rpn, off + k, st) == match rpn_run(x, k, st) {
            Some(Ok(s)) => rpn_run(rpn, off + x.len(), s),
            other => other,
        },
    decreases x.len() - k,
{
    if k < x.len() {
        assert(rpn[off + k] == x[k]);
        let t = x[k];
        match t {
            Token::Num(n) => {
                lemma_rpn_run_segment(rpn, off, x, k + 1, st.push(n));
            },
            Token::Op(Op::Neg) => {
                if st.len() >= 1 {
                    lemma_rpn_run_segment(rpn, off, x, k + 1, st.drop_last().push((-st.last()) as i64));
                }
            },
            _ => {
                if is_binary(t) && st.len() >= 2 {
                    if let Some(v) = spec_apply(t, st[st.len() - 2], st.last()) {
                        lemma_rpn_run_segment(rpn, off, x, k + 1, st.subrange(0, st.len() - 2).push(v));
                    }
                }
            },
        }
    }
}

/// A run that succeeds on `st` succeeds the same way with `pre` beneath,
/// when the deeper stack still fits `STACK_CAPACITY`.
pub proof fn lemma_rpn_run_shift(rpn: Seq<Token>, k: int, pre: Seq<i64>, st: Seq<i64>)
    requires
        rpn_run(rpn, k, st) is Some,
        rpn_run(rpn, k, st)->Some_0 is Ok,
        pre.len() + rpn_peak(rpn, k, st) <= STACK_CAPACITY,
    ensures
        rpn_run(rpn, k, pre + st) == Some(Ok::<Seq<i64>, &'static str>(pre + (rpn_run(rpn, k, st)->Some_0->Ok_0))),
    decreases rpn.len() - k,
{
    if 0 <= k < rpn.len() {
        let t = rpn[k];
        let s2 = pre + st;
        match t {
            Token::Num(n) => {
                assert(s2.push(n) =~= pre + st.push(n));
                lemma_rpn_run_shift(rpn, k + 1, pre, st.push(n));
            },
            Token::Op(Op::Neg) => {
                let w = st.drop_last().push((-st.last()) as i64);
                assert(s2.last() == st.last());
                assert(s2.drop_last().push((-s2.last()) as i64) =~= pre + w);
                lemma_rpn_run_shift(rpn, k + 1, pre, w);
            },
            _ => {
                let v = spec_apply(t, st[st.len() - 2], st.last())->Some_0;
                let w = st.subrange(0, st.len() - 2).push(v);
                assert(s2.last() == st.last());
                assert(s2[s2.len() - 2] == st[st.len() - 2]);
                assert(s2.subrange(0, s2.len() - 2).push(v) =~= pre + w);
                lemma_rpn_run_shift(rpn, k + 1, pre, w);
            },
        }
    } else {
        assert(pre + st == pre + st);
    }
}

/// Two reverse Polish sequences that evaluate to `a` and `b`, followed by
/// `+`, evaluate to `a + b` (when it fits `i64` and `y` never needs more
/// than `STACK_CAPACITY - 1` places).
pub proof fn lemma_rpn_concat_add(x: Seq<Token>, y: Seq<Token>, a: i64, b: i64)
    requires
        rpn_spec(x) == Some(Ok::<i64, &'static str>(a)),
        rpn_spec(y) == Some(Ok::<i64, &'static str>(b)),
        rpn_peak(y, 0, Seq::empty()) < STACK_CAPACITY,
        i64::MIN <= a + b <= i64::MAX,
    ensures
        rpn_spec(x + y + seq![Token::Op(Op::Add)]) == Some(Ok::<i64, &'static str>((a + b) as i64)),
{
    let e: Seq<i64> = Seq::empty();
    let r = x + y + seq![Token::Op(Op::Add)];
    lemma_rpn_from_run(x, 0, e);
    lemma_rpn_from_run(y, 0, e);
    let sa = rpn_run(x, 0, e)->Some_0->Ok_0;
    let sb = rpn_run(y, 0, e)->Some_0->Ok_0;
    assert(sa =~= seq![a]);
    assert(sb =~= seq![b]);
    assert forall|i: int| 0 <= i < x.len() implies r[0 + i] == #[trigger] x[i] by {}
    lemma_rpn_run_segment(r, 0, x, 0, e);
    assert forall|i: int| 0 <= i < y.len() implies r[x.len() + i] == #[trigger] y[i] by {}
    lemma_rpn_run_segment(r, x.len() as int, y, 0, sa);
    lemma_rpn_run_shift(y, 0, sa, e);
    assert(sa + e =~= sa);
    let s2 = sa + sb;
    assert(s2 =~= seq![a, b]);
    let n = (x.len() + y.len()) as int;
    assert(r[n] == Token::Op(Op::Add));
    assert(s2.subrange(0, 0).push((a + b) as i64) =~= seq![(a + b) as i64]);
    assert(rpn_run(r, n, s2) == rpn_run(r, n + 1, seq![(a + b) as i64]));
    lemma_rpn_from_run(r, 0, e);
}

/// A reverse Polish sequence that evaluates to `v`, followed by a unary
/// minus, evaluates to `-v` (when `v` is not `i64::MIN`).
pub proof fn lemma_rpn_negated(x: Seq<Token>, v: i64)
    requires
        rpn_spec(x) == Some(Ok::<i64, &'static str>(v)),
        v != i64::MIN,
    ensures
        rpn_spec(x.push(Token::Op(Op::Neg))) == Some(Ok::<i64, &'static str>((-v) as i64)),
{
    let e: Seq<i64> = Seq::empty();
    let r = x.push(Token::Op(Op::Neg));
    lemma_rpn_from_run(x, 0, e);
    let sa = rpn_run(x, 0, e)->Some_0->Ok_0;
    assert(sa =~= seq![v]);
    assert forall|i: int| 0 <= i < x.len() implies r[0 + i] == #[trigger] x[i] by {}
    lemma_rpn_run_segment(r, 0, x, 0, e);
    let n = x.len() as int;
    assert(r[n] == Token::Op(Op::Neg));
    assert(sa.drop_last().push((-sa.last()) as i64) =~= seq![(-v) as i64]);
    assert(rpn_run(r, n, sa) == rpn_run(r, n + 1, seq![(-v) as i64]));
    lemma_rpn_from_run(r, 0, e);
}

/// Evaluates reverse Polish tokens, or returns `None` on the inputs on which
/// `eval_rpn` panics.
pub fn try_eval_rpn(rpn: &[Token]) -> (r: Option<Result<i64, &'static str>>)
    ensures
        r == rpn_spec(rpn@),
{
    let mut st: Vec<i64> = Vec::new();
    let n = rpn.len();
    let mut k: usize = 0;
    while k < n
        invariant
            n == rpn@.len(),
            k <= n,
            st.len() <= STACK_CAPACITY,
            rpn_from(rpn@, k as int, st@) == rpn_spec(rpn@),
        decreases n - k,
    {
        let t = rpn[k];
        match t {
            Token::Num(v) => {
                if st.len() >= STACK_CAPACITY {
                    return None;
                }
                st.push(v);
            },
            Token::Op(Op::Neg) => {
                let len = st.len();
                if len < 1 {
                    return Some(Err("stack underflow"));
                }
                let top = st[len - 1];
                if top == i64::MIN {
                    return None;
                }
                let ghost before = st@;
                st.set(len - 1, -top);
                proof {
                    assert(st@ =~= before.drop_last().push((-top) as i64));
                }
            },
            Token::Op(Op::Add) | Token::Op(Op::Sub) | Token::Op(Op::Mul) | Token::Op(Op::Div) => {
                let len = st.len();
                if len < 2 {
                    return Some(Err("stack underflow"));
                }
                let b = st[len - 1];
                let a = st[len - 2];
                let ghost before = st@;
                let v = match checked_apply(t, a, b) {
                    Some(v) => v,
                    None => {
                        return None;
                    },
                };
                st.pop();
                st.pop();
                st.push(v);
                proof {
                    assert(st@ =~= before.subrange(0, before.len() - 2).push(v));
                }
            },
            _ => {
                return Some(Err("unexpected token in RPN"));
            },
        }
        k += 1;
    }
    if st.len() != 1 {
        return Some(Err("malformed expression"));
    }
    Some(Ok(st[0]))
}

/// Evaluates reverse Polish tokens on a stack of `STACK_CAPACITY` values.
pub fn eval_rpn(rpn: &[Token]) -> (r: Result<i64, &'static str>)
    requires
        rpn_spec(rpn@) is Some,
    ensures
        rpn_spec(rpn@) == Some(r),
{
    match try_eval_rpn(rpn) {
        Some(r) => r,
        None => {
            assert(false);
            Err("stack underflow")
        },
    }
}

} // verus!
