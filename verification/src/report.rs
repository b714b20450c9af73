use vstd::prelude::*;
use vstd::string::*;
use vstd::utf8::{encode_utf8, encode_utf8_valid_utf8, is_ascii_chars};

use crate::expr::{evaluate, evaluate_spec};
use crate::digits::{
    decimal_bytes, digits_value, is_digit, lemma_decimal_bytes, lemma_digits_value_nonneg,
    lemma_digits_value_shift, parse_i64_spec, unsigned_part,
};
use crate::expr::{spec_eval2, value_outcome};
use crate::grammar::{arith, depth, lemma_evaluate_expr, level, render, tokens, wf, Expr};
use crate::lexer::{lemma_digit_run_end_exact, lemma_lex_space_between, lex_from, lex_spec, minus_is_unary};
use crate::fast::{fast_two_scan, fast_two_spec, lemma_number_run_end_exact, number_run_end, op_of_byte, scan_two, skip_ws, is_ascii_ws};
use crate::text::{
    int_decimal, lemma_decimal_reads_back, lemma_encode_ascii, lemma_encode_nat_decimal, nat_decimal,
    push_i64, trim, trim_chars,
};
use crate::utf8_index::lemma_encode_concat;
use crate::token::{fmt_op, is_binary, op_symbol, spec_apply, Op, Token};

verus! {

/// Whether `b` is exactly two numbers around one operator, as
/// `fast_two_scan` reads it, with nothing after the second number.
pub open spec fn is_two_operand(b: Seq<u8>) -> bool {
    fast_two_scan(b) matches Some((_, _, _, e)) && e == b.len()
}

/// Whether `b` holds no form feed: the one byte that `fast_two_scan` skips
/// as white space and the lexer does not.
pub open spec fn no_form_feed(b: Seq<u8>) -> bool {
    forall|k: int| 0 <= k < b.len() ==> #[trigger] b[k] != 12
}

/// Whether the answer to `b` is written in the normalised form `a op b`:
/// `b` is exactly two numbers around one operator, separated by white space
/// that the lexer skips too.
pub open spec fn shows_equation(b: Seq<u8>) -> bool {
    is_two_operand(b) && no_form_feed(b)
}

/// The line printed for the outcome of evaluating the expression `s`:
/// for a value `n`, the expression and ` = n`, where an expression that is
/// exactly `a op b` (see `shows_equation`) is written as `a op b` with
/// single spaces; for an error, `error: ` and the message.
pub open spec fn outcome_text(s: Seq<char>, outcome: Result<i64, &'static str>) -> Seq<char> {
    let b = encode_utf8(s);
    match outcome {
        Ok(n) => if shows_equation(b) {
            let (x, op, y, _) = fast_two_scan(b)->Some_0;
            int_decimal(x as int) + " "@ + op_symbol(op) + " "@ + int_decimal(y as int) + " = "@
                + int_decimal(n as int)
        } else {
            s + " = "@ + int_decimal(n as int)
        },
        Err(e) => "error: "@ + e@,
    }
}

/// Whether `b` holds a form feed.
fn has_form_feed(b: &[u8]) -> (r: bool)
    ensures
        r == !no_form_feed(b@),
{
    let mut k: usize = 0;
    while k < b.len()
        invariant
            k <= b@.len(),
            forall|j: int| 0 <= j < k ==> b@[j] != 12,
        decreases b@.len() - k,
    {
        if b[k] == 12 {
            return true;
        }
        k += 1;
    }
    false
}

/// Renders the outcome of evaluating `exp` as a line of text.
pub fn format_outcome(exp: &str, outcome: Result<i64, &'static str>) -> (r: String)
    ensures
        r@ == outcome_text(exp@, outcome),
{
    let mut s = String::new();
    match outcome {
        Ok(n) => {
            let whole = match scan_two(exp) {
                Some((a, op, b, e)) => if e == exp.as_bytes().len() && !has_form_feed(exp.as_bytes()) {
                    Some((a, op, b))
                } else {
                    None
                },
                None => None,
            };
            match whole {
                Some((a, op, b)) => {
                    push_i64(&mut s, a);
                    s.append(" ");
                    s.append(fmt_op(op));
                    s.append(" ");
                    push_i64(&mut s, b);
                },
                None => {
                    s.append(exp);
                },
            }
            s.append(" = ");
            push_i64(&mut s, n);
        },
        Err(e) => {
            s.append("error: ");
            s.append(e);
        },
    }
    proof {
        assert(s@ =~= outcome_text(exp@, outcome));
    }
    s
}

/// Whether computing the answer to `input` stays clear of the inputs on
/// which evaluation panics.
pub open spec fn calculate_defined(input: Seq<char>) -> bool {
    let t = trim_chars(input);
    t.len() == 0 || evaluate_spec(encode_utf8(t)) is Some
}

/// The answer shown for `input`.
pub open spec fn calculate_spec(input: Seq<char>) -> Seq<char> {
    let t = trim_chars(input);
    if t.len() == 0 {
        "Enter an expression"@
    } else {
        outcome_text(t, evaluate_spec(encode_utf8(t))->Some_0)
    }
}

/// Evaluates `input` and renders the answer as one line.
pub fn calculate(input: &str) -> (r: String)
    requires
        calculate_defined(input@),
    ensures
        r@ == calculate_spec(input@),
{
    let exp = trim(input);
    if exp.is_empty() {
        return String::from_str("Enter an expression");
    }
    let outcome = evaluate(exp);
    format_outcome(exp, outcome)
}

/// The bytes of a printed `i64`: digits, after a `-` for a negative one.
proof fn lemma_printed_bytes(n: i64)
    ensures
        encode_utf8(int_decimal(n as int)).len() >= 1,
        forall|k: int|
            0 <= k < encode_utf8(int_decimal(n as int)).len() ==> (is_digit(
                #[trigger] encode_utf8(int_decimal(n as int))[k],
            ) || encode_utf8(int_decimal(n as int))[k] == 45),
        parse_i64_spec(encode_utf8(int_decimal(n as int))) == Some(n),
{
    lemma_decimal_reads_back(n);
    let b = encode_utf8(int_decimal(n as int));
    if n < 0 {
        let m = (-n) as nat;
        lemma_encode_nat_decimal(m);
        lemma_decimal_bytes(m);
        lemma_encode_ascii('-');
        lemma_encode_concat(seq!['-'], nat_decimal(m));
        assert(b == seq![45u8] + decimal_bytes(m));
        assert forall|k: int| 0 <= k < b.len() implies (is_digit(#[trigger] b[k]) || b[k] == 45) by {
            if k > 0 {
                assert(b[k] == decimal_bytes(m)[k - 1]);
            }
        }
    } else {
        lemma_encode_nat_decimal(n as nat);
        lemma_decimal_bytes(n as nat);
    }
}

/// A line `a op b` as `format_outcome` prints one (single spaces around the
/// operator) reads back, whole, as `a`, `op` and `b`.
pub proof fn lemma_two_operand_reads_back(a: i64, op: Op, b: i64)
    requires
        is_binary(Token::Op(op)),
    ensures
        fast_two_scan(
            encode_utf8(int_decimal(a as int) + seq![' '] + op_symbol(op) + seq![' '] + int_decimal(
                b as int,
            )),
        ) == Some(
            (
                a,
                op,
                b,
                encode_utf8(int_decimal(a as int) + seq![' '] + op_symbol(op) + seq![' '] + int_decimal(
                    b as int,
                )).len() as int,
            ),
        ),
        no_form_feed(
            encode_utf8(int_decimal(a as int) + seq![' '] + op_symbol(op) + seq![' '] + int_decimal(
                b as int,
            )),
        ),
{
    let da = int_decimal(a as int);
    let db = int_decimal(b as int);
    let sym = op_symbol(op);
    let ea = encode_utf8(da);
    let eb = encode_utf8(db);
    lemma_printed_bytes(a);
    lemma_printed_bytes(b);
    lemma_encode_ascii(' ');
    lemma_encode_ascii(sym[0]);
    assert(sym =~= seq![sym[0]]);
    let ob = ((sym[0] as u32) as u8);
    lemma_encode_concat(da, seq![' ']);
    lemma_encode_concat(da + seq![' '], sym);
    lemma_encode_concat(da + seq![' '] + sym, seq![' ']);
    lemma_encode_concat(da + seq![' '] + sym + seq![' '], db);
    let bs = encode_utf8(da + seq![' '] + sym + seq![' '] + db);
    assert(bs =~= ea + seq![32u8] + seq![ob] + seq![32u8] + eb);
    let la = ea.len() as int;
    let n = bs.len() as int;
    assert(op_of_byte(ob) == Some(op));
    assert(bs[0] == ea[0]);
    assert(skip_ws(bs, 0) == 0);
    assert forall|k: int| 0 <= k < la implies (is_digit(#[trigger] bs[k]) || bs[k] == 45) by {
        assert(bs[k] == ea[k]);
    }
    lemma_number_run_end_exact(bs, 0, la);
    assert(bs.subrange(0, la) =~= ea);
    assert(bs[la] == 32u8);
    assert(bs[la + 1] == ob);
    assert(skip_ws(bs, la + 1) == la + 1);
    assert(skip_ws(bs, la) == la + 1);
    assert(bs[la + 2] == 32u8);
    assert(bs[la + 3] == eb[0]);
    assert(skip_ws(bs, la + 3) == la + 3);
    assert(skip_ws(bs, la + 2) == la + 3);
    assert forall|k: int| la + 3 <= k < n implies (is_digit(#[trigger] bs[k]) || bs[k] == 45) by {
        assert(bs[k] == eb[k - la - 3]);
    }
    lemma_number_run_end_exact(bs, la + 3, n);
    assert(bs.subrange(la + 3, n) =~= eb);
    assert forall|k: int| 0 <= k < n implies #[trigger] bs[k] != 12 by {
        if k < la {
            assert(bs[k] == ea[k]);
        } else if k >= la + 3 {
            assert(bs[k] == eb[k - la - 3]);
        }
    }
}

/// `fast_two` recognises every line `a op b` written with single spaces,
/// whatever the two numbers and the binary operator, and gives back exactly
/// those numbers and that operator.
pub proof fn lemma_fast_two_reads_printed(a: i64, op: Op, b: i64)
    requires
        is_binary(Token::Op(op)),
    ensures
        fast_two_spec(
            encode_utf8(int_decimal(a as int) + seq![' '] + op_symbol(op) + seq![' '] + int_decimal(
                b as int,
            )),
        ) == Some((a, op, b)),
{
    lemma_two_operand_reads_back(a, op, b);
}

/// The expression a printed `i64` reads as: a numeral, after a unary minus
/// for a negative number.
pub open spec fn numeral_expr(n: i64) -> Expr {
    if n < 0 {
        Expr::Neg(Box::new(Expr::Num((-n) as nat)))
    } else {
        Expr::Num(n as nat)
    }
}

proof fn lemma_numeral_expr(n: i64)
    requires
        n != i64::MIN,
    ensures
        wf(numeral_expr(n)),
        level(numeral_expr(n)) >= 3,
        encode_utf8(int_decimal(n as int)) == render(numeral_expr(n)),
        is_ascii_chars(int_decimal(n as int)),
        depth(numeral_expr(n)) == 1,
        arith(numeral_expr(n)) == Some(n),
{
    lemma_printed_bytes(n);
    let c = int_decimal(n as int);
    let b = encode_utf8(c);
    encode_utf8_valid_utf8(c);
    if n < 0 {
        let m = (-n) as nat;
        lemma_encode_nat_decimal(m);
        lemma_encode_ascii('-');
        lemma_encode_concat(seq!['-'], nat_decimal(m));
        assert(b == seq![45u8] + decimal_bytes(m));
        let x = Expr::Num(m);
        assert(render(x) == decimal_bytes(m));
        assert(render(Expr::Neg(Box::new(x))) == seq![45u8] + render(x));
        assert(wf(x));
        assert(wf(Expr::Neg(Box::new(x))));
        assert(arith(x) == Some(m as i64));
        assert((m as i64) != i64::MIN);
        assert((-(m as i64)) as i64 == n);
        assert(arith(Expr::Neg(Box::new(x))) == Some(n));
        assert(depth(x) == 1);
        assert(depth(Expr::Neg(Box::new(x))) == 1);
        assert(b =~= render(numeral_expr(n)));
        lemma_nat_decimal_ascii(m);
        assert(c =~= seq!['-'] + nat_decimal(m));
        assert forall|i: int| 0 <= i < c.len() implies '\0' <= #[trigger] c[i] <= '\u{7f}' by {
            if i > 0 {
                assert(c[i] == nat_decimal(m)[i - 1]);
            }
        }
    } else {
        lemma_encode_nat_decimal(n as nat);
        lemma_nat_decimal_ascii(n as nat);
    }
}

proof fn lemma_nat_decimal_ascii(n: nat)
    ensures
        is_ascii_chars(nat_decimal(n)),
    decreases n,
{
    if n >= 10 {
        lemma_nat_decimal_ascii(n / 10);
        let d = nat_decimal(n);
        assert forall|i: int| 0 <= i < d.len() implies '\0' <= #[trigger] d[i] <= '\u{7f}' by {
            if i < d.len() - 1 {
                assert(d[i] == nat_decimal(n / 10)[i]);
            }
        }
    }
}

/// A printed two-operand line `a op b` (single spaces) evaluates to
/// `a op b` computed in `i64`, so the equation `a op b = n` that
/// `format_outcome` prints for it holds; `i64::MIN` is left out, as its
/// numeral is too large for the lexer.
pub proof fn lemma_printed_equation_holds(a: i64, op: Op, b: i64)
    requires
        is_binary(Token::Op(op)),
        a != i64::MIN,
        b != i64::MIN,
    ensures
        evaluate_spec(
            encode_utf8(int_decimal(a as int) + seq![' '] + op_symbol(op) + seq![' '] + int_decimal(
                b as int,
            )),
        ) == value_outcome(spec_eval2(op, Some(a), Some(b))),
{
    let da = int_decimal(a as int);
    let db = int_decimal(b as int);
    let sym = op_symbol(op);
    let sp = seq![' '];
    lemma_numeral_expr(a);
    lemma_numeral_expr(b);
    assert(sym =~= seq![sym[0]]);
    lemma_encode_ascii(sym[0]);
    lemma_encode_ascii(' ');
    let rest = sym + sp + db;
    assert(is_ascii_chars(sym));
    assert(is_ascii_chars(sp));
    assert(is_ascii_chars(rest));
    assert(rest[0] == sym[0]);
    lemma_lex_space_between(da, rest);
    assert(da + sp + rest =~= da + sp + sym + sp + db);
    let left = da + sym;
    assert(is_ascii_chars(left));
    assert(left.last() == sym[0]);
    lemma_lex_space_between(left, db);
    assert(da + rest =~= left + sp + db);
    let e = Expr::Bin(op, Box::new(numeral_expr(a)), Box::new(numeral_expr(b)));
    assert(wf(e));
    lemma_encode_concat(da, sym);
    lemma_encode_concat(left, db);
    assert(encode_utf8(left + db) =~= render(e));
    lemma_evaluate_expr(e);
}

proof fn lemma_skip_ws_range(b: Seq<u8>, i: int)
    requires
        0 <= i <= b.len(),
    ensures
        i <= skip_ws(b, i) <= b.len(),
    decreases b.len() - i,
{
    if i < b.len() && is_ascii_ws(b[i]) {
        lemma_skip_ws_range(b, i + 1);
    }
}

proof fn lemma_number_run_stops(b: Seq<u8>, i: int)
    requires
        0 <= i <= b.len(),
    ensures
        i <= number_run_end(b, i) <= b.len(),
        number_run_end(b, i) == b.len() || !(is_digit(b[number_run_end(b, i)]) || b[number_run_end(
            b,
            i,
        )] == 45),
        forall|k: int| i <= k < number_run_end(b, i) ==> (is_digit(#[trigger] b[k]) || b[k] == 45),
    decreases b.len() - i,
{
    if i < b.len() && (is_digit(b[i]) || b[i] == 45) {
        lemma_number_run_stops(b, i + 1);
    }
}

/// Without form feeds, the white space `fast_two_scan` skips is white
/// space the lexer skips.
proof fn lemma_lex_skip_ws(b: Seq<u8>, i: int, acc: Seq<Token>)
    requires
        0 <= i <= b.len(),
        no_form_feed(b),
    ensures
        lex_from(b, i, acc) == lex_from(b, skip_ws(b, i), acc),
    decreases b.len() - i,
{
    if i < b.len() && is_ascii_ws(b[i]) {
        assert(b[i] != 12);
        lemma_lex_skip_ws(b, i + 1, acc);
    }
}

/// The expression a signed numeral `d` (a `-` or not, then digits) reads as.
pub open spec fn signed_expr(d: Seq<u8>) -> Expr {
    let u = unsigned_part(d);
    let m = digits_value(u, 0, u.len() as int);
    if d[0] == 45 {
        Expr::Neg(Box::new(Expr::Num(m as nat)))
    } else {
        Expr::Num(m as nat)
    }
}

/// Lexing a signed numeral that `fast_two_scan` reads: a unary minus for a
/// leading `-`, then the number; or a panic where the number is too large.
proof fn lemma_lex_signed(b: Seq<u8>, s: int, acc: Seq<Token>)
    requires
        0 <= s <= b.len(),
        parse_i64_spec(b.subrange(s, number_run_end(b, s))) is Some,
        minus_is_unary(acc),
    ensures
        ({
            let e = number_run_end(b, s);
            let d = b.subrange(s, e);
            let u = unsigned_part(d);
            let m = digits_value(u, 0, u.len() as int);
            &&& lex_from(b, s, acc) == if m <= i64::MAX {
                lex_from(b, e, acc + tokens(signed_expr(d)))
            } else {
                None
            }
            &&& m <= i64::MAX ==> {
                &&& wf(signed_expr(d))
                &&& level(signed_expr(d)) >= 3
                &&& depth(signed_expr(d)) == 1
                &&& arith(signed_expr(d)) == parse_i64_spec(d)
                &&& tokens(signed_expr(d)).last() is Num
            }
        }),
{
    let e = number_run_end(b, s);
    lemma_number_run_stops(b, s);
    let d = b.subrange(s, e);
    let u = unsigned_part(d);
    let m = digits_value(u, 0, u.len() as int);
    assert(d.len() > 0);
    assert(d[0] != 43);
    lemma_digits_value_nonneg(u, 0, u.len() as int);
    let x = Expr::Num(m as nat);
    if d[0] == 45 {
        assert(b[s] == 45);
        let acc1 = acc.push(Token::Op(Op::Neg));
        assert(lex_from(b, s, acc) == lex_from(b, s + 1, acc1));
        assert forall|k: int| s + 1 <= k < e implies is_digit(#[trigger] b[k]) by {
            assert(b[k] == u[k - s - 1]);
        }
        lemma_digit_run_end_exact(b, s + 1, e);
        assert forall|k: int| 0 <= k < e - (s + 1) implies b[(s + 1) + k] == u[k] by {}
        lemma_digits_value_shift(b, u, s + 1, e);
        assert(b[s + 1] == u[0]);
        if m <= i64::MAX {
            assert(lex_from(b, s + 1, acc1) == lex_from(b, e, acc1.push(Token::Num(m as i64))));
            let se = Expr::Neg(Box::new(x));
            assert(signed_expr(d) == se);
            assert(tokens(x) == seq![Token::Num(m as i64)]);
            assert(tokens(se) == seq![Token::Op(Op::Neg)] + tokens(x));
            assert(acc1.push(Token::Num(m as i64)) =~= acc + tokens(signed_expr(d)));
            assert(wf(x));
            assert(depth(x) == 1);
            assert(arith(x) == Some(m as i64));
        }
    } else {
        assert(u == d);
        assert forall|k: int| s <= k < e implies is_digit(#[trigger] b[k]) by {
            assert(b[k] == u[k - s]);
        }
        lemma_digit_run_end_exact(b, s, e);
        assert forall|k: int| 0 <= k < e - s implies b[s + k] == u[k] by {}
        lemma_digits_value_shift(b, u, s, e);
        assert(b[s] == u[0]);
        if m <= i64::MAX {
            assert(acc.push(Token::Num(m as i64)) =~= acc + tokens(signed_expr(d)));
        }
    }
}

/// When the answer to `b` is written as the equation `a op b = n`, the
/// equation holds: `n` is `a op b` computed in `i64`.
pub proof fn lemma_shown_equation_holds(b: Seq<u8>)
    requires
        shows_equation(b),
    ensures
        ({
            let (x, op, y, _) = fast_two_scan(b)->Some_0;
            evaluate_spec(b) matches Some(Ok(n)) ==> spec_apply(Token::Op(op), x, y) == Some(n)
        }),
{
    let (x, op, y, _) = fast_two_scan(b)->Some_0;
    let s1 = skip_ws(b, 0);
    lemma_skip_ws_range(b, 0);
    let e1 = number_run_end(b, s1);
    lemma_number_run_stops(b, s1);
    let o = skip_ws(b, e1);
    lemma_skip_ws_range(b, e1);
    let s2 = skip_ws(b, o + 1);
    lemma_skip_ws_range(b, o + 1);
    let e2 = number_run_end(b, s2);
    lemma_number_run_stops(b, s2);
    let empty: Seq<Token> = Seq::empty();
    lemma_lex_skip_ws(b, 0, empty);
    let d1 = b.subrange(s1, e1);
    let u1 = unsigned_part(d1);
    let m1 = digits_value(u1, 0, u1.len() as int);
    lemma_lex_signed(b, s1, empty);
    if m1 <= i64::MAX {
        let a = signed_expr(d1);
        let acc1 = empty + tokens(a);
        lemma_lex_skip_ws(b, e1, acc1);
        assert(acc1.last() == tokens(a).last());
        let acc2 = acc1.push(Token::Op(op));
        assert(lex_from(b, o, acc1) == lex_from(b, o + 1, acc2));
        lemma_lex_skip_ws(b, o + 1, acc2);
        let d2 = b.subrange(s2, e2);
        let u2 = unsigned_part(d2);
        let m2 = digits_value(u2, 0, u2.len() as int);
        lemma_lex_signed(b, s2, acc2);
        if m2 <= i64::MAX {
            let c = signed_expr(d2);
            let e = Expr::Bin(op, Box::new(a), Box::new(c));
            assert(wf(e));
            assert(acc2 + tokens(c) =~= tokens(e));
            assert(lex_spec(b) == Some(tokens(e).push(Token::Eof)));
            lemma_evaluate_expr(e);
            assert(depth(e) == 2);
        }
    }
}

/// A character of a printed number: a decimal digit or `-`.
pub open spec fn is_numeral_char(c: char) -> bool {
    (48 <= (c as u32) && (c as u32) <= 57) || c == '-'
}

proof fn lemma_nat_decimal_chars(n: nat)
    ensures
        nat_decimal(n).len() >= 1,
        forall|k: int| 0 <= k < nat_decimal(n).len() ==> is_numeral_char(#[trigger] nat_decimal(n)[k]),
    decreases n,
{
    if n >= 10 {
        lemma_nat_decimal_chars(n / 10);
        let d = nat_decimal(n);
        assert forall|k: int| 0 <= k < d.len() implies is_numeral_char(#[trigger] d[k]) by {
            if k < d.len() - 1 {
                assert(d[k] == nat_decimal(n / 10)[k]);
            }
        }
    }
}

/// A printed `i64` is made of digits and `-` only.
proof fn lemma_decimal_chars(n: i64)
    ensures
        int_decimal(n as int).len() >= 1,
        forall|k: int|
            0 <= k < int_decimal(n as int).len() ==> is_numeral_char(#[trigger] int_decimal(n as int)[k]),
{
    if n < 0 {
        let m = (-n) as nat;
        lemma_nat_decimal_chars(m);
        let d = int_decimal(n as int);
        assert forall|k: int| 0 <= k < d.len() implies is_numeral_char(#[trigger] d[k]) by {
            if k > 0 {
                assert(d[k] == nat_decimal(m)[k - 1]);
            }
        }
    } else {
        lemma_nat_decimal_chars(n as nat);
    }
}

/// A line that ends in ` = ` and a printed number is split there in one
/// way only: the text before and the number are determined by the line.
proof fn lemma_equation_split(x: Seq<char>, m: i64, y: Seq<char>, n: i64)
    requires
        x + " = "@ + int_decimal(m as int) == y + " = "@ + int_decimal(n as int),
    ensures
        x == y,
        m == n,
{
    reveal_strlit(" = ");
    let dm = int_decimal(m as int);
    let dn = int_decimal(n as int);
    lemma_decimal_chars(m);
    lemma_decimal_chars(n);
    let l = x + " = "@ + dm;
    let r = y + " = "@ + dn;
    let len = l.len() as int;
    if dm.len() < dn.len() {
        let p = len - dm.len() - 1;
        assert(l[p] == ' ');
        assert(r[p] == dn[p - (len - dn.len())]);
        assert(false);
    } else if dn.len() < dm.len() {
        let p = len - dn.len() - 1;
        assert(r[p] == ' ');
        assert(l[p] == dm[p - (len - dm.len())]);
        assert(false);
    }
    assert(dm =~= l.subrange(len - dm.len(), len));
    assert(dn =~= r.subrange(len - dn.len(), len));
    assert(x =~= l.subrange(0, x.len() as int));
    assert(y =~= r.subrange(0, y.len() as int));
    lemma_decimal_reads_back(m);
    lemma_decimal_reads_back(n);
}

/// Whenever `calculate` answers with an equation `a op b = n`, whatever the
/// input looked like, the equation holds: `n` is `a op b` computed in `i64`.
pub proof fn lemma_calculate_equation_holds(input: Seq<char>, a: i64, op: Op, b: i64, n: i64)
    requires
        calculate_defined(input),
        is_binary(Token::Op(op)),
        calculate_spec(input) == int_decimal(a as int) + " "@ + op_symbol(op) + " "@ + int_decimal(
            b as int,
        ) + " = "@ + int_decimal(n as int),
    ensures
        spec_apply(Token::Op(op), a, b) == Some(n),
{
    reveal_strlit(" ");
    reveal_strlit("Enter an expression");
    reveal_strlit("error: ");
    let line = int_decimal(a as int) + " "@ + op_symbol(op) + " "@ + int_decimal(b as int);
    let out = calculate_spec(input);
    lemma_decimal_chars(a);
    assert(out[0] == int_decimal(a as int)[0]);
    assert(is_numeral_char(out[0]));
    let t = trim_chars(input);
    let bt = encode_utf8(t);
    assert(" "@ =~= seq![' ']);
    lemma_two_operand_reads_back(a, op, b);
    if t.len() == 0 {
        assert(out[0] == 'E');
    } else {
        match evaluate_spec(bt)->Some_0 {
            Err(e) => {
                assert(out[0] == 'e');
            },
            Ok(m) => {
                if shows_equation(bt) {
                    let (x, op2, y, _) = fast_two_scan(bt)->Some_0;
                    let line2 = int_decimal(x as int) + " "@ + op_symbol(op2) + " "@ + int_decimal(
                        y as int,
                    );
                    lemma_equation_split(line2, m, line, n);
                    assert(is_binary(Token::Op(op2)));
                    lemma_two_operand_reads_back(x, op2, y);
                    lemma_shown_equation_holds(bt);
                } else {
                    lemma_equation_split(t, m, line, n);
                    assert(shows_equation(bt));
                }
            },
        }
    }
}

} // verus!
