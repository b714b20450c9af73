use vstd::prelude::*;
use vstd::string::StringSliceAdditionalSpecFns;
use vstd::utf8::*;

use crate::digits::{
    digits_value, is_digit, lemma_digits_value_mono, lemma_digits_value_nonneg,
    lemma_digits_value_shift,
};
use crate::token::{no_eof, Op, Token};

verus! {

/// Bytes that separate tokens: space, tab, newline, carriage return.
pub open spec fn is_space(c: u8) -> bool {
    c == 32 || c == 9 || c == 10 || c == 13
}

/// The bytes `+ - * / ( )`.
pub open spec fn is_operator_byte(c: u8) -> bool {
    c == 43 || c == 45 || c == 42 || c == 47 || c == 40 || c == 41
}

/// Whether the byte, read as the code point of the same value, is white space
/// in the sense of `char::is_whitespace`: U+0009 to U+000D, U+0020, U+0085 and
/// U+00A0 are the white-space code points below U+0100.
pub open spec fn is_latin1_whitespace(c: u8) -> bool {
    (9 <= c <= 13) || c == 32 || c == 0x85 || c == 0xA0
}

/// End of the run of decimal digits that starts at `i`.
pub open spec fn digit_run_end(b: Seq<u8>, i: int) -> int
    decreases b.len() - i,
{
    if 0 <= i < b.len() && is_digit(b[i]) {
        digit_run_end(b, i + 1)
    } else {
        i
    }
}

/// End of a run of bytes that are neither white space nor operators.
pub open spec fn word_run_end(b: Seq<u8>, i: int) -> int
    decreases b.len() - i,
{
    if 0 <= i < b.len() && !is_latin1_whitespace(b[i]) && !is_operator_byte(b[i]) {
        word_run_end(b, i + 1)
    } else {
        i
    }
}

/// `Eof` ends the sequence and appears nowhere else.
pub open spec fn ends_with_sole_eof(t: Seq<Token>) -> bool {
    &&& t.len() >= 1
    &&& t.last() == Token::Eof
    &&& forall|i: int| 0 <= i < t.len() - 1 ==> t[i] != Token::Eof
}

/// Whether a `-` read after `acc` is a unary minus.
pub open spec fn minus_is_unary(acc: Seq<Token>) -> bool {
    acc.len() == 0 || acc.last() is Op || acc.last() == Token::LParen
}

pub proof fn lemma_digit_run_end_bounds(b: Seq<u8>, i: int)
    requires
        0 <= i <= b.len(),
    ensures
        i <= digit_run_end(b, i) <= b.len(),
        i < b.len() && is_digit(b[i]) ==> i < digit_run_end(b, i),
    decreases b.len() - i,
{
    if i < b.len() && is_digit(b[i]) {
        lemma_digit_run_end_bounds(b, i + 1);
    }
}

/// A run of digits that stops at a non-digit (or the end) ends there.
pub proof fn lemma_digit_run_end_exact(b: Seq<u8>, i: int, e: int)
    requires
        0 <= i <= e <= b.len(),
        forall|k: int| i <= k < e ==> is_digit(#[trigger] b[k]),
        e == b.len() || !is_digit(b[e]),
    ensures
        digit_run_end(b, i) == e,
    decreases e - i,
{
    if i < e {
        lemma_digit_run_end_exact(b, i + 1, e);
    }
}

/// Lexing of `b` from byte `i` on, after the tokens `acc` were read.
/// `None` where the lexer panics: a number too large for `i64`, or a
/// run of unknown characters that does not start and end on a character
/// boundary.
pub open spec fn lex_from(b: Seq<u8>, i: int, acc: Seq<Token>) -> Option<Seq<Token>>
    decreases b.len() - i,
{
    if i < 0 || i >= b.len() {
        Some(acc.push(Token::Eof))
    } else {
        let c = b[i];
        if is_space(c) {
            lex_from(b, i + 1, acc)
        } else if c == 43 {
            lex_from(b, i + 1, acc.push(Token::Op(Op::Add)))
        } else if c == 42 {
            lex_from(b, i + 1, acc.push(Token::Op(Op::Mul)))
        } else if c == 47 {
            lex_from(b, i + 1, acc.push(Token::Op(Op::Div)))
        } else if c == 40 {
            lex_from(b, i + 1, acc.push(Token::LParen))
        } else if c == 41 {
            lex_from(b, i + 1, acc.push(Token::RParen))
        } else if c == 45 {
            let t = if minus_is_unary(acc) {
                Token::Op(Op::Neg)
            } else {
                Token::Op(Op::Sub)
            };
            lex_from(b, i + 1, acc.push(t))
        } else if is_digit(c) {
            let j = digit_run_end(b, i);
            let v = digits_value(b, i, j);
            if v > i64::MAX {
                None
            } else {
                proof {
                    lemma_digit_run_end_bounds(b, i);
                }
                lex_from(b, j, acc.push(Token::Num(v as i64)))
            }
        } else {
            let j = word_run_end(b, i);
            if is_char_boundary(b, i) && is_char_boundary(b, j) {
                Some(seq![Token::Num(0), Token::Eof])
            } else {
                None
            }
        }
    }
}

/// The tokens of the UTF-8 bytes `b`, or `None` where lexing them panics.
pub open spec fn lex_spec(b: Seq<u8>) -> Option<Seq<Token>> {
    lex_from(b, 0, Seq::empty())
}

/// The run of digits that starts at `start` is all digits up to its end.
proof fn lemma_digit_run_all_digits(b: Seq<u8>, start: int, i: int)
    requires
        0 <= start <= i <= b.len(),
        digit_run_end(b, start) == digit_run_end(b, i),
        forall|x: int| start <= x < i ==> is_digit(#[trigger] b[x]),
    ensures
        forall|x: int| start <= x < digit_run_end(b, start) ==> is_digit(#[trigger] b[x]),
    decreases b.len() - i,
{
    if i < b.len() && is_digit(b[i]) {
        lemma_digit_run_all_digits(b, start, i + 1);
    } else {
        assert(digit_run_end(b, i) == i);
    }
}

fn is_space_byte(c: u8) -> (r: bool)
    ensures
        r == is_space(c),
{
    c == 32 || c == 9 || c == 10 || c == 13
}

fn is_digit_byte(c: u8) -> (r: bool)
    ensures
        r == is_digit(c),
{
    48 <= c && c <= 57
}

fn is_operator(c: u8) -> (r: bool)
    ensures
        r == is_operator_byte(c),
{
    c == 43 || c == 45 || c == 42 || c == 47 || c == 40 || c == 41
}

fn is_whitespace_latin1(c: u8) -> (r: bool)
    ensures
        r == is_latin1_whitespace(c),
{
    (9 <= c && c <= 13) || c == 32 || c == 0x85 || c == 0xA0
}

proof fn lemma_lex_from_sole_eof(b: Seq<u8>, i: int, acc: Seq<Token>)
    requires
        0 <= i <= b.len(),
        forall|j: int| 0 <= j < acc.len() ==> acc[j] != Token::Eof,
    ensures
        lex_from(b, i, acc) matches Some(t) ==> ends_with_sole_eof(t),
    decreases b.len() - i,
{
    if i >= b.len() {
        assert(acc.push(Token::Eof).last() == Token::Eof);
    } else {
        let c = b[i];
        if is_space(c) {
            lemma_lex_from_sole_eof(b, i + 1, acc);
        } else if c == 43 {
            lemma_lex_from_sole_eof(b, i + 1, acc.push(Token::Op(Op::Add)));
        } else if c == 42 {
            lemma_lex_from_sole_eof(b, i + 1, acc.push(Token::Op(Op::Mul)));
        } else if c == 47 {
            lemma_lex_from_sole_eof(b, i + 1, acc.push(Token::Op(Op::Div)));
        } else if c == 40 {
            lemma_lex_from_sole_eof(b, i + 1, acc.push(Token::LParen));
        } else if c == 41 {
            lemma_lex_from_sole_eof(b, i + 1, acc.push(Token::RParen));
        } else if c == 45 {
            let t = if minus_is_unary(acc) {
                Token::Op(Op::Neg)
            } else {
                Token::Op(Op::Sub)
            };
            lemma_lex_from_sole_eof(b, i + 1, acc.push(t));
        } else if is_digit(c) {
            let j = digit_run_end(b, i);
            let v = digits_value(b, i, j);
            lemma_digit_run_end_bounds(b, i);
            if v <= i64::MAX {
                lemma_lex_from_sole_eof(b, j, acc.push(Token::Num(v as i64)));
            }
        } else {
            let t = seq![Token::Num(0), Token::Eof];
            assert(t[0] != Token::Eof);
        }
    }
}

/// What the lexer returns ends with `Eof`, and holds no other `Eof`.
pub proof fn lemma_lex_ends_with_eof(b: Seq<u8>)
    ensures
        lex_spec(b) matches Some(t) ==> ends_with_sole_eof(t),
{
    lemma_lex_from_sole_eof(b, 0, Seq::empty());
}

/// Every position of the encoding of an ASCII text is a character boundary.
pub open spec fn all_boundaries(b: Seq<u8>) -> bool {
    forall|i: int| 0 <= i <= b.len() ==> #[trigger] is_char_boundary(b, i)
}

proof fn lemma_ascii_boundaries(c: Seq<char>)
    requires
        is_ascii_chars(c),
    ensures
        all_boundaries(encode_utf8(c)),
        encode_utf8(c).len() == c.len(),
        forall|i: int| 0 <= i < c.len() ==> encode_utf8(c)[i] == (#[trigger] c[i]) as u8,
        forall|i: int| 0 <= i < c.len() ==> (encode_utf8(c)[i] as int) < 128,
{
    let b = encode_utf8(c);
    is_ascii_chars_encode_utf8(c);
    is_ascii_chars_nat_bound(c);
    encode_utf8_valid_utf8(c);
    is_char_boundary_start_end_of_seq(b);
    assert forall|i: int| 0 <= i <= b.len() implies #[trigger] is_char_boundary(b, i) by {
        if i < b.len() {
            assert(c[i] as u8 == b[i]);
            is_char_boundary_iff_not_is_continuation_byte(b, i);
        }
    }
}

/// After the inserted space the two byte sequences agree, shifted by one.
proof fn lemma_space_suffix(p1: Seq<u8>, p2: Seq<u8>, j: int, acc: Seq<Token>)
    requires
        p1.len() == p2.len() + 1,
        0 <= j <= p2.len(),
        forall|k: int| j <= k < p2.len() ==> p1[k + 1] == #[trigger] p2[k],
        all_boundaries(p1),
        all_boundaries(p2),
    ensures
        lex_from(p1, j + 1, acc) == lex_from(p2, j, acc),
    decreases p2.len() - j,
{
    if j < p2.len() {
        let c = p2[j];
        assert(p1[j + 1] == c);
        if is_digit(c) {
            let e = digit_run_end(p2, j);
            lemma_digit_run_shift(p1, p2, j);
            lemma_digit_run_end_bounds(p2, j);
            let d = p2.subrange(j, e);
            lemma_digits_value_shift(p2, d, j, e);
            assert forall|k: int| 0 <= k < e - j implies p1[(j + 1) + k] == d[k] by {
                assert(p1[j + k + 1] == p2[j + k]);
            }
            lemma_digits_value_shift(p1, d, j + 1, e + 1);
            let v = digits_value(p2, j, e);
            if v <= i64::MAX {
                lemma_space_suffix(p1, p2, e, acc.push(Token::Num(v as i64)));
            }
        } else if is_space(c) || is_operator_byte(c) {
            let t = if c == 45 {
                if minus_is_unary(acc) {
                    Token::Op(Op::Neg)
                } else {
                    Token::Op(Op::Sub)
                }
            } else if c == 43 {
                Token::Op(Op::Add)
            } else if c == 42 {
                Token::Op(Op::Mul)
            } else if c == 47 {
                Token::Op(Op::Div)
            } else if c == 40 {
                Token::LParen
            } else {
                Token::RParen
            };
            if is_space(c) {
                lemma_space_suffix(p1, p2, j + 1, acc);
            } else {
                lemma_space_suffix(p1, p2, j + 1, acc.push(t));
            }
        } else {
            lemma_word_run_end_le(p2, j);
            lemma_word_run_end_le(p1, j + 1);
        }
    }
}

proof fn lemma_word_run_end_le(b: Seq<u8>, i: int)
    requires
        0 <= i <= b.len(),
    ensures
        i <= word_run_end(b, i) <= b.len(),
    decreases b.len() - i,
{
    if i < b.len() && !is_latin1_whitespace(b[i]) && !is_operator_byte(b[i]) {
        lemma_word_run_end_le(b, i + 1);
    }
}

proof fn lemma_digit_run_shift(p1: Seq<u8>, p2: Seq<u8>, j: int)
    requires
        p1.len() == p2.len() + 1,
        0 <= j <= p2.len(),
        forall|k: int| j <= k < p2.len() ==> p1[k + 1] == #[trigger] p2[k],
    ensures
        digit_run_end(p1, j + 1) == digit_run_end(p2, j) + 1,
    decreases p2.len() - j,
{
    if j < p2.len() {
        assert(p1[j + 1] == p2[j]);
        if is_digit(p2[j]) {
            lemma_digit_run_shift(p1, p2, j + 1);
        }
    }
}

/// Before the inserted space the two byte sequences agree; a run of digits
/// does not cross the place of the space.
proof fn lemma_digit_run_prefix(p1: Seq<u8>, p2: Seq<u8>, p: int, i: int)
    requires
        0 <= i <= p <= p2.len(),
        p1.len() == p2.len() + 1,
        forall|k: int| 0 <= k < p ==> p1[k] == #[trigger] p2[k],
        p1[p] == 32,
        i < p || p == p2.len() || !is_digit(p2[p]),
        p > 0 && is_digit(p2[p - 1]) ==> p == p2.len() || !is_digit(p2[p]),
    ensures
        digit_run_end(p1, i) == digit_run_end(p2, i),
        digit_run_end(p1, i) <= p,
    decreases p - i,
{
    if i < p {
        assert(p1[i] == p2[i]);
        if is_digit(p2[i]) {
            lemma_digit_run_prefix(p1, p2, p, i + 1);
        }
    }
}

proof fn lemma_space_prefix(p1: Seq<u8>, p2: Seq<u8>, p: int, i: int, acc: Seq<Token>)
    requires
        0 <= i <= p <= p2.len(),
        p1.len() == p2.len() + 1,
        forall|k: int| 0 <= k < p ==> p1[k] == #[trigger] p2[k],
        p1[p] == 32,
        forall|k: int| p <= k < p2.len() ==> p1[k + 1] == #[trigger] p2[k],
        p > 0 && is_digit(p2[p - 1]) ==> p == p2.len() || !is_digit(p2[p]),
        all_boundaries(p1),
        all_boundaries(p2),
    ensures
        lex_from(p1, i, acc) == lex_from(p2, i, acc),
    decreases p - i,
{
    if i == p {
        lemma_space_suffix(p1, p2, p, acc);
    } else {
        let c = p2[i];
        assert(p1[i] == c);
        if is_digit(c) {
            lemma_digit_run_prefix(p1, p2, p, i);
            lemma_digit_run_end_bounds(p2, i);
            let e = digit_run_end(p2, i);
            let d = p2.subrange(i, e);
            lemma_digits_value_shift(p2, d, i, e);
            assert forall|k: int| 0 <= k < e - i implies p1[i + k] == d[k] by {
                assert(p1[i + k] == p2[i + k]);
            }
            lemma_digits_value_shift(p1, d, i, e);
            let v = digits_value(p2, i, e);
            if v <= i64::MAX {
                lemma_space_prefix(p1, p2, p, e, acc.push(Token::Num(v as i64)));
            }
        } else if is_space(c) || is_operator_byte(c) {
            let t = if c == 45 {
                if minus_is_unary(acc) {
                    Token::Op(Op::Neg)
                } else {
                    Token::Op(Op::Sub)
                }
            } else if c == 43 {
                Token::Op(Op::Add)
            } else if c == 42 {
                Token::Op(Op::Mul)
            } else if c == 47 {
                Token::Op(Op::Div)
            } else if c == 40 {
                Token::LParen
            } else {
                Token::RParen
            };
            if is_space(c) {
                lemma_space_prefix(p1, p2, p, i + 1, acc);
            } else {
                lemma_space_prefix(p1, p2, p, i + 1, acc.push(t));
            }
        } else {
            lemma_word_run_end_le(p2, i);
            lemma_word_run_end_le(p1, i);
        }
    }
}

/// In an ASCII text, a space between two pieces changes nothing in the
/// tokens, unless it splits a number (a digit on both sides).
pub proof fn lemma_lex_space_between(a: Seq<char>, b: Seq<char>)
    requires
        is_ascii_chars(a),
        is_ascii_chars(b),
        !(a.len() > 0 && b.len() > 0 && is_digit(a.last() as u8) && is_digit(b[0] as u8)),
    ensures
        lex_spec(encode_utf8(a + seq![' '] + b)) == lex_spec(encode_utf8(a + b)),
{
    let c1 = a + seq![' '] + b;
    let c2 = a + b;
    assert(is_ascii_chars(c1));
    assert(is_ascii_chars(c2));
    lemma_ascii_boundaries(c1);
    lemma_ascii_boundaries(c2);
    let p1 = encode_utf8(c1);
    let p2 = encode_utf8(c2);
    let p = a.len() as int;
    assert forall|k: int| 0 <= k < p implies p1[k] == #[trigger] p2[k] by {
        assert(c1[k] == a[k] && c2[k] == a[k]);
    }
    assert(c1[p] == ' ');
    assert forall|k: int| p <= k < p2.len() implies p1[k + 1] == #[trigger] p2[k] by {
        assert(c1[k + 1] == b[k - p] && c2[k] == b[k - p]);
    }
    if p > 0 && p < p2.len() {
        assert(c2[p - 1] == a.last());
        assert(c2[p] == b[0]);
    }
    lemma_space_prefix(p1, p2, p, 0, Seq::empty());
}

/// Every maximal run of digits in `b` writes a number that fits `i64`.
pub open spec fn digit_runs_fit(b: Seq<u8>) -> bool {
    forall|i: int|
        0 <= i < b.len() && is_digit(b[i]) && (i == 0 || !is_digit(b[i - 1])) ==> #[trigger] digits_value(
            b,
            i,
            digit_run_end(b, i),
        ) <= i64::MAX
}

proof fn lemma_digit_run_stops(b: Seq<u8>, i: int)
    requires
        0 <= i <= b.len(),
    ensures
        digit_run_end(b, i) == b.len() || !is_digit(b[digit_run_end(b, i)]),
    decreases b.len() - i,
{
    if i < b.len() && is_digit(b[i]) {
        lemma_digit_run_stops(b, i + 1);
    }
}

proof fn lemma_lex_from_defined(b: Seq<u8>, i: int, acc: Seq<Token>)
    requires
        0 <= i <= b.len(),
        all_boundaries(b),
        digit_runs_fit(b),
        i > 0 && i < b.len() && is_digit(b[i]) ==> !is_digit(b[i - 1]),
    ensures
        lex_from(b, i, acc) is Some,
    decreases b.len() - i,
{
    if i < b.len() {
        let c = b[i];
        if is_digit(c) {
            let e = digit_run_end(b, i);
            lemma_digit_run_end_bounds(b, i);
            lemma_digit_run_stops(b, i);
            assert(digits_value(b, i, digit_run_end(b, i)) <= i64::MAX);
            lemma_lex_from_defined(b, e, acc.push(Token::Num(digits_value(b, i, e) as i64)));
        } else if is_space(c) {
            lemma_lex_from_defined(b, i + 1, acc);
        } else if is_operator_byte(c) {
            let t = if c == 45 {
                if minus_is_unary(acc) {
                    Token::Op(Op::Neg)
                } else {
                    Token::Op(Op::Sub)
                }
            } else if c == 43 {
                Token::Op(Op::Add)
            } else if c == 42 {
                Token::Op(Op::Mul)
            } else if c == 47 {
                Token::Op(Op::Div)
            } else if c == 40 {
                Token::LParen
            } else {
                Token::RParen
            };
            lemma_lex_from_defined(b, i + 1, acc.push(t));
        } else {
            lemma_word_run_end_le(b, i);
        }
    }
}

/// An ASCII text whose digit runs all fit `i64` lexes without panicking.
pub proof fn lemma_lex_defined_ascii(c: Seq<char>)
    requires
        is_ascii_chars(c),
        digit_runs_fit(encode_utf8(c)),
    ensures
        lex_spec(encode_utf8(c)) is Some,
{
    lemma_ascii_boundaries(c);
    lemma_lex_from_defined(encode_utf8(c), 0, Seq::empty());
}

/// For ASCII text whose digit runs fit `i64`, `lex` may be called on the
/// text with and without a space between two pieces, and gives the same
/// tokens, unless the space splits a number.
pub proof fn lemma_lex_space_between_defined(a: Seq<char>, b: Seq<char>)
    requires
        is_ascii_chars(a),
        is_ascii_chars(b),
        !(a.len() > 0 && b.len() > 0 && is_digit(a.last() as u8) && is_digit(b[0] as u8)),
        digit_runs_fit(encode_utf8(a + b)),
    ensures
        lex_spec(encode_utf8(a + b)) is Some,
        lex_spec(encode_utf8(a + seq![' '] + b)) == lex_spec(encode_utf8(a + b)),
{
    assert(is_ascii_chars(a + b));
    lemma_lex_defined_ascii(a + b);
    lemma_lex_space_between(a, b);
}

/// `b2` is `b` with some bytes before it (ending at `off`) and a `)` after
/// it, and the two agree on where characters start.
pub open spec fn wraps(b: Seq<u8>, b2: Seq<u8>, off: int) -> bool {
    &&& 0 <= off
    &&& b2.len() == off + b.len() + 1
    &&& forall|k: int| 0 <= k < b.len() ==> b2[off + k] == #[trigger] b[k]
    &&& b2[off + b.len()] == 41
    &&& forall|i: int|
        0 <= i <= b.len() ==> is_char_boundary(b2, off + i) == #[trigger] is_char_boundary(b, i)
}

/// How lexing a text (`r1`, after the tokens `acc`) relates to lexing it
/// with the tokens `pt` before it and a `)` after it (`r2`): both panic, both
/// meet an unknown character, or the second has the tokens of the first
/// between `pt` and `)`.
pub open spec fn lex_wrapped(
    r1: Option<Seq<Token>>,
    r2: Option<Seq<Token>>,
    pt: Seq<Token>,
    acc: Seq<Token>,
) -> bool {
    ||| (r1 is None && r2 is None)
    ||| (r1 == Some(seq![Token::Num(0), Token::Eof]) && r2 == r1)
    ||| exists|t: Seq<Token>|
        #[trigger] no_eof(t) && r1 == Some(acc + t.push(Token::Eof)) && r2 == Some(
            pt + acc + t + seq![Token::RParen, Token::Eof],
        )
}

proof fn lemma_runs_wrapped(b: Seq<u8>, b2: Seq<u8>, off: int, i: int)
    requires
        wraps(b, b2, off),
        0 <= i <= b.len(),
    ensures
        digit_run_end(b2, off + i) == off + digit_run_end(b, i),
        word_run_end(b2, off + i) == off + word_run_end(b, i),
    decreases b.len() - i,
{
    if i < b.len() {
        assert(b2[off + i] == b[i]);
        lemma_runs_wrapped(b, b2, off, i + 1);
    } else {
        assert(b2[off + i] == 41);
    }
}

/// One token read before the rest keeps the relation.
proof fn lemma_lex_wrapped_step(
    r1: Option<Seq<Token>>,
    r2: Option<Seq<Token>>,
    pt: Seq<Token>,
    acc: Seq<Token>,
    tok: Token,
)
    requires
        lex_wrapped(r1, r2, pt, acc.push(tok)),
        tok != Token::Eof,
    ensures
        lex_wrapped(r1, r2, pt, acc),
{
    if exists|t: Seq<Token>|
        #[trigger] no_eof(t) && r1 == Some(acc.push(tok) + t.push(Token::Eof)) && r2 == Some(
            pt + acc.push(tok) + t + seq![Token::RParen, Token::Eof],
        ) {
        let t = choose|t: Seq<Token>|
            #[trigger] no_eof(t) && r1 == Some(acc.push(tok) + t.push(Token::Eof)) && r2 == Some(
                pt + acc.push(tok) + t + seq![Token::RParen, Token::Eof],
            );
        let t2 = seq![tok] + t;
        assert(acc.push(tok) + t.push(Token::Eof) =~= acc + t2.push(Token::Eof));
        assert(pt + acc.push(tok) + t + seq![Token::RParen, Token::Eof] =~= pt + acc + t2
            + seq![Token::RParen, Token::Eof]);
        assert forall|k: int| 0 <= k < t2.len() implies t2[k] != Token::Eof by {
            if k > 0 {
                assert(t2[k] == t[k - 1]);
            }
        }
        assert(no_eof(t2));
    }
}

/// Lexing `b` from `i` after `acc`, and lexing `b2` from the same place
/// after `pt` and `acc`, are related by `lex_wrapped`.
pub proof fn lemma_lex_wrapped(
    b: Seq<u8>,
    b2: Seq<u8>,
    off: int,
    pt: Seq<Token>,
    i: int,
    acc: Seq<Token>,
)
    requires
        wraps(b, b2, off),
        0 <= i <= b.len(),
        pt.len() > 0,
        pt.last() == Token::LParen,
    ensures
        lex_wrapped(lex_from(b, i, acc), lex_from(b2, off + i, pt + acc), pt, acc),
    decreases b.len() - i,
{
    let acc2 = pt + acc;
    if acc.len() > 0 {
        assert(acc2.last() == acc.last());
    }
    assert(minus_is_unary(acc2) == minus_is_unary(acc));
    if i == b.len() {
        assert(b2[off + i] == 41);
        let t: Seq<Token> = Seq::empty();
        assert(lex_from(b2, off + i, acc2) == lex_from(b2, off + i + 1, acc2.push(Token::RParen)));
        assert(acc2.push(Token::RParen).push(Token::Eof) =~= pt + acc + t + seq![
            Token::RParen,
            Token::Eof,
        ]);
        assert(acc.push(Token::Eof) =~= acc + t.push(Token::Eof));
        assert(no_eof(t));
    } else {
        let c = b[i];
        assert(b2[off + i] == c);
        if is_space(c) {
            lemma_lex_wrapped(b, b2, off, pt, i + 1, acc);
        } else if is_operator_byte(c) {
            let tok = if c == 45 {
                if minus_is_unary(acc) {
                    Token::Op(Op::Neg)
                } else {
                    Token::Op(Op::Sub)
                }
            } else if c == 43 {
                Token::Op(Op::Add)
            } else if c == 42 {
                Token::Op(Op::Mul)
            } else if c == 47 {
                Token::Op(Op::Div)
            } else if c == 40 {
                Token::LParen
            } else {
                Token::RParen
            };
            assert(acc2.push(tok) =~= pt + acc.push(tok));
            lemma_lex_wrapped(b, b2, off, pt, i + 1, acc.push(tok));
            lemma_lex_wrapped_step(
                lex_from(b, i + 1, acc.push(tok)),
                lex_from(b2, off + i + 1, pt + acc.push(tok)),
                pt,
                acc,
                tok,
            );
        } else if is_digit(c) {
            lemma_runs_wrapped(b, b2, off, i);
            lemma_digit_run_end_bounds(b, i);
            let j = digit_run_end(b, i);
            let d = b.subrange(i, j);
            lemma_digits_value_shift(b, d, i, j);
            assert forall|k: int| 0 <= k < j - i implies b2[(off + i) + k] == d[k] by {
                assert(b2[off + (i + k)] == b[i + k]);
            }
            lemma_digits_value_shift(b2, d, off + i, off + j);
            let v = digits_value(b, i, j);
            if v <= i64::MAX {
                let tok = Token::Num(v as i64);
                assert(acc2.push(tok) =~= pt + acc.push(tok));
                lemma_lex_wrapped(b, b2, off, pt, j, acc.push(tok));
                lemma_lex_wrapped_step(
                    lex_from(b, j, acc.push(tok)),
                    lex_from(b2, off + j, pt + acc.push(tok)),
                    pt,
                    acc,
                    tok,
                );
            }
        } else {
            lemma_runs_wrapped(b, b2, off, i);
            lemma_word_run_end_le(b, i);
        }
    }
}

/// Lexes `raw`, or returns `None` on the inputs on which `lex` panics.
pub fn try_lex(raw: &str) -> (r: Option<Vec<Token>>)
    ensures
        match r {
            Some(v) => lex_spec(raw.spec_bytes()) == Some(v@),
            None => lex_spec(raw.spec_bytes()) is None,
        },
{
    let bytes = raw.as_bytes();
    let ghost b = bytes@;
    let len = bytes.len();
    let mut db: Vec<Token> = Vec::new();
    let mut i: usize = 0;
    while i < len
        invariant
            b == bytes@,
            b == raw.spec_bytes(),
            len == b.len(),
            i <= len,
            lex_from(b, i as int, db@) == lex_spec(b),
        decreases len - i,
    {
        let c = bytes[i];
        if is_space_byte(c) {
            i += 1;
        } else if c == 43 {
            db.push(Token::Op(Op::Add));
            i += 1;
        } else if c == 42 {
            db.push(Token::Op(Op::Mul));
            i += 1;
        } else if c == 47 {
            db.push(Token::Op(Op::Div));
            i += 1;
        } else if c == 40 {
            db.push(Token::LParen);
            i += 1;
        } else if c == 41 {
            db.push(Token::RParen);
            i += 1;
        } else if c == 45 {
            let n = db.len();
            let is_unary = if n == 0 {
                true
            } else {
                match db[n - 1] {
                    Token::Op(_) | Token::LParen => true,
                    _ => false,
                }
            };
            if is_unary {
                db.push(Token::Op(Op::Neg));
            } else {
                db.push(Token::Op(Op::Sub));
            }
            i += 1;
        } else if is_digit_byte(c) {
            let start = i;
            let mut v: i64 = 0;
            proof {
                lemma_digit_run_end_bounds(b, start as int);
            }
            while i < len && is_digit_byte(bytes[i])
                invariant
                    b == bytes@,
                    b == raw.spec_bytes(),
                    lex_from(b, start as int, db@) == lex_spec(b),
                    len == b.len(),
                    start < len,
                    is_digit(b[start as int]),
                    start <= i <= len,
                    v == digits_value(b, start as int, i as int),
                    digit_run_end(b, start as int) == digit_run_end(b, i as int),
                    forall|x: int| start <= x < i ==> is_digit(#[trigger] b[x]),
                decreases len - i,
            {
                let d = (bytes[i] - 48) as i64;
                let next = match v.checked_mul(10) {
                    Some(m) => m.checked_add(d),
                    None => None,
                };
                match next {
                    Some(w) => {
                        v = w;
                        i += 1;
                    },
                    None => {
                        proof {
                            let e = digit_run_end(b, start as int);
                            lemma_digit_run_end_bounds(b, i as int);
                            assert(digit_run_end(b, i as int) == digit_run_end(b, i + 1));
                            lemma_digit_run_end_bounds(b, i + 1);
                            lemma_digit_run_all_digits(b, start as int, i as int);
                            lemma_digits_value_nonneg(b, start as int, i as int);
                            lemma_digits_value_mono(b, start as int, i + 1, e);
                            assert(digits_value(b, start as int, i + 1) > i64::MAX);
                        }
                        return None;
                    },
                }
            }
            proof {
                assert(digit_run_end(b, i as int) == i);
            }
            db.push(Token::Num(v));
        } else {
            let start = i;
            while i < len && !is_whitespace_latin1(bytes[i]) && !is_operator(bytes[i])
                invariant
                    b == bytes@,
                    len == b.len(),
                    start <= i <= len,
                    word_run_end(b, start as int) == word_run_end(b, i as int),
                decreases len - i,
            {
                i += 1;
            }
            proof {
                assert(word_run_end(b, i as int) == i);
            }
            if raw.is_char_boundary(start) && raw.is_char_boundary(i) {
                let mut r: Vec<Token> = Vec::new();
                r.push(Token::Num(0));
                r.push(Token::Eof);
                proof {
                    assert(r@ =~= seq![Token::Num(0), Token::Eof]);
                }
                return Some(r);
            } else {
                return None;
            }
        }
    }
    db.push(Token::Eof);
    Some(db)
}

/// Splits `raw` into tokens, ending with `Token::Eof`. A run of characters
/// that belong to no token makes the whole result `[Num(0), Eof]`.
pub fn lex(raw: &str) -> (r: Vec<Token>)
    requires
        lex_spec(raw.spec_bytes()) is Some,
    ensures
        lex_spec(raw.spec_bytes()) == Some(r@),
{
    match try_lex(raw) {
        Some(v) => v,
        None => {
            assert(false);
            Vec::new()
        },
    }
}

} // verus!
