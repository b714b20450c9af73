use vstd::prelude::*;

verus! {

/// The operators of the calculator language.
#[derive(Clone, Copy, Debug, PartialEq, Eq, Structural)]
pub enum Op {
    Add,
    Sub,
    Mul,
    Div,
    Num,
    Neg,
}

/// A lexical token.
#[derive(Clone, Copy, Debug, PartialEq, Eq, Structural)]
pub enum Token {
    Num(i64),
    Op(Op),
    LParen,
    RParen,
    Eof,
}

/// Row of a token in the precedence table.
pub open spec fn spec_idx(t: Token) -> nat {
    match t {
        Token::Eof => 0,
        Token::Num(_) => 1,
        Token::Op(Op::Add) => 2,
        Token::Op(Op::Sub) => 3,
        Token::Op(Op::Mul) => 4,
        Token::Op(Op::Div) => 5,
        Token::Op(Op::Neg) => 6,
        _ => 0,
    }
}

/// The precedence table, indexed by `spec_idx`.
pub open spec fn prec_table(i: nat) -> u8 {
    if i == 0 {
        0
    } else if i <= 3 {
        1
    } else if i <= 5 {
        2
    } else {
        3
    }
}

/// Binding strength of a token: `+ -` bind weakest, then `* /`, then unary minus.
pub open spec fn spec_prec(t: Token) -> u8 {
    prec_table(spec_idx(t))
}

fn idx(t: &Token) -> (r: usize)
    ensures
        r == spec_idx(*t),
{
    match t {
        Token::Eof => 0,
        Token::Num(_) => 1,
        Token::Op(Op::Add) => 2,
        Token::Op(Op::Sub) => 3,
        Token::Op(Op::Mul) => 4,
        Token::Op(Op::Div) => 5,
        Token::Op(Op::Neg) => 6,
        _ => 0,
    }
}

fn prec_at(i: usize) -> (r: u8)
    requires
        i < 7,
    ensures
        r == prec_table(i as nat),
{
    match i {
        0 => 0,
        1 | 2 | 3 => 1,
        4 | 5 => 2,
        _ => 3,
    }
}

/// Binding strength of a token.
pub(crate) fn prec(t: &Token) -> (r: u8)
    ensures
        r == spec_prec(*t),
{
    prec_at(idx(t))
}

/// Whether no token of `t` is `Eof`.
pub open spec fn no_eof(t: Seq<Token>) -> bool {
    forall|k: int| 0 <= k < t.len() ==> t[k] != Token::Eof
}

/// The binary arithmetic operators.
pub open spec fn is_binary(t: Token) -> bool {
    ||| t == Token::Op(Op::Add)
    ||| t == Token::Op(Op::Sub)
    ||| t == Token::Op(Op::Mul)
    ||| t == Token::Op(Op::Div)
}

pub open spec fn abs(x: int) -> int {
    if x < 0 {
        -x
    } else {
        x
    }
}

/// Integer division rounding toward zero, as `/` does on Rust integers.
pub open spec fn trunc_div(a: int, b: int) -> int {
    let q = abs(a) / abs(b);
    if (a < 0) == (b < 0) {
        q
    } else {
        -q
    }
}

pub open spec fn fits_i64(x: int) -> bool {
    i64::MIN <= x <= i64::MAX
}

/// The mathematical result of a binary operator, before any range check.
pub open spec fn binary_value(t: Token, a: int, b: int) -> int {
    match t {
        Token::Op(Op::Add) => a + b,
        Token::Op(Op::Sub) => a - b,
        Token::Op(Op::Mul) => a * b,
        _ => trunc_div(a, b),
    }
}

/// What `Token::apply` computes: `None` where it panics (division by zero,
/// overflow of `i64`).
pub open spec fn spec_apply(t: Token, a: i64, b: i64) -> Option<i64> {
    if t == Token::Op(Op::Div) && b == 0 {
        None
    } else if fits_i64(binary_value(t, a as int, b as int)) {
        Some(binary_value(t, a as int, b as int) as i64)
    } else {
        None
    }
}

/// `spec_apply` computed with checked arithmetic.
pub(crate) fn checked_apply(t: Token, a: i64, b: i64) -> (r: Option<i64>)
    requires
        is_binary(t),
    ensures
        r == spec_apply(t, a, b),
{
    match t {
        Token::Op(Op::Add) => a.checked_add(b),
        Token::Op(Op::Sub) => a.checked_sub(b),
        Token::Op(Op::Mul) => a.checked_mul(b),
        _ => a.checked_div(b),
    }
}

impl Token {
    /// Applies a binary operator to two operands. Division rounds toward zero.
    pub fn apply(self, a: i64, b: i64) -> (r: i64)
        requires
            is_binary(self),
            spec_apply(self, a, b) is Some,
        ensures
            Some(r) == spec_apply(self, a, b),
    {
        match checked_apply(self, a, b) {
            Some(v) => v,
            None => {
                assert(false);
                0
            },
        }
    }
}

/// The symbol of an operator as it is printed.
pub open spec fn op_symbol(o: Op) -> Seq<char> {
    match o {
        Op::Add => seq!['+'],
        Op::Sub => seq!['-'],
        Op::Mul => seq!['*'],
        Op::Div => seq!['/'],
        _ => seq!['?'],
    }
}

/// The printed symbol of an operator; `?` for those that are not binary.
pub fn fmt_op(o: Op) -> (r: &'static str)
    ensures
        r@ == op_symbol(o),
{
    match o {
        Op::Add => {
            proof {
                reveal_strlit("+");
            }
            "+"
        },
        Op::Sub => {
            proof {
                reveal_strlit("-");
            }
            "-"
        },
        Op::Mul => {
            proof {
                reveal_strlit("*");
            }
            "*"
        },
        Op::Div => {
            proof {
                reveal_strlit("/");
            }
            "/"
        },
        _ => {
            proof {
                reveal_strlit("?");
            }
            "?"
        },
    }
}

} // verus!
