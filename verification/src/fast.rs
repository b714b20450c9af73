use vstd::prelude::*;
use vstd::string::StringSliceAdditionalSpecFns;

use crate::digits::{is_digit, parse_i64, parse_i64_spec};
use crate::token::Op;

verus! {

/// ASCII white space as `u8::is_ascii_whitespace` has it: space, tab,
/// newline, form feed, carriage return.
pub open spec fn is_ascii_ws(c: u8) -> bool {
    c == 32 || c == 9 || c == 10 || c == 12 || c == 13
}

/// First position at or after `i` that is not ASCII white space.
pub open spec fn skip_ws(b: Seq<u8>, i: int) -> int
    decreases b.len() - i,
{
    if 0 <= i < b.len() && is_ascii_ws(b[i]) {
        skip_ws(b, i + 1)
    } else {
        i
    }
}

/// End of the run of digits and `-` that starts at `i`.
pub open spec fn number_run_end(b: Seq<u8>, i: int) -> int
    decreases b.len() - i,
{
    if 0 <= i < b.len() && (is_digit(b[i]) || b[i] == 45) {
        number_run_end(b, i + 1)
    } else {
        i
    }
}

/// The binary operator a byte stands for.
pub open spec fn op_of_byte(c: u8) -> Option<Op> {
    if c == 43 {
        Some(Op::Add)
    } else if c == 45 {
        Some(Op::Sub)
    } else if c == 42 {
        Some(Op::Mul)
    } else if c == 47 {
        Some(Op::Div)
    } else {
        None
    }
}

/// A run of digits and `-` that stops at another byte (or the end) ends there.
pub proof fn lemma_number_run_end_exact(b: Seq<u8>, i: int, e: int)
    requires
        0 <= i <= e <= b.len(),
        forall|k: int| i <= k < e ==> (is_digit(#[trigger] b[k]) || b[k] == 45),
        e == b.len() || !(is_digit(b[e]) || b[e] == 45),
    ensures
        number_run_end(b, i) == e,
    decreases e - i,
{
    if i < e {
        lemma_number_run_end_exact(b, i + 1, e);
    }
}

/// Reads `a op b` at the start of `b`: white space, a signed number, white
/// space, one of `+ - * /`, white space, a signed number. Gives the two
/// numbers, the operator and the position where the second number ends.
pub open spec fn fast_two_scan(b: Seq<u8>) -> Option<(i64, Op, i64, int)> {
    let s1 = skip_ws(b, 0);
    let e1 = number_run_end(b, s1);
    match parse_i64_spec(b.subrange(s1, e1)) {
        None => None,
        Some(x) => {
            let o = skip_ws(b, e1);
            if o >= b.len() {
                None
            } else {
                match op_of_byte(b[o]) {
                    None => None,
                    Some(op) => {
                        let s2 = skip_ws(b, o + 1);
                        let e2 = number_run_end(b, s2);
                        match parse_i64_spec(b.subrange(s2, e2)) {
                            None => None,
                            Some(y) => Some((x, op, y, e2)),
                        }
                    },
                }
            }
        },
    }
}

/// `fast_two_scan` without the end position: what follows is ignored.
pub open spec fn fast_two_spec(b: Seq<u8>) -> Option<(i64, Op, i64)> {
    match fast_two_scan(b) {
        Some((x, op, y, _)) => Some((x, op, y)),
        None => None,
    }
}

fn skip_ascii_ws(bytes: &[u8], i: usize) -> (r: usize)
    requires
        i <= bytes@.len(),
    ensures
        r == skip_ws(bytes@, i as int),
        i <= r <= bytes@.len(),
{
    let mut j = i;
    while j < bytes.len() && (bytes[j] == 32 || bytes[j] == 9 || bytes[j] == 10 || bytes[j] == 12
        || bytes[j] == 13)
        invariant
            i <= j <= bytes@.len(),
            skip_ws(bytes@, i as int) == skip_ws(bytes@, j as int),
        decreases bytes@.len() - j,
    {
        j += 1;
    }
    j
}

fn scan_number(bytes: &[u8], i: usize) -> (r: usize)
    requires
        i <= bytes@.len(),
    ensures
        r == number_run_end(bytes@, i as int),
        i <= r <= bytes@.len(),
{
    let mut j = i;
    while j < bytes.len() && ((48 <= bytes[j] && bytes[j] <= 57) || bytes[j] == 45)
        invariant
            i <= j <= bytes@.len(),
            number_run_end(bytes@, i as int) == number_run_end(bytes@, j as int),
        decreases bytes@.len() - j,
    {
        j += 1;
    }
    j
}

/// Computes `fast_two_scan` of `input`.
pub fn scan_two(input: &str) -> (r: Option<(i64, Op, i64, usize)>)
    ensures
        match r {
            Some((x, op, y, e)) => fast_two_scan(input.spec_bytes()) == Some((x, op, y, e as int)),
            None => fast_two_scan(input.spec_bytes()) is None,
        },
{
    let bytes = input.as_bytes();
    let len = bytes.len();
    let s1 = skip_ascii_ws(bytes, 0);
    let e1 = scan_number(bytes, s1);
    let a = match parse_i64(&bytes[s1..e1]) {
        Some(a) => a,
        None => {
            return None;
        },
    };
    let o = skip_ascii_ws(bytes, e1);
    if o >= len {
        return None;
    }
    let c = bytes[o];
    let op = if c == 43 {
        Op::Add
    } else if c == 45 {
        Op::Sub
    } else if c == 42 {
        Op::Mul
    } else if c == 47 {
        Op::Div
    } else {
        return None;
    };
    let s2 = skip_ascii_ws(bytes, o + 1);
    let e2 = scan_number(bytes, s2);
    let b = match parse_i64(&bytes[s2..e2]) {
        Some(b) => b,
        None => {
            return None;
        },
    };
    Some((a, op, b, e2))
}

/// Recognises an input of the form `a op b` (two signed numbers around one
/// binary operator) at the start of `input`.
pub fn fast_two(input: &str) -> (r: Option<(i64, Op, i64)>)
    ensures
        r == fast_two_spec(input.spec_bytes()),
        r is Some <==> fast_two_scan(input.spec_bytes()) is Some,
        fast_two_scan(input.spec_bytes()) matches Some((x, op, y, _)) ==> r == Some((x, op, y)),
{
    match scan_two(input) {
        Some((a, op, b, _)) => Some((a, op, b)),
        None => None,
    }
}

} // verus!
