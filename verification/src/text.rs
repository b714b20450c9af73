use vstd::prelude::*;
use vstd::string::*;
use vstd::utf8::*;

use crate::digits::{decimal_bytes, lemma_decimal_bytes, parse_i64_spec, unsigned_part};
use crate::utf8_index::lemma_encode_concat;

verus! {

/// White space in the sense of `char::is_whitespace` (the Unicode
/// `White_Space` property).
pub open spec fn is_white_space(c: char) -> bool {
    let u = c as u32;
    ||| 0x9 <= u <= 0xD
    ||| u == 0x20
    ||| u == 0x85
    ||| u == 0xA0
    ||| u == 0x1680
    ||| 0x2000 <= u <= 0x200A
    ||| u == 0x2028
    ||| u == 0x2029
    ||| u == 0x202F
    ||| u == 0x205F
    ||| u == 0x3000
}

/// Decides `is_white_space`.
pub fn char_is_white_space(c: char) -> (r: bool)
    ensures
        r == is_white_space(c),
{
    let u = c as u32;
    (0x9 <= u && u <= 0xD) || u == 0x20 || u == 0x85 || u == 0xA0 || u == 0x1680 || (0x2000 <= u
        && u <= 0x200A) || u == 0x2028 || u == 0x2029 || u == 0x202F || u == 0x205F || u == 0x3000
}

/// First position at or after `i` whose character is not white space.
pub open spec fn leading_ws_end(s: Seq<char>, i: int) -> int
    decreases s.len() - i,
{
    if 0 <= i < s.len() && is_white_space(s[i]) {
        leading_ws_end(s, i + 1)
    } else {
        i
    }
}

/// Start of the run of white space that ends at `j`.
pub open spec fn trailing_ws_start(s: Seq<char>, j: int) -> int
    decreases j,
{
    if 0 < j <= s.len() && is_white_space(s[j - 1]) {
        trailing_ws_start(s, j - 1)
    } else {
        j
    }
}

/// `s` without leading and trailing white space, as `str::trim` gives it.
pub open spec fn trim_chars(s: Seq<char>) -> Seq<char> {
    let a = leading_ws_end(s, 0);
    if a >= s.len() {
        Seq::empty()
    } else {
        s.subrange(a, trailing_ws_start(s, s.len() as int))
    }
}

proof fn lemma_trailing_ws_start_le(s: Seq<char>, j: int)
    requires
        0 <= j <= s.len(),
    ensures
        0 <= trailing_ws_start(s, j) <= j,
    decreases j,
{
    if 0 < j && is_white_space(s[j - 1]) {
        lemma_trailing_ws_start_le(s, j - 1);
    }
}

proof fn lemma_trailing_ws_start_above(s: Seq<char>, j: int, a: int)
    requires
        0 <= a < j <= s.len(),
        !is_white_space(s[a]),
    ensures
        a < trailing_ws_start(s, j) <= j,
    decreases j,
{
    if is_white_space(s[j - 1]) {
        lemma_trailing_ws_start_above(s, j - 1, a);
    }
}

/// Removes leading and trailing white space.
pub fn trim(s: &str) -> (r: &str)
    ensures
        r@ == trim_chars(s@),
{
    let n = s.unicode_len();
    let mut a: usize = 0;
    while a < n && char_is_white_space(s.get_char(a))
        invariant
            n == s@.len(),
            a <= n,
            leading_ws_end(s@, 0) == leading_ws_end(s@, a as int),
        decreases n - a,
    {
        a += 1;
    }
    if a >= n {
        proof {
            assert(leading_ws_end(s@, a as int) == a);
        }
        return s.substring_char(0, 0);
    }
    proof {
        assert(leading_ws_end(s@, a as int) == a);
        lemma_trailing_ws_start_above(s@, n as int, a as int);
    }
    let mut z: usize = n;
    while z > a && char_is_white_space(s.get_char(z - 1))
        invariant
            n == s@.len(),
            a < n,
            !is_white_space(s@[a as int]),
            a <= z <= n,
            trailing_ws_start(s@, n as int) == trailing_ws_start(s@, z as int),
        decreases z,
    {
        z -= 1;
    }
    proof {
        lemma_trailing_ws_start_le(s@, z as int);
        assert(trailing_ws_start(s@, z as int) == z);
    }
    s.substring_char(a, z)
}

/// The character of a decimal digit.
pub open spec fn digit_char(d: int) -> char {
    (48 + d) as char
}

/// The decimal numeral of `n`.
pub open spec fn nat_decimal(n: nat) -> Seq<char>
    decreases n,
{
    if n < 10 {
        seq![digit_char(n as int)]
    } else {
        nat_decimal(n / 10).push(digit_char((n % 10) as int))
    }
}

/// The decimal numeral of `n`, with `-` before a negative one, as `i64`'s
/// `Display` writes it.
pub open spec fn int_decimal(n: int) -> Seq<char> {
    if n < 0 {
        seq!['-'] + nat_decimal((-n) as nat)
    } else {
        nat_decimal(n as nat)
    }
}

pub proof fn lemma_encode_ascii(c: char)
    requires
        (c as u32) < 0x80,
    ensures
        encode_utf8(seq![c]) == seq![(c as u32) as u8],
{
    let v = c as u32;
    assert(v <= 0x7F ==> (v & 0x7F) == v) by (bit_vector);
    assert(seq![c].drop_first() =~= Seq::<char>::empty());
    assert(encode_utf8(Seq::<char>::empty()) =~= Seq::<u8>::empty());
    assert(encode_utf8(seq![c]) =~= seq![(c as u32) as u8]);
}

pub proof fn lemma_encode_nat_decimal(n: nat)
    ensures
        encode_utf8(nat_decimal(n)) == decimal_bytes(n),
    decreases n,
{
    if n < 10 {
        lemma_encode_ascii(digit_char(n as int));
        assert(decimal_bytes(n) =~= seq![(48 + n) as u8]);
    } else {
        lemma_encode_nat_decimal(n / 10);
        let c = digit_char((n % 10) as int);
        lemma_encode_ascii(c);
        lemma_encode_concat(nat_decimal(n / 10), seq![c]);
        assert(nat_decimal(n / 10).push(c) =~= nat_decimal(n / 10) + seq![c]);
        assert(encode_utf8(nat_decimal(n)) =~= decimal_bytes(n));
    }
}

/// A number printed by `push_i64` reads back, with `str::parse::<i64>`
/// semantics, as the same number.
pub proof fn lemma_decimal_reads_back(n: i64)
    ensures
        parse_i64_spec(encode_utf8(int_decimal(n as int))) == Some(n),
{
    if n < 0 {
        let m = (-n) as nat;
        lemma_encode_nat_decimal(m);
        lemma_decimal_bytes(m);
        lemma_encode_ascii('-');
        lemma_encode_concat(seq!['-'], nat_decimal(m));
        let b = encode_utf8(int_decimal(n as int));
        assert(b == seq![45u8] + decimal_bytes(m));
        assert(unsigned_part(b) =~= decimal_bytes(m));
    } else {
        lemma_encode_nat_decimal(n as nat);
        lemma_decimal_bytes(n as nat);
        let b = encode_utf8(int_decimal(n as int));
        assert(unsigned_part(b) == b);
    }
}

fn digit_str(d: u64) -> (r: &'static str)
    requires
        d < 10,
    ensures
        r@ == seq![digit_char(d as int)],
{
    proof {
        reveal_strlit("0");
        reveal_strlit("1");
        reveal_strlit("2");
        reveal_strlit("3");
        reveal_strlit("4");
        reveal_strlit("5");
        reveal_strlit("6");
        reveal_strlit("7");
        reveal_strlit("8");
        reveal_strlit("9");
    }
    match d {
        0 => "0",
        1 => "1",
        2 => "2",
        3 => "3",
        4 => "4",
        5 => "5",
        6 => "6",
        7 => "7",
        8 => "8",
        _ => "9",
    }
}

fn push_decimal(s: &mut String, n: u64)
    ensures
        final(s)@ == old(s)@ + nat_decimal(n as nat),
    decreases n,
{
    if n >= 10 {
        push_decimal(s, n / 10);
    }
    s.append(digit_str(n % 10));
    proof {
        if n >= 10 {
            assert(old(s)@ + nat_decimal(n as nat) =~= old(s)@ + nat_decimal((n / 10) as nat) + seq![
                digit_char((n % 10) as int),
            ]);
        } else {
            assert(nat_decimal(n as nat) =~= seq![digit_char(n as int)]);
        }
    }
}

/// Appends the decimal numeral of `n` to `s`.
pub fn push_i64(s: &mut String, n: i64)
    ensures
        final(s)@ == old(s)@ + int_decimal(n as int),
{
    if n < 0 {
        proof {
            reveal_strlit("-");
        }
        s.append("-");
        let m: u64 = (-(n as i128)) as u64;
        push_decimal(s, m);
        proof {
            assert(final(s)@ =~= old(s)@ + int_decimal(n as int));
        }
    } else {
        push_decimal(s, n as u64);
    }
}

} // verus!
