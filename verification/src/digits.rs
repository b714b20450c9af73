use vstd::prelude::*;

verus! {

/// The ASCII decimal digits `0` to `9`.
pub open spec fn is_digit(c: u8) -> bool {
    48 <= c <= 57
}

/// The number written by the digits `b[start..end]`.
pub open spec fn digits_value(b: Seq<u8>, start: int, end: int) -> int
    decreases end - start,
{
    if end <= start {
        0
    } else {
        digits_value(b, start, end - 1) * 10 + (b[end - 1] - 48)
    }
}

/// Digits denote a non-negative number.
pub proof fn lemma_digits_value_nonneg(b: Seq<u8>, start: int, end: int)
    requires
        forall|k: int| start <= k < end ==> is_digit(#[trigger] b[k]),
    ensures
        digits_value(b, start, end) >= 0,
    decreases end - start,
{
    if end > start {
        lemma_digits_value_nonneg(b, start, end - 1);
    }
}

/// Reading more digits never makes the number smaller.
pub proof fn lemma_digits_value_mono(b: Seq<u8>, start: int, k: int, m: int)
    requires
        start <= k <= m,
        forall|x: int| start <= x < m ==> is_digit(#[trigger] b[x]),
    ensures
        digits_value(b, start, k) <= digits_value(b, start, m),
    decreases m - k,
{
    if k < m {
        lemma_digits_value_mono(b, start, k, m - 1);
        lemma_digits_value_nonneg(b, start, m - 1);
    }
}

/// The ASCII decimal numeral of `n`, most significant digit first.
pub open spec fn decimal_bytes(n: nat) -> Seq<u8>
    decreases n,
{
    if n < 10 {
        seq![(48 + n) as u8]
    } else {
        decimal_bytes(n / 10).push((48 + n % 10) as u8)
    }
}

/// The numeral of `n` is made of digits and reads back as `n`.
pub proof fn lemma_decimal_bytes(n: nat)
    ensures
        decimal_bytes(n).len() >= 1,
        forall|k: int| 0 <= k < decimal_bytes(n).len() ==> is_digit(#[trigger] decimal_bytes(n)[k]),
        digits_value(decimal_bytes(n), 0, decimal_bytes(n).len() as int) == n,
    decreases n,
{
    let d = decimal_bytes(n);
    if n < 10 {
        assert(digits_value(d, 0, 0) == 0);
    } else {
        let p = decimal_bytes(n / 10);
        lemma_decimal_bytes(n / 10);
        assert(d.drop_last() =~= p);
        lemma_digits_value_prefix(d, p.len() as int);
        assert forall|k: int| 0 <= k < d.len() implies is_digit(#[trigger] d[k]) by {
            if k < p.len() {
                assert(d[k] == p[k]);
            }
        }
    }
}

/// `digits_value` reads only the bytes in its range.
pub proof fn lemma_digits_value_prefix(b: Seq<u8>, e: int)
    requires
        0 <= e <= b.len(),
    ensures
        digits_value(b, 0, e) == digits_value(b.take(e), 0, e),
    decreases e,
{
    if e > 0 {
        lemma_digits_value_prefix(b, e - 1);
        lemma_digits_value_prefix(b.take(e), e - 1);
        assert(b.take(e).take(e - 1) =~= b.take(e - 1));
    }
}

/// `digits_value` depends only on the bytes it reads: a range of `b` that
/// holds the bytes of `d` reads as `d` does.
pub proof fn lemma_digits_value_shift(b: Seq<u8>, d: Seq<u8>, i: int, e: int)
    requires
        0 <= i <= e <= b.len(),
        e - i <= d.len(),
        forall|k: int| 0 <= k < e - i ==> b[i + k] == d[k],
    ensures
        digits_value(b, i, e) == digits_value(d, 0, e - i),
    decreases e - i,
{
    if e > i {
        lemma_digits_value_shift(b, d, i, e - 1);
        assert(b[e - 1] == d[e - 1 - i]);
    }
}

/// Whether every byte of `s` is a digit.
pub open spec fn all_digits(s: Seq<u8>) -> bool {
    forall|k: int| 0 <= k < s.len() ==> is_digit(#[trigger] s[k])
}

/// The digits of a signed decimal: `s` without a leading `+` or `-`.
pub open spec fn unsigned_part(s: Seq<u8>) -> Seq<u8> {
    if s.len() > 0 && (s[0] == 43 || s[0] == 45) {
        s.drop_first()
    } else {
        s
    }
}

/// The number written by a signed decimal, before any range check.
pub open spec fn signed_value(s: Seq<u8>) -> int {
    let d = unsigned_part(s);
    let m = digits_value(d, 0, d.len() as int);
    if s.len() > 0 && s[0] == 45 {
        -m
    } else {
        m
    }
}

/// What `<i64 as FromStr>::from_str` gives for the bytes `s`: an optional
/// sign followed by at least one digit, with a value in the range of `i64`.
pub open spec fn parse_i64_spec(s: Seq<u8>) -> Option<i64> {
    let d = unsigned_part(s);
    if d.len() == 0 || !all_digits(d) || !(i64::MIN <= signed_value(s) <= i64::MAX) {
        None
    } else {
        Some(signed_value(s) as i64)
    }
}

/// Parses a signed decimal as `str::parse::<i64>` does.
pub fn parse_i64(s: &[u8]) -> (r: Option<i64>)
    ensures
        r == parse_i64_spec(s@),
{
    let n = s.len();
    if n == 0 {
        return None;
    }
    let neg = s[0] == 45;
    let first: usize = if s[0] == 43 || s[0] == 45 {
        1
    } else {
        0
    };
    if first == n {
        return None;
    }
    let ghost d = unsigned_part(s@);
    proof {
        assert(d =~= s@.subrange(first as int, n as int));
    }
    let mut v: i64 = 0;
    let mut k: usize = first;
    while k < n
        invariant
            first <= k <= n,
            n == s@.len(),
            first == 0 || first == 1,
            d == s@.subrange(first as int, n as int),
            d == unsigned_part(s@),
            neg == (s@[0] == 45),
            neg ==> first == 1,
            forall|x: int| 0 <= x < k - first ==> is_digit(#[trigger] d[x]),
            v == (if neg {
                -digits_value(d, 0, k - first)
            } else {
                digits_value(d, 0, k - first)
            }),
        decreases n - k,
    {
        let c = s[k];
        if !(48 <= c && c <= 57) {
            proof {
                assert(d[k - first] == c);
                assert(!all_digits(d));
            }
            return None;
        }
        let digit = (c - 48) as i64;
        let step = match v.checked_mul(10) {
            Some(m) => if neg {
                m.checked_sub(digit)
            } else {
                m.checked_add(digit)
            },
            None => None,
        };
        match step {
            Some(w) => {
                v = w;
                k += 1;
            },
            None => {
                proof {
                    let j = k - first + 1;
                    assert(is_digit(d[j - 1]));
                    lemma_digits_value_nonneg(d, 0, j - 1);
                    if all_digits(d) {
                        lemma_digits_value_mono(d, 0, j, d.len() as int);
                    }
                }
                return None;
            },
        }
    }
    proof {
        assert(all_digits(d));
    }
    Some(v)
}

} // verus!
