use vstd::prelude::*;
use vstd::utf8::*;

verus! {

/// The number of bytes of the UTF-8 encoding of `s`.
pub open spec fn byte_len(s: Seq<char>) -> int {
    encode_utf8(s).len() as int
}

/// The index of the character at which byte offset `p` of the UTF-8
/// encoding of `s` starts; `None` when `p` is not a character boundary
/// (nor the end of the encoding).
pub open spec fn char_at_byte(s: Seq<char>, p: int) -> Option<int>
    decreases s.len(),
{
    if p == 0 {
        Some(0)
    } else if p < 0 || s.len() == 0 {
        None
    } else {
        let w = encode_scalar(s[0] as u32).len() as int;
        if p < w {
            None
        } else {
            match char_at_byte(s.drop_first(), p - w) {
                Some(k) => Some(k + 1),
                None => None,
            }
        }
    }
}

/// Encoding distributes over concatenation.
pub proof fn lemma_encode_concat(a: Seq<char>, b: Seq<char>)
    ensures
        encode_utf8(a + b) == encode_utf8(a) + encode_utf8(b),
    decreases a.len(),
{
    if a.len() > 0 {
        lemma_encode_concat(a.drop_first(), b);
        assert((a + b).drop_first() =~= a.drop_first() + b);
        assert((a + b)[0] == a[0]);
        assert(encode_utf8(a + b) =~= encode_utf8(a) + encode_utf8(b));
    } else {
        assert(a + b =~= b);
        assert(encode_utf8(a) + encode_utf8(b) =~= encode_utf8(b));
    }
}

/// A character takes at least one byte.
pub proof fn lemma_encode_single(c: char)
    ensures
        byte_len(seq![c]) == encode_scalar(c as u32).len(),
        byte_len(seq![c]) >= 1,
{
    assert(seq![c].drop_first() =~= Seq::<char>::empty());
    assert(encode_utf8(Seq::<char>::empty()) =~= Seq::<u8>::empty());
    assert(encode_utf8(seq![c]) =~= encode_scalar(c as u32));
}

/// A proper prefix has a shorter encoding.
pub proof fn lemma_prefix_shorter(s: Seq<char>, k: int)
    requires
        0 <= k < s.len(),
    ensures
        byte_len(s.take(k)) < byte_len(s),
{
    let rest = s.skip(k);
    assert(s =~= s.take(k) + rest);
    lemma_encode_concat(s.take(k), rest);
    assert(rest =~= seq![rest[0]] + rest.drop_first());
    lemma_encode_concat(seq![rest[0]], rest.drop_first());
    lemma_encode_single(rest[0]);
}

/// A boundary found by `char_at_byte` is the length of the encoding of the
/// characters before it.
pub proof fn lemma_char_at_byte(s: Seq<char>, p: int)
    requires
        char_at_byte(s, p) is Some,
    ensures
        0 <= char_at_byte(s, p)->Some_0 <= s.len(),
        byte_len(s.take(char_at_byte(s, p)->Some_0)) == p,
        0 <= p <= byte_len(s),
    decreases s.len(),
{
    let k = char_at_byte(s, p)->Some_0;
    if p == 0 {
        assert(s.take(0) =~= Seq::<char>::empty());
        assert(byte_len(s) >= 0);
    } else {
        let w = encode_scalar(s[0] as u32).len() as int;
        let t = s.drop_first();
        lemma_char_at_byte(t, p - w);
        let k1 = char_at_byte(t, p - w)->Some_0;
        assert(s.take(k) =~= seq![s[0]] + t.take(k1));
        lemma_encode_concat(seq![s[0]], t.take(k1));
        lemma_encode_single(s[0]);
        assert(s =~= seq![s[0]] + t);
        lemma_encode_concat(seq![s[0]], t);
    }
}

/// `char_at_byte` finds exactly the character boundaries of the encoding.
pub proof fn lemma_char_at_byte_boundary(s: Seq<char>, p: int)
    ensures
        char_at_byte(s, p) is Some <==> is_char_boundary(encode_utf8(s), p),
    decreases s.len(),
{
    broadcast use encode_utf8_valid_utf8;

    let b = encode_utf8(s);
    if p == 0 {
    } else if s.len() == 0 {
        assert(b.len() == 0);
    } else {
        encode_utf8_first_scalar(s);
        let w = encode_scalar(s[0] as u32).len() as int;
        assert(pop_first_scalar(b) =~= encode_utf8(s.drop_first()));
        lemma_char_at_byte_boundary(s.drop_first(), p - w);
        if p < 0 {
        } else if p > b.len() {
            if char_at_byte(s, p) is Some {
                lemma_char_at_byte(s, p);
            }
        }
    }
}

} // verus!
