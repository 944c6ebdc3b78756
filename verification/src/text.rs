//! Cutting a string slice at character positions. A `&str` is cut at byte
//! offsets; the functions here find those offsets and say, over the
//! characters of the slice, what each piece holds.

use vstd::prelude::*;
use vstd::string::StringExecFns;
use vstd::string::StringSliceAdditionalSpecFns;
use vstd::utf8::*;

verus! {

/// The encoding of a concatenation is the concatenation of the encodings.
pub proof fn lemma_encode_concat(a: Seq<char>, b: Seq<char>)
    ensures
        encode_utf8(a + b) == encode_utf8(a) + encode_utf8(b),
    decreases a.len(),
{
    if a.len() == 0 {
        assert(a + b == b);
        assert(encode_utf8(a) + encode_utf8(b) == encode_utf8(b));
    } else {
        assert((a + b).drop_first() == a.drop_first() + b);
        assert((a + b)[0] == a[0]);
        lemma_encode_concat(a.drop_first(), b);
        assert(encode_utf8(a + b) == encode_scalar(a[0] as u32) + (encode_utf8(a.drop_first())
            + encode_utf8(b)));
        assert(encode_utf8(a) + encode_utf8(b) == encode_scalar(a[0] as u32) + (encode_utf8(
            a.drop_first(),
        ) + encode_utf8(b)));
    }
}

/// Every character takes at least one byte.
pub proof fn lemma_encode_len(a: Seq<char>)
    ensures
        a.len() <= encode_utf8(a).len(),
    decreases a.len(),
{
    if a.len() > 0 {
        lemma_encode_len(a.drop_first());
    }
}

/// The end of the encoding of a prefix is a character boundary of the
/// encoding of the whole.
pub proof fn lemma_prefix_boundary(a: Seq<char>, b: Seq<char>)
    ensures
        is_char_boundary(encode_utf8(a + b), encode_utf8(a).len() as int),
    decreases a.len(),
{
    let bytes = encode_utf8(a + b);
    encode_utf8_valid_utf8(a + b);
    if a.len() > 0 {
        let rest = a.drop_first() + b;
        assert((a + b).drop_first() == rest);
        assert((a + b)[0] == a[0]);
        encode_utf8_first_scalar(a + b);
        let w = encode_scalar(a[0] as u32).len();
        assert(pop_first_scalar(bytes) == encode_utf8(rest));
        lemma_prefix_boundary(a.drop_first(), b);
        lemma_encode_concat(a, b);
        assert(encode_utf8(a).len() == w + encode_utf8(a.drop_first()).len());
        assert(w >= 1);
    }
}

/// Two character sequences with the same encoding are the same.
pub proof fn lemma_encode_injective(a: Seq<char>, b: Seq<char>)
    requires
        encode_utf8(a) == encode_utf8(b),
    ensures
        a == b,
{
    encode_utf8_decode_utf8(a);
    encode_utf8_decode_utf8(b);
}

/// Cuts `s` after `mid` bytes, where those bytes are the first `k`
/// characters.
fn split_chars<'a>(s: &'a str, mid: usize, Ghost(k): Ghost<int>) -> (r: (&'a str, &'a str))
    requires
        0 <= k <= s@.len(),
        mid == encode_utf8(s@.take(k)).len(),
    ensures
        r.0@ == s@.take(k),
        r.1@ == s@.skip(k),
{
    let ghost a = s@.take(k);
    let ghost b = s@.skip(k);
    proof {
        assert(s@ == a + b);
        lemma_prefix_boundary(a, b);
        lemma_encode_concat(a, b);
    }
    let r = s.split_at(mid);
    proof {
        let bytes = s.spec_bytes();
        assert(bytes.subrange(0, mid as int) == encode_utf8(a));
        assert(bytes.subrange(mid as int, bytes.len() as int) == encode_utf8(b));
        lemma_encode_injective(r.0@, a);
        lemma_encode_injective(r.1@, b);
    }
    r
}

/// A character is ASCII where its code is below 128.
pub proof fn lemma_ascii_code(c: char)
    ensures
        (c <= '\u{7f}') == (c as u32 <= 127),
{
}

/// The first character of `s`, if there is one and it is ASCII.
pub fn ascii_head(s: &str) -> (r: Option<u8>)
    ensures
        match r {
            Some(b) => s@.len() > 0 && b < 128 && s@[0] == b as char,
            None => s@.len() == 0 || s@[0] > '\u{7f}',
        },
{
    let bytes = s.as_bytes();
    proof {
        lemma_encode_len(s@);
    }
    if bytes.len() == 0 {
        return None;
    }
    let b = bytes[0];
    proof {
        assert(s@.len() > 0) by {
            if s@.len() == 0 {
                assert(encode_utf8(s@).len() == 0);
            }
        }
        encode_utf8_first_scalar(s@);
        lemma_ascii_code(s@[0]);
        assert(b < 128 ==> (b & 0x7F) as u32 == b as u32) by (bit_vector);
        if b < 128 {
            char_u32_cast(s@[0], b as u32);
        }
    }
    if b < 128 {
        Some(b)
    } else {
        None
    }
}

/// Cuts `s` after its first character.
pub fn split_first<'a>(s: &'a str) -> (r: (&'a str, &'a str))
    requires
        s@.len() > 0,
    ensures
        r.0@ == s@.take(1),
        r.1@ == s@.skip(1),
{
    let bytes = s.as_bytes();
    proof {
        lemma_encode_len(s@);
        encode_utf8_first_scalar(s@);
        let one = s@.take(1);
        assert(one.drop_first().len() == 0);
        assert(encode_utf8(one) == encode_scalar(s@[0] as u32) + encode_utf8(one.drop_first()));
        assert(encode_utf8(one.drop_first()) == Seq::<u8>::empty());
        assert(encode_utf8(one) == encode_scalar(s@[0] as u32));
    }
    let b = bytes[0];
    let w: usize = if b < 0x80 {
        1
    } else if b < 0xE0 {
        2
    } else if b < 0xF0 {
        3
    } else {
        4
    };
    split_chars(s, w, Ghost(1))
}

/// Cuts `s` after its first `n` characters, all of them ASCII.
pub fn split_ascii<'a>(s: &'a str, n: usize) -> (r: (&'a str, &'a str))
    requires
        n <= s@.len(),
        is_ascii_chars(s@.take(n as int)),
    ensures
        r.0@ == s@.take(n as int),
        r.1@ == s@.skip(n as int),
{
    proof {
        is_ascii_chars_encode_utf8(s@.take(n as int));
    }
    split_chars(s, n, Ghost(n as int))
}

/// The character of a decimal digit.
pub open spec fn digit_char(d: nat) -> char
    recommends
        d < 10,
{
    if d == 0 {
        '0'
    } else if d == 1 {
        '1'
    } else if d == 2 {
        '2'
    } else if d == 3 {
        '3'
    } else if d == 4 {
        '4'
    } else if d == 5 {
        '5'
    } else if d == 6 {
        '6'
    } else if d == 7 {
        '7'
    } else if d == 8 {
        '8'
    } else {
        '9'
    }
}

/// A natural number in decimal, without leading zeros.
pub open spec fn nat_text(n: nat) -> Seq<char>
    decreases n,
{
    if n < 10 {
        seq![digit_char(n)]
    } else {
        nat_text(n / 10).push(digit_char(n % 10))
    }
}

/// An integer in decimal, with a minus sign where it is negative.
pub open spec fn int_text(i: int) -> Seq<char> {
    if i < 0 {
        seq!['-'] + nat_text((-i) as nat)
    } else {
        nat_text(i as nat)
    }
}

/// The text of one decimal digit.
fn digit_str(d: u64) -> (r: &'static str)
    requires
        d < 10,
    ensures
        r@ == seq![digit_char(d as nat)],
{
    proof {
        reveal_strlit("0");
        reveal_strlit("1");
        reveal_strlit("2");
        reveal_strlit("3");
        reveal_strlit("4");
        reveal_strlit("5");
        reveal_strlit("6");
        reveal_strlit("7");
        reveal_strlit("8");
        reveal_strlit("9");
    }
    let r = if d == 0 {
        "0"
    } else if d == 1 {
        "1"
    } else if d == 2 {
        "2"
    } else if d == 3 {
        "3"
    } else if d == 4 {
        "4"
    } else if d == 5 {
        "5"
    } else if d == 6 {
        "6"
    } else if d == 7 {
        "7"
    } else if d == 8 {
        "8"
    } else {
        "9"
    };
    assert(r@ =~= seq![digit_char(d as nat)]);
    r
}

/// Writes `n` in decimal.
pub fn u64_to_string(n: u64) -> (r: String)
    ensures
        r@ == nat_text(n as nat),
    decreases n,
{
    if n < 10 {
        String::from_str(digit_str(n))
    } else {
        let mut r = u64_to_string(n / 10);
        r.append(digit_str(n % 10));
        assert(r@ =~= nat_text(n as nat));
        r
    }
}

/// Writes `i` in decimal.
pub fn i32_to_string(i: i32) -> (r: String)
    ensures
        r@ == int_text(i as int),
{
    if i < 0 {
        proof {
            reveal_strlit("-");
        }
        let mut r = String::from_str("-");
        let m: u64 = (-(i as i64)) as u64;
        let digits = u64_to_string(m);
        r.append(digits.as_str());
        assert(r@ =~= int_text(i as int));
        r
    } else {
        u64_to_string(i as u64)
    }
}

} // verus!
