//! What holds of the bytes that encode text.
use crate::text::{
    all_digits, decimal, digit_char, digit_value, digits_value, is_digit, number_in, unsigned_part,
};
use vstd::arithmetic::power::{lemma_pow1, lemma_pow_adds, pow};
use vstd::prelude::*;
use vstd::utf8::{
    char_is_scalar, char_u32_cast, encode_scalar, encode_utf8, is_ascii_chars,
    is_ascii_chars_encode_utf8,
};

verus! {

/// Text in two parts is encoded part by part.
pub proof fn lemma_encode_concat(a: Seq<char>, b: Seq<char>)
    ensures
        encode_utf8(a + b) == encode_utf8(a) + encode_utf8(b),
    decreases a.len(),
{
    if a.len() == 0 {
        assert(a + b =~= b);
        assert(encode_utf8(a) + encode_utf8(b) =~= encode_utf8(b));
    } else {
        lemma_encode_concat(a.drop_first(), b);
        assert((a + b).drop_first() =~= a.drop_first() + b);
        assert(encode_utf8(a + b) =~= encode_scalar(a[0] as u32) + encode_utf8(
            a.drop_first(),
        ) + encode_utf8(b));
    }
}

/// A character beyond ASCII is encoded in bytes that stand for no other; one of ASCII in itself.
proof fn lemma_scalar_bytes(c: char, i: int)
    requires
        0 <= i < encode_scalar(c as u32).len(),
    ensures
        c as u32 <= 0x7f ==> encode_scalar(c as u32) == seq![c as u8],
        c as u32 > 0x7f ==> encode_scalar(c as u32)[i] >= 0x80,
{
    char_is_scalar(c);
    let s = c as u32;
    assert(s <= 0x7f ==> (s & 0x7F) as u8 == s as u8) by (bit_vector);
    assert(0xC0u8 | ((s >> 6) & 0x1F) as u8 >= 0x80) by (bit_vector);
    assert(0xE0u8 | ((s >> 12) & 0x0F) as u8 >= 0x80) by (bit_vector);
    assert(0xF0u8 | ((s >> 18) & 0x7) as u8 >= 0x80) by (bit_vector);
    assert(0x80u8 | (s & 0x3F) as u8 >= 0x80) by (bit_vector);
    assert(0x80u8 | ((s >> 6) & 0x3F) as u8 >= 0x80) by (bit_vector);
    assert(0x80u8 | ((s >> 12) & 0x3F) as u8 >= 0x80) by (bit_vector);
    if s <= 0x7f {
        assert(s as u8 == c as u8);
        assert(encode_scalar(s) =~= seq![c as u8]);
    }
}

/// The byte of an ASCII character comes up only where the character does.
pub proof fn lemma_encode_avoids(chars: Seq<char>, c: char)
    requires
        c as u32 <= 0x7f,
        !chars.contains(c),
    ensures
        !encode_utf8(chars).contains(c as u8),
    decreases chars.len(),
{
    if chars.len() > 0 {
        let first = encode_scalar(chars[0] as u32);
        let rest = encode_utf8(chars.drop_first());
        assert(chars[0] != c);
        assert forall|i: int| 0 <= i < chars.drop_first().len() implies chars.drop_first()[i]
            != c by {
            assert(chars.drop_first()[i] == chars[i + 1]);
        }
        lemma_encode_avoids(chars.drop_first(), c);
        assert forall|i: int| 0 <= i < encode_utf8(chars).len() implies #[trigger] encode_utf8(
            chars,
        )[i] != c as u8 by {
            if i < first.len() {
                lemma_scalar_bytes(chars[0], i);
                if chars[0] as u32 <= 0x7f {
                    assert(first[i] == chars[0] as u8);
                    let d = chars[0];
                    char_u32_cast(d, d as u32);
                    char_u32_cast(c, c as u32);
                    assert(d as u32 != c as u32);
                    assert(d as u8 != c as u8);
                }
            } else {
                assert(encode_utf8(chars)[i] == rest[i - first.len()]);
                assert(rest.contains(rest[i - first.len()]));
            }
        }
    }
}

/// The digits of a number are ASCII digits.
pub proof fn lemma_decimal_digits(n: nat)
    ensures
        decimal(n).len() > 0,
        forall|i: int| 0 <= i < decimal(n).len() ==> '0' <= #[trigger] decimal(n)[i] <= '9',
        is_ascii_chars(decimal(n)),
    decreases n,
{
    if n >= 10 {
        lemma_decimal_digits(n / 10);
    }
}

/// A text has at most four bytes for each character.
pub proof fn lemma_encode_len(chars: Seq<char>)
    ensures
        encode_utf8(chars).len() <= 4 * chars.len(),
    decreases chars.len(),
{
    if chars.len() > 0 {
        lemma_encode_len(chars.drop_first());
        assert(encode_scalar(chars[0] as u32).len() <= 4);
    }
}

/// A number below a power of ten has no more digits than that power has noughts.
pub proof fn lemma_decimal_len(n: nat, k: nat)
    requires
        k > 0,
        n < pow(10, k),
    ensures
        decimal(n).len() <= k,
    decreases k,
{
    if n >= 10 {
        lemma_pow1(10);
        assert(k > 1);
        lemma_pow_adds(10, (k - 1) as nat, 1);
        assert(n / 10 < pow(10, (k - 1) as nat));
        lemma_decimal_len(n / 10, (k - 1) as nat);
    }
}

/// The digits of a number stand for it.
pub proof fn lemma_number_of_decimal(n: nat)
    requires
        n <= usize::MAX,
    ensures
        number_in(encode_utf8(decimal(n))) == Some(n),
{
    lemma_decimal_digits(n);
    is_ascii_chars_encode_utf8(decimal(n));
    let bytes = encode_utf8(decimal(n));
    assert(unsigned_part(bytes) =~= bytes);
    lemma_digits_of_decimal(n, bytes);
}

proof fn lemma_digits_of_decimal(n: nat, bytes: Seq<u8>)
    requires
        bytes.len() == decimal(n).len(),
        forall|i: int| 0 <= i < bytes.len() ==> bytes[i] == decimal(n)[i] as u8,
    ensures
        all_digits(bytes),
        digits_value(bytes) == n,
    decreases n,
{
    lemma_decimal_digits(n);
    assert forall|i: int| 0 <= i < bytes.len() implies is_digit(#[trigger] bytes[i]) by {
        assert('0' <= decimal(n)[i] <= '9');
    }
    let last = bytes.last();
    if n < 10 {
        assert(bytes.drop_last() =~= Seq::empty());
        assert(decimal(n)[0] == digit_char(n));
        assert(digits_value(bytes.drop_last()) == 0);
        assert(digit_value(last) == n);
    } else {
        let head = bytes.drop_last();
        assert(decimal(n).drop_last() =~= decimal(n / 10));
        assert(decimal(n).last() == digit_char(n % 10));
        assert forall|i: int| 0 <= i < head.len() implies head[i] == decimal(n / 10)[i] as u8 by {
            assert(decimal(n)[i] == decimal(n / 10)[i]);
        }
        lemma_digits_of_decimal(n / 10, head);
        assert(digit_value(last) == n % 10);
    }
}

} // verus!
