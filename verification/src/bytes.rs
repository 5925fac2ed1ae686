//! Little-endian integers.

use vstd::prelude::*;
use vstd::slice::slice_subrange;

verus! {

/// The number whose little-endian digits in base 256 are `s`.
pub open spec fn le_value(s: Seq<u8>) -> nat
    decreases s.len(),
{
    if s.len() == 0 {
        0
    } else {
        s[0] as nat + 256 * le_value(s.skip(1))
    }
}

/// The `width` lowest base-256 digits of `n`, lowest first.
pub open spec fn le_bytes(n: nat, width: nat) -> Seq<u8>
    decreases width,
{
    if width == 0 {
        Seq::empty()
    } else {
        seq![(n % 256) as u8] + le_bytes(n / 256, (width - 1) as nat)
    }
}

/// 256 to the power `width`.
pub open spec fn le_bound(width: nat) -> nat
    decreases width,
{
    if width == 0 {
        1
    } else {
        256 * le_bound((width - 1) as nat)
    }
}

/// The digits of all `values`, `width` for each.
pub open spec fn le_words(values: Seq<nat>, width: nat) -> Seq<u8>
    decreases values.len(),
{
    if values.len() == 0 {
        Seq::empty()
    } else {
        le_words(values.drop_last(), width) + le_bytes(values.last(), width)
    }
}

/// The number with index `i` of those whose digits are `s`, `width` for each.
pub open spec fn word_at(s: Seq<u8>, i: int, width: nat) -> nat {
    le_value(s.subrange(i * width, i * width + width))
}

/// `le_bytes` always yields `width` digits.
pub proof fn lemma_le_bytes_len(n: nat, width: nat)
    ensures
        le_bytes(n, width).len() == width,
    decreases width,
{
    if width > 0 {
        lemma_le_bytes_len(n / 256, (width - 1) as nat);
    }
}

/// Decoding the `width` digits of `n` gives `n` back, unless it needs more
/// digits than that.
pub proof fn law_le_decode_encode(n: nat, width: nat)
    requires
        n < le_bound(width),
    ensures
        le_value(le_bytes(n, width)) == n,
    decreases width,
{
    if width > 0 {
        let tail = le_bytes(n / 256, (width - 1) as nat);
        law_le_decode_encode(n / 256, (width - 1) as nat);
        assert(le_bytes(n, width).skip(1) =~= tail);
        assert(le_bytes(n, width)[0] == (n % 256) as u8);
    }
}

/// Encoding a decoded byte sequence gives the sequence back.
pub proof fn law_le_encode_decode(s: Seq<u8>)
    ensures
        le_bytes(le_value(s), s.len()) == s,
        le_value(s) < le_bound(s.len()),
    decreases s.len(),
{
    if s.len() > 0 {
        let tail = s.skip(1);
        law_le_encode_decode(tail);
        assert(le_value(s) % 256 == s[0] as nat);
        assert(le_value(s) / 256 == le_value(tail));
        assert(seq![s[0]] + tail =~= s);
    } else {
        assert(le_bytes(0, 0) =~= s);
    }
}

/// Each of several numbers written one after the other is found again where
/// it stands.
pub proof fn law_word_at_le_words(values: Seq<nat>, width: nat, i: int)
    requires
        0 <= i < values.len(),
        values[i] < le_bound(width),
    ensures
        word_at(le_words(values, width), i, width) == values[i],
    decreases values.len(),
{
    let front = values.drop_last();
    let all = le_words(values, width);
    lemma_le_words_len(values, width);
    lemma_le_words_len(front, width);
    lemma_le_bytes_len(values.last(), width);
    lemma_le_bytes_len(values[i], width);
    assert(i * width + width <= values.len() * width) by (nonlinear_arith)
        requires
            0 <= i < values.len(),
    ;
    assert(0 <= i * width) by (nonlinear_arith)
        requires
            0 <= i,
    ;
    if i == values.len() - 1 {
        assert(all.subrange(i * width, i * width + width) =~= le_bytes(values.last(), width));
    } else {
        assert(i * width + width <= front.len() * width) by (nonlinear_arith)
            requires
                0 <= i < front.len(),
        ;
        law_word_at_le_words(front, width, i);
        assert(all.subrange(i * width, i * width + width) =~= le_words(front, width).subrange(
            i * width,
            i * width + width,
        ));
    }
    law_le_decode_encode(values[i], width);
}

/// The digit with index `i` of an encoded number is the number divided by 256
/// to the power `i`, taken modulo 256.
pub proof fn law_digits_of_a_number(n: nat, width: nat, i: nat)
    requires
        i < width,
    ensures
        le_bytes(n, width).len() == width,
        le_bytes(n, width)[i as int] == n as int / vstd::arithmetic::power::pow(256, i) % 256,
    decreases width,
{
    lemma_le_bytes_len(n, width);
    let tail = le_bytes(n / 256, (width - 1) as nat);
    lemma_le_bytes_len(n / 256, (width - 1) as nat);
    if i == 0 {
        vstd::arithmetic::power::lemma_pow0(256);
        assert(le_bytes(n, width)[0] == (n % 256) as u8);
    } else {
        let less = (i - 1) as nat;
        law_digits_of_a_number(n / 256, (width - 1) as nat, less);
        assert(le_bytes(n, width)[i as int] == tail[less as int]);
        lemma_one_digit_less(n as int, less);
    }
}

/// A decoded number has the bytes for its digits: the one with index `i` is the
/// number divided by 256 to the power `i`, taken modulo 256, and nothing is left
/// beyond the last.
pub proof fn law_number_of_digits(s: Seq<u8>, i: nat)
    ensures
        i < s.len() ==> le_value(s) as int / vstd::arithmetic::power::pow(256, i) % 256
            == s[i as int],
        le_value(s) < vstd::arithmetic::power::pow(256, s.len()),
    decreases s.len(),
{
    if s.len() == 0 {
        vstd::arithmetic::power::lemma_pow0(256);
    } else {
        let tail = s.skip(1);
        let less = if i == 0 {
            0
        } else {
            (i - 1) as nat
        };
        law_number_of_digits(tail, less);
        vstd::arithmetic::power::lemma_pow0(256);
        assert(vstd::arithmetic::power::pow(256, s.len()) == 256 * vstd::arithmetic::power::pow(
            256,
            tail.len(),
        )) by {
            reveal(vstd::arithmetic::power::pow);
        }
        if 0 < i < s.len() {
            assert(tail[less as int] == s[i as int]);
            lemma_one_digit_less(le_value(s) as int, less);
            assert(le_value(s) as int / 256 == le_value(tail));
        }
    }
}

/// Of several numbers written one after the other, the digit with index `j` of
/// the number with index `i` stands at `i * width + j`.
pub proof fn law_digits_of_words(values: Seq<nat>, width: nat, i: int, j: nat)
    requires
        0 <= i < values.len(),
        j < width,
    ensures
        le_words(values, width).len() == values.len() * width,
        0 <= i * width + j < le_words(values, width).len(),
        le_words(values, width)[i * width + j] == values[i] as int / vstd::arithmetic::power::pow(
            256,
            j,
        ) % 256,
    decreases values.len(),
{
    let front = values.drop_last();
    lemma_le_words_len(values, width);
    lemma_le_words_len(front, width);
    lemma_le_bytes_len(values.last(), width);
    assert(0 <= i * width && i * width + width <= values.len() * width) by (nonlinear_arith)
        requires
            0 <= i < values.len(),
    ;
    if i == values.len() - 1 {
        law_digits_of_a_number(values.last(), width, j);
        assert(le_words(values, width)[i * width + j] == le_bytes(values.last(), width)[j as int]);
    } else {
        law_digits_of_words(front, width, i, j);
        assert(i * width + width <= front.len() * width) by (nonlinear_arith)
            requires
                0 <= i < front.len(),
        ;
    }
}

/// The number with index `i` of several has for its digits the `width` bytes
/// from `i * width` on.
pub proof fn law_number_of_word(s: Seq<u8>, i: int, width: nat, j: nat)
    requires
        0 <= i,
        i * width + width <= s.len(),
    ensures
        j < width ==> word_at(s, i, width) as int / vstd::arithmetic::power::pow(256, j) % 256
            == s[i * width + j],
        word_at(s, i, width) < vstd::arithmetic::power::pow(256, width),
{
    assert(0 <= i * width) by (nonlinear_arith)
        requires
            0 <= i,
    ;
    law_number_of_digits(s.subrange(i * width, i * width + width), j);
}

/// Dividing by 256 once more.
proof fn lemma_one_digit_less(n: int, less: nat)
    requires
        0 <= n,
    ensures
        n / vstd::arithmetic::power::pow(256, less + 1) == n / 256
            / vstd::arithmetic::power::pow(256, less),
{
    vstd::arithmetic::power::lemma_pow_positive(256, less);
    assert(vstd::arithmetic::power::pow(256, less + 1) == 256 * vstd::arithmetic::power::pow(
        256,
        less,
    )) by {
        reveal(vstd::arithmetic::power::pow);
    }
    vstd::arithmetic::div_mod::lemma_div_denominator(
        n,
        256,
        vstd::arithmetic::power::pow(256, less),
    );
}

/// Several numbers take `width` digits each.
pub proof fn lemma_le_words_len(values: Seq<nat>, width: nat)
    ensures
        le_words(values, width).len() == values.len() * width,
    decreases values.len(),
{
    if values.len() > 0 {
        lemma_le_words_len(values.drop_last(), width);
        lemma_le_bytes_len(values.last(), width);
        assert((values.len() - 1) * width + width == values.len() * width) by (nonlinear_arith);
    }
}

/// Two digits written out.
pub proof fn lemma_le_two(n: nat)
    ensures
        le_bytes(n, 2) == seq![(n % 256) as u8, (n / 256 % 256) as u8],
{
    reveal_with_fuel(le_bytes, 3);
    assert(le_bytes(n, 2) =~= seq![(n % 256) as u8, (n / 256 % 256) as u8]);
}

/// Three digits written out.
pub proof fn lemma_le_three(n: nat)
    ensures
        le_bytes(n, 3) == seq![
            (n % 256) as u8,
            (n / 256 % 256) as u8,
            (n / 65536 % 256) as u8,
        ],
{
    reveal_with_fuel(le_bytes, 4);
    assert(n / 256 / 256 == n / 65536);
    assert(le_bytes(n, 3) =~= seq![
        (n % 256) as u8,
        (n / 256 % 256) as u8,
        (n / 65536 % 256) as u8,
    ]);
}

/// The value of two digits written out.
pub proof fn lemma_le_value_two(s: Seq<u8>)
    requires
        s.len() == 2,
    ensures
        le_value(s) == s[0] + 256 * s[1],
{
    reveal_with_fuel(le_value, 3);
}

/// Decodes a little-endian integer of at most eight bytes.
pub fn decode_le(bytes: &[u8]) -> (value: u64)
    requires
        bytes@.len() <= 8,
    ensures
        value == le_value(bytes@),
{
    let mut value: u64 = 0;
    let mut left: usize = bytes.len();
    proof {
        assert(bytes@.skip(left as int) =~= Seq::empty());
        lemma_bounds();
    }
    while left > 0
        invariant
            left <= bytes@.len() <= 8,
            value == le_value(bytes@.skip(left as int)),
        decreases left,
    {
        left = left - 1;
        proof {
            let rest = bytes@.skip(left + 1);
            assert(bytes@.skip(left as int).skip(1) =~= rest);
            law_le_encode_decode(rest);
            lemma_bound_monotonic(rest.len(), 7);
            lemma_bounds();
        }
        value = value * 256 + bytes[left] as u64;
    }
    proof {
        assert(bytes@.skip(0) =~= bytes@);
    }
    value
}

/// Decodes the little-endian integer with index `i` of those in `bytes`, each
/// of `width` bytes.
pub fn decode_word(bytes: &[u8], i: usize, width: usize) -> (value: u64)
    requires
        width <= 8,
        i * width + width <= bytes@.len(),
    ensures
        value == word_at(bytes@, i as int, width as nat),
        value < le_bound(width as nat),
{
    assert(0 <= i * width) by (nonlinear_arith);
    let len: usize = bytes.len();
    assert(i * width + width <= len);
    let word = slice_subrange(bytes, i * width, i * width + width);
    proof {
        law_le_encode_decode(word@);
    }
    decode_le(word)
}

/// Encodes the lowest `width` bytes of `value`, lowest first.
pub fn encode_le(value: u64, width: usize) -> (bytes: Vec<u8>)
    ensures
        bytes@ == le_bytes(value as nat, width as nat),
{
    let mut bytes: Vec<u8> = Vec::new();
    let mut rest: u64 = value;
    let mut done: usize = 0;
    while done < width
        invariant
            done <= width,
            bytes@ + le_bytes(rest as nat, (width - done) as nat) == le_bytes(
                value as nat,
                width as nat,
            ),
        decreases width - done,
    {
        let ghost before = bytes@;
        bytes.push((rest % 256) as u8);
        proof {
            let tail = le_bytes(rest as nat / 256, (width - done - 1) as nat);
            assert(before + (seq![(rest as nat % 256) as u8] + tail) =~= bytes@ + tail);
        }
        rest = rest / 256;
        done = done + 1;
    }
    proof {
        assert(bytes@ + Seq::<u8>::empty() =~= bytes@);
    }
    bytes
}

/// What two and four digits can hold.
pub proof fn lemma_bound_four()
    ensures
        le_bound(2) == 0x1_0000,
        le_bound(4) == 0x1_0000_0000,
{
    reveal_with_fuel(le_bound, 5);
}

/// What seven and eight digits can hold.
pub proof fn lemma_bounds()
    ensures
        le_bound(7) == 0x100_0000_0000_0000,
        le_bound(8) == 0x1_0000_0000_0000_0000,
{
    reveal_with_fuel(le_bound, 9);
}

proof fn lemma_bound_monotonic(a: nat, b: nat)
    requires
        a <= b,
    ensures
        le_bound(a) <= le_bound(b),
    decreases b,
{
    if a < b {
        lemma_bound_monotonic(a, (b - 1) as nat);
    }
}

} // verus!
