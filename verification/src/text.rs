//! Numbers in error texts.

use vstd::prelude::*;

verus! {

/// The digit for `d`, up to base 16.
pub open spec fn digit(d: int) -> char {
    "0123456789abcdef"@[d]
}

/// `n` written in base `base` without leading zeros.
pub open spec fn numeral(n: nat, base: nat) -> Seq<char>
    decreases n,
{
    if n < base || base < 2 {
        seq![digit(n as int)]
    } else {
        proof {
            vstd::arithmetic::div_mod::lemma_div_decreases(n as int, base as int);
        }
        numeral(n / base, base).push(digit((n % base) as int))
    }
}

/// What a digit counts: `0` to `9` by themselves, `a` to `f` from ten on.
pub open spec fn digit_value(digit: char) -> int {
    if digit as int <= 57 {
        digit as int - 48
    } else {
        digit as int - 97 + 10
    }
}

/// The number that `text` denotes in base `base`, the last digit counting once.
pub open spec fn value(text: Seq<char>, base: nat) -> int
    decreases text.len(),
{
    if text.len() == 0 {
        0
    } else {
        base * value(text.drop_last(), base) + digit_value(text.last())
    }
}

/// A number that is written out denotes that number again, in digits of its base
/// and without a leading zero.
pub proof fn law_numeral_denotes_its_number(n: nat, base: nat)
    requires
        2 <= base <= 16,
    ensures
        value(numeral(n, base), base) == n,
        numeral(n, base).len() > 0,
        numeral(n, base).len() > 1 ==> numeral(n, base)[0] != '0',
        forall|i: int|
            0 <= i < numeral(n, base).len() ==> 0 <= digit_value(#[trigger] numeral(n, base)[i])
                < base,
    decreases n,
{
    let text = numeral(n, base);
    lemma_digit((n % base) as int);
    if n < base {
        vstd::arithmetic::div_mod::lemma_small_mod(n, base);
        assert(text.drop_last() =~= Seq::empty());
        assert(value(text.drop_last(), base) == 0);
    } else {
        vstd::arithmetic::div_mod::lemma_div_decreases(n as int, base as int);
        vstd::arithmetic::div_mod::lemma_fundamental_div_mod(n as int, base as int);
        let more = numeral(n / base, base);
        law_numeral_denotes_its_number(n / base, base);
        assert(text.drop_last() =~= more);
        assert(0 < n / base) by (nonlinear_arith)
            requires
                n >= base >= 2,
        ;
        if more.len() == 1 {
            lemma_first(n / base, base);
        }
        assert forall|i: int| 0 <= i < text.len() implies 0 <= digit_value(#[trigger] text[i])
            < base by {
            if i < more.len() {
                assert(text[i] == more[i]);
            }
        }
    }
}

/// A single digit of a number that is not zero is not a zero.
proof fn lemma_first(n: nat, base: nat)
    requires
        2 <= base <= 16,
        n > 0,
        numeral(n, base).len() == 1,
    ensures
        numeral(n, base)[0] != '0',
{
    reveal_with_fuel(numeral, 2);
    if n < base {
        lemma_digit(n as int);
    } else {
        assert(numeral(n / base, base).len() > 0);
    }
}

proof fn lemma_digit(d: int)
    requires
        0 <= d < 16,
    ensures
        digit_value(digit(d)) == d,
        d > 0 ==> digit(d) != '0',
{
    reveal_strlit("0123456789abcdef");
}

/// Writes `n` in base `base`.
pub fn write_numeral(n: u64, base: u64) -> (text: String)
    requires
        2 <= base <= 16,
    ensures
        text@ == numeral(n as nat, base as nat),
    decreases n,
{
    let digits = "0123456789abcdef";
    proof {
        reveal_strlit("0123456789abcdef");
    }
    let low: usize = (n % base) as usize;
    proof {
        if n >= base {
            vstd::arithmetic::div_mod::lemma_div_decreases(n as int, base as int);
        }
    }
    let last = digits.substring_char(low, low + 1);
    let mut text = if n < base {
        String::new()
    } else {
        write_numeral(n / base, base)
    };
    text.append(last);
    assert(last@ =~= seq![digit(low as int)]);
    assert(text@ =~= numeral(n as nat, base as nat));
    text
}

/// `before`, then `n` in base `base`, then `after`.
pub fn sentence(before: &str, n: u64, base: u64, after: &str) -> (text: String)
    requires
        2 <= base <= 16,
    ensures
        text@ == before@ + numeral(n as nat, base as nat) + after@,
{
    let mut text = before.to_string();
    let number = write_numeral(n, base);
    text.append(number.as_str());
    text.append(after);
    text
}

} // verus!
