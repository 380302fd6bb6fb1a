//! Decimal numerals.
use vstd::prelude::*;

use crate::bytes;

verus! {

/// The digits of a number, most significant first, without leading zeros.
pub open spec fn decimal_digits(n: nat) -> Seq<u8>
    decreases n,
{
    if n < 10 {
        seq![(0x30 + n) as u8]
    } else {
        decimal_digits(n / 10).push((0x30 + n % 10) as u8)
    }
}

/// The numeral of a number.
pub open spec fn decimal(n: nat) -> Seq<char> {
    bytes::ascii_text(decimal_digits(n))
}

/// A numeral holds decimal digits only, and at least one.
pub proof fn lemma_decimal_digits(n: nat)
    ensures
        decimal_digits(n).len() >= 1,
        forall|i: int|
            0 <= i < decimal_digits(n).len() ==> 0x30 <= #[trigger] decimal_digits(n)[i] <= 0x39,
    decreases n,
{
    if n >= 10 {
        lemma_decimal_digits(n / 10);
    }
}

/// Different numbers have different digits.
pub proof fn lemma_decimal_digits_injective(a: nat, b: nat)
    requires
        decimal_digits(a) == decimal_digits(b),
    ensures
        a == b,
    decreases a,
{
    lemma_decimal_digits(a / 10);
    lemma_decimal_digits(b / 10);
    reveal_with_fuel(decimal_digits, 2);
    let (digits_a, digits_b) = (decimal_digits(a), decimal_digits(b));
    assert(digits_a.last() == (0x30 + a % 10) as u8);
    assert(digits_b.last() == (0x30 + b % 10) as u8);
    assert(a % 10 == b % 10);
    if a >= 10 && b >= 10 {
        assert(decimal_digits(a / 10) =~= decimal_digits(a).drop_last());
        assert(decimal_digits(b / 10) =~= decimal_digits(b).drop_last());
        lemma_decimal_digits_injective(a / 10, b / 10);
    }
}

/// Different numbers have different numerals.
pub proof fn law_decimal_is_injective(a: nat, b: nat)
    requires
        decimal(a) == decimal(b),
    ensures
        a == b,
{
    assert(decimal_digits(a).len() == decimal(a).len());
    assert(decimal_digits(b).len() == decimal(b).len());
    assert forall|i: int| 0 <= i < decimal_digits(a).len() implies decimal_digits(a)[i]
        == decimal_digits(b)[i] by {
        lemma_decimal_digits(a);
        lemma_decimal_digits(b);
        let (x, y) = (decimal_digits(a)[i], decimal_digits(b)[i]);
        assert(decimal(a)[i] == x as char);
        assert(decimal(b)[i] == y as char);
        assert((x as char) as u8 == x && (y as char) as u8 == y);
    }
    assert(decimal_digits(a) =~= decimal_digits(b));
    lemma_decimal_digits_injective(a, b);
}

/// Appends the digits of `n`.
fn push_decimal(n: u64, digits: &mut Vec<u8>)
    ensures
        final(digits)@ == old(digits)@ + decimal_digits(n as nat),
    decreases n,
{
    let ghost before = digits@;
    if n >= 10 {
        push_decimal(n / 10, digits);
    }
    digits.push(0x30 + (n % 10) as u8);
    assert(digits@ =~= before + decimal_digits(n as nat));
}

/// The numeral of `n`.
pub fn decimal_text(n: u64) -> (text: String)
    ensures
        text@ == decimal(n as nat),
{
    let mut digits: Vec<u8> = Vec::new();
    push_decimal(n, &mut digits);
    proof {
        lemma_decimal_digits(n as nat);
        assert(digits@ =~= decimal_digits(n as nat));
    }
    bytes::text_from_ascii(digits.as_slice())
}

/// The number that some digits denote, read from the left: each digit counts ten times as much as
/// the one behind it.
pub open spec fn denoted(digits: Seq<char>) -> int
    decreases digits.len(),
{
    if digits.len() == 0 {
        0
    } else {
        10 * denoted(digits.drop_last()) + (digits.last() as int - '0' as int)
    }
}

/// A numeral denotes its number, is made of digits, and has no zero in front but for zero itself.
pub proof fn law_numerals_denote_their_numbers(n: nat)
    ensures
        denoted(decimal(n)) == n,
        decimal(n).len() > 0,
        forall|i: int| 0 <= i < decimal(n).len() ==> '0' <= #[trigger] decimal(n)[i] <= '9',
        n > 0 ==> decimal(n)[0] != '0',
    decreases n,
{
    let digits = decimal_digits(n);
    let numeral = decimal(n);
    lemma_decimal_digits(n);
    assert forall|i: int| 0 <= i < numeral.len() implies '0' <= #[trigger] numeral[i] <= '9' by {
        assert(0x30 <= digits[i] <= 0x39);
    }
    reveal_with_fuel(denoted, 2);
    if n < 10 {
        assert(numeral.drop_last() =~= Seq::<char>::empty());
    } else {
        law_numerals_denote_their_numbers(n / 10);
        assert(numeral.drop_last() =~= decimal(n / 10));
        assert(numeral[0] == decimal(n / 10)[0]);
    }
}

} // verus!
