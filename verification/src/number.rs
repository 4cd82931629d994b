//! Arbitrary-precision natural numbers held as base 2^32 digits, with the
//! arithmetic and conversions done by `num_bigint`.
use num_bigint::BigUint;
use num_bigint::ParseBigIntError;
use std::str::FromStr;
use vstd::prelude::*;

verus! {

// ---------------------------------------------------------------------------
// Mathematical model
// ---------------------------------------------------------------------------

/// The value of little-endian base 2^32 digits.
pub open spec fn digits_value(s: Seq<u32>) -> nat
    decreases s.len(),
{
    if s.len() == 0 {
        0
    } else {
        s[0] as nat + 0x1_0000_0000 * digits_value(s.drop_first())
    }
}

/// The value of little-endian bytes.
pub open spec fn bytes_value(s: Seq<u8>) -> nat
    decreases s.len(),
{
    if s.len() == 0 {
        0
    } else {
        s[0] as nat + 256 * bytes_value(s.drop_first())
    }
}

/// Digits without a most significant zero; zero has no digits at all.
pub open spec fn is_normalized(s: Seq<u32>) -> bool {
    s.len() == 0 || s.last() != 0
}

/// The character of a decimal digit.
pub open spec fn digit_char(d: nat) -> char {
    if d == 0 {
        '0'
    } else if d == 1 {
        '1'
    } else if d == 2 {
        '2'
    } else if d == 3 {
        '3'
    } else if d == 4 {
        '4'
    } else if d == 5 {
        '5'
    } else if d == 6 {
        '6'
    } else if d == 7 {
        '7'
    } else if d == 8 {
        '8'
    } else {
        '9'
    }
}

/// The value of a decimal digit character, if it is one.
pub open spec fn char_digit(c: char) -> Option<nat> {
    if c == '0' {
        Some(0)
    } else if c == '1' {
        Some(1)
    } else if c == '2' {
        Some(2)
    } else if c == '3' {
        Some(3)
    } else if c == '4' {
        Some(4)
    } else if c == '5' {
        Some(5)
    } else if c == '6' {
        Some(6)
    } else if c == '7' {
        Some(7)
    } else if c == '8' {
        Some(8)
    } else if c == '9' {
        Some(9)
    } else {
        None
    }
}

/// The usual decimal representation of `n`: no leading zeros, and `"0"` for zero.
pub open spec fn decimal(n: nat) -> Seq<char>
    decreases n,
{
    if n < 10 {
        seq![digit_char(n)]
    } else {
        decimal(n / 10).push(digit_char(n % 10))
    }
}

/// The value of a string of decimal digits in which `_` separators are skipped.
pub open spec fn decimal_value(s: Seq<char>) -> nat
    decreases s.len(),
{
    if s.len() == 0 {
        0
    } else if s.last() == '_' {
        decimal_value(s.drop_last())
    } else {
        decimal_value(s.drop_last()) * 10 + char_digit(s.last()).unwrap_or(0)
    }
}

/// The text that remains once one leading `+` sign is removed; a second `+` keeps both.
pub open spec fn without_plus_sign(s: Seq<char>) -> Seq<char> {
    if s.len() > 0 && s[0] == '+' && !(s.len() > 1 && s[1] == '+') {
        s.drop_first()
    } else {
        s
    }
}

/// What decimal text denotes, if it is a number: an optional `+`, then digits, of
/// which the first is not `_` and the others may be `_` separators.
pub open spec fn parse_decimal(s: Seq<char>) -> Option<nat> {
    let body = without_plus_sign(s);
    if body.len() == 0 || body[0] == '_' {
        None
    } else if exists|k: int| 0 <= k < body.len() && char_digit(#[trigger] body[k]) is None && body[k] != '_' {
        None
    } else {
        Some(decimal_value(body))
    }
}

// ---------------------------------------------------------------------------
// Laws of the model
// ---------------------------------------------------------------------------

/// The decimal representation consists of digits only and denotes its number.
pub proof fn lemma_decimal_digits(n: nat)
    ensures
        decimal(n).len() >= 1,
        forall|k: int| 0 <= k < decimal(n).len() ==> #[trigger] char_digit(decimal(n)[k]) is Some,
        decimal_value(decimal(n)) == n,
    decreases n,
{
    if n < 10 {
        let s = decimal(n);
        assert(s.drop_last() =~= Seq::<char>::empty());
        assert(char_digit(digit_char(n)) == Some(n));
        assert(s.last() == digit_char(n));
        assert(s.last() != '_');
        assert(decimal_value(s) == decimal_value(s.drop_last()) * 10 + n);
    } else {
        lemma_decimal_digits(n / 10);
        let s = decimal(n);
        let d = n % 10;
        assert(char_digit(digit_char(d)) == Some(d));
        assert(s.drop_last() =~= decimal(n / 10));
        assert(s.last() == digit_char(d));
        assert(s.last() != '_');
        assert(decimal_value(s) == decimal_value(decimal(n / 10)) * 10 + d);
        assert(n == (n / 10) * 10 + d);
        assert forall|k: int| 0 <= k < s.len() implies #[trigger] char_digit(s[k]) is Some by {
            if k < s.len() - 1 {
                assert(s[k] == decimal(n / 10)[k]);
            }
        }
    }
}

/// Reading back the decimal representation of a number gives the number.
pub proof fn lemma_decimal_round_trip(n: nat)
    ensures
        parse_decimal(decimal(n)) == Some(n),
{
    lemma_decimal_digits(n);
    let s = decimal(n);
    assert(char_digit(s[0]) is Some);
    assert(without_plus_sign(s) == s);
}

// ---------------------------------------------------------------------------
// Calls into num_bigint
// ---------------------------------------------------------------------------

#[verifier::external_type_specification]
#[verifier::external_body]
pub struct ExParseBigIntError(ParseBigIntError);

/// Multiplies by a machine integer with `BigUint`'s `*` for a `u64` operand and
/// returns the `u32` digits of the product (`to_u32_digits`, which drops
/// leading zero digits). Claims: the product's value and its normal form.
#[verifier::external_body]
fn biguint_mul_u64(a: &[u32], x: u64) -> (r: Vec<u32>)
    ensures
        digits_value(r@) == digits_value(a@) * x,
        is_normalized(r@),
{
    (BigUint::from_slice(a) * x).to_u32_digits()
}

/// Multiplies two numbers with `BigUint`'s `*` and returns the `u32` digits of the
/// product. Claims: the product's value and its normal form.
#[verifier::external_body]
fn biguint_mul(a: &[u32], b: &[u32]) -> (r: Vec<u32>)
    ensures
        digits_value(r@) == digits_value(a@) * digits_value(b@),
        is_normalized(r@),
{
    (BigUint::from_slice(a) * BigUint::from_slice(b)).to_u32_digits()
}

/// `BigUint::to_bytes_le`: the little-endian bytes of the number, `[0]` for zero
/// and otherwise without a most significant zero byte.
#[verifier::external_body]
fn biguint_to_bytes_le(a: &[u32]) -> (r: Vec<u8>)
    ensures
        bytes_value(r@) == digits_value(a@),
        digits_value(a@) == 0 ==> r@ == seq![0u8],
        digits_value(a@) > 0 ==> r@.len() > 0 && r@.last() != 0,
{
    BigUint::from_slice(a).to_bytes_le()
}

/// `BigUint::from_bytes_le`: the number whose little-endian bytes are given.
#[verifier::external_body]
fn biguint_from_bytes_le(bytes: &[u8]) -> (r: Vec<u32>)
    ensures
        digits_value(r@) == bytes_value(bytes@),
        is_normalized(r@),
{
    BigUint::from_bytes_le(bytes).to_u32_digits()
}

/// `BigUint::to_str_radix` with radix 10: the decimal representation.
#[verifier::external_body]
fn biguint_to_str_radix10(a: &[u32]) -> (r: String)
    ensures
        r@ == decimal(digits_value(a@)),
{
    BigUint::from_slice(a).to_str_radix(10)
}

/// `BigUint::from_str`, that is `from_str_radix(s, 10)`: succeeds exactly on
/// the texts that `parse_decimal` accepts, with their value. Which kind of
/// `ParseBigIntError` comes back is left unsaid.
#[verifier::external_body]
fn biguint_from_str(s: &str) -> (r: Result<Vec<u32>, ParseBigIntError>)
    ensures
        r is Ok <==> parse_decimal(s@) is Some,
        r matches Ok(d) ==> parse_decimal(s@) == Some(digits_value(d@)) && is_normalized(d@),
{
    match BigUint::from_str(s) {
        Ok(b) => Ok(b.to_u32_digits()),
        Err(e) => Err(e),
    }
}

// ---------------------------------------------------------------------------
// The number type
// ---------------------------------------------------------------------------

/// A natural number of any size, as normalized little-endian base 2^32 digits.
pub struct BigNat {
    digits: Vec<u32>,
}

/// Text that is not a decimal number.
#[derive(Debug, Clone, Copy, PartialEq, Eq)]
pub struct ParseNumberError;

impl View for BigNat {
    type V = nat;

    closed spec fn view(&self) -> nat {
        digits_value(self.digits@)
    }
}

impl BigNat {
    #[verifier::type_invariant]
    closed spec fn is_canonical(self) -> bool {
        is_normalized(self.digits@)
    }

    /// The number zero.
    pub fn zero() -> (r: BigNat)
        ensures
            r@ == 0,
    {
        let r = BigNat { digits: Vec::new() };
        assert(r.digits@.len() == 0);
        r
    }

    /// The number one.
    pub fn one() -> (r: BigNat)
        ensures
            r@ == 1,
    {
        let r = BigNat { digits: vec![1] };
        assert(r.digits@.drop_first().len() == 0);
        assert(digits_value(r.digits@.drop_first()) == 0);
        r
    }

    /// The product of this number and a machine integer.
    pub fn mul_small(&self, x: u64) -> (r: BigNat)
        ensures
            r@ == self@ * x,
    {
        BigNat { digits: biguint_mul_u64(self.digits.as_slice(), x) }
    }

    /// The product of two numbers.
    pub fn mul(&self, other: &BigNat) -> (r: BigNat)
        ensures
            r@ == self@ * other@,
    {
        BigNat { digits: biguint_mul(self.digits.as_slice(), other.digits.as_slice()) }
    }

    /// The little-endian bytes of the number: `[0]` for zero, otherwise without a
    /// most significant zero byte.
    pub fn to_bytes_le(&self) -> (r: Vec<u8>)
        ensures
            bytes_value(r@) == self@,
            self@ == 0 ==> r@ == seq![0u8],
            self@ > 0 ==> r@.len() > 0 && r@.last() != 0,
    {
        biguint_to_bytes_le(self.digits.as_slice())
    }

    /// The number whose little-endian bytes are given; no bytes give zero.
    pub fn from_bytes_le(bytes: &[u8]) -> (r: BigNat)
        ensures
            r@ == bytes_value(bytes@),
    {
        BigNat { digits: biguint_from_bytes_le(bytes) }
    }

    /// The decimal representation of the number.
    pub fn to_decimal_string(&self) -> (r: String)
        ensures
            r@ == decimal(self@),
    {
        biguint_to_str_radix10(self.digits.as_slice())
    }

    /// The number that decimal text denotes (see `parse_decimal`), or an error.
    pub fn from_decimal_str(s: &str) -> (r: Result<BigNat, ParseNumberError>)
        ensures
            r is Ok <==> parse_decimal(s@) is Some,
            r matches Ok(v) ==> parse_decimal(s@) == Some(v@),
    {
        match biguint_from_str(s) {
            Ok(d) => Ok(BigNat { digits: d }),
            Err(_) => Err(ParseNumberError),
        }
    }
}

} // verus!
