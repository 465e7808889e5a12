//! Non-negative integers of any size, held as base-2^32 digits and computed
//! with `num_bigint::BigUint`.
use num_bigint::BigUint;
use vstd::prelude::*;

verus! {

/// The value of little-endian base-2^32 digits.
pub open spec fn digits_value(digits: Seq<u32>) -> nat
    decreases digits.len(),
{
    if digits.len() == 0 {
        0
    } else {
        digits[0] as nat + 0x1_0000_0000 * digits_value(digits.drop_first())
    }
}

/// The decimal digit for a value below ten.
pub open spec fn decimal_digit(d: nat) -> char {
    if d == 0 { '0' }
    else if d == 1 { '1' }
    else if d == 2 { '2' }
    else if d == 3 { '3' }
    else if d == 4 { '4' }
    else if d == 5 { '5' }
    else if d == 6 { '6' }
    else if d == 7 { '7' }
    else if d == 8 { '8' }
    else { '9' }
}

/// The decimal notation of `n`, most significant digit first, without
/// leading zeros ("0" for zero).
pub open spec fn decimal(n: nat) -> Seq<char>
    decreases n,
{
    if n < 10 {
        seq![decimal_digit(n)]
    } else {
        decimal(n / 10).push(decimal_digit(n % 10))
    }
}

/// A non-negative integer of any size: the little-endian base-2^32 digits of
/// a `BigUint`.
#[derive(Debug)]
pub struct Natural {
    digits: Vec<u32>,
}

impl View for Natural {
    type V = nat;

    closed spec fn view(&self) -> nat {
        digits_value(self.digits@)
    }
}

impl Natural {
    /// Zero.
    pub fn zero() -> (n: Natural)
        ensures
            n@ == 0,
    {
        Natural { digits: Vec::new() }
    }

    /// One.
    pub fn one() -> (n: Natural)
        ensures
            n@ == 1,
    {
        let mut digits = Vec::new();
        digits.push(1u32);
        let n = Natural { digits };
        assert(n.digits@.drop_first() =~= Seq::<u32>::empty());
        assert(digits_value(n.digits@.drop_first()) == 0);
        n
    }

    /// The base-2^32 digits, least significant first.
    pub fn digits(&self) -> (d: &[u32])
        ensures
            digits_value(d@) == self@,
    {
        self.digits.as_slice()
    }

    /// A copy of this number.
    pub fn copy(&self) -> (n: Natural)
        ensures
            n@ == self@,
    {
        let digits = self.digits.clone();
        assert(digits@ =~= self.digits@);
        Natural { digits }
    }

    /// The number `v`.
    pub fn from_usize(v: usize) -> (n: Natural)
        ensures
            n@ == v,
    {
        from_usize_digits(v)
    }

    /// `self + other`.
    pub fn add(&self, other: &Natural) -> (n: Natural)
        ensures
            n@ == self@ + other@,
    {
        add_digits(self, other)
    }

    /// `self * other`.
    pub fn mul(&self, other: &Natural) -> (n: Natural)
        ensures
            n@ == self@ * other@,
    {
        mul_digits(self, other)
    }

    /// `self / other`, rounded down.
    pub fn div(&self, other: &Natural) -> (n: Natural)
        requires
            other@ > 0,
        ensures
            n@ == self@ / other@,
    {
        div_digits(self, other)
    }

    /// Whether `self >= other`.
    pub fn ge(&self, other: &Natural) -> (b: bool)
        ensures
            b == (self@ >= other@),
    {
        ge_digits(self, other)
    }

    /// The decimal notation of this number.
    pub fn to_decimal(&self) -> (s: String)
        ensures
            s@ == decimal(self@),
    {
        decimal_string(self)
    }
}

/// `BigUint::from(usize)`, then `to_u32_digits`: the conversion is exact.
#[verifier::external_body]
fn from_usize_digits(v: usize) -> (n: Natural)
    ensures
        n@ == v,
{
    Natural { digits: BigUint::from(v).to_u32_digits() }
}

/// `BigUint` addition (`&a + &b`), which is exact.
#[verifier::external_body]
fn add_digits(a: &Natural, b: &Natural) -> (n: Natural)
    ensures
        n@ == a@ + b@,
{
    let sum = BigUint::from_slice(&a.digits) + BigUint::from_slice(&b.digits);
    Natural { digits: sum.to_u32_digits() }
}

/// `BigUint` multiplication (`&a * &b`), which is exact.
#[verifier::external_body]
fn mul_digits(a: &Natural, b: &Natural) -> (n: Natural)
    ensures
        n@ == a@ * b@,
{
    let product = BigUint::from_slice(&a.digits) * BigUint::from_slice(&b.digits);
    Natural { digits: product.to_u32_digits() }
}

/// `BigUint` division (`&a / &b`), the quotient rounded down; it panics on a
/// zero divisor, which `requires` leaves out.
#[verifier::external_body]
fn div_digits(a: &Natural, b: &Natural) -> (n: Natural)
    requires
        b@ > 0,
    ensures
        n@ == a@ / b@,
{
    let quotient = BigUint::from_slice(&a.digits) / BigUint::from_slice(&b.digits);
    Natural { digits: quotient.to_u32_digits() }
}

/// `BigUint`'s `>=`, which compares the numbers' values.
#[verifier::external_body]
fn ge_digits(a: &Natural, b: &Natural) -> (r: bool)
    ensures
        r == (a@ >= b@),
{
    BigUint::from_slice(&a.digits) >= BigUint::from_slice(&b.digits)
}

/// `BigUint`'s `Display` (`to_string`): base 10, digits `0`-`9`, no sign, no
/// leading zeros, "0" for zero.
#[verifier::external_body]
fn decimal_string(a: &Natural) -> (s: String)
    ensures
        s@ == decimal(a@),
{
    BigUint::from_slice(&a.digits).to_string()
}

} // verus!
