//! Unsigned 256-bit integers held as four little-endian 64-bit words, the
//! layout of ethers' `U256`, whose checked arithmetic does the work.

use vstd::prelude::*;

verus! {

/// Two to the sixty-fourth: the radix of one word.
pub open spec fn radix() -> nat {
    0x1_0000_0000_0000_0000
}

/// The largest value a `U256` holds, `2^256 - 1`.
pub open spec fn max_value() -> nat {
    (radix() * radix() * radix() * radix() - 1) as nat
}

/// An unsigned 256-bit integer; `w0` is the least significant word.
#[derive(Clone, Copy, Debug, PartialEq, Eq, Structural)]
pub struct U256 {
    pub w0: u64,
    pub w1: u64,
    pub w2: u64,
    pub w3: u64,
}

impl View for U256 {
    type V = nat;

    open spec fn view(&self) -> nat {
        self.w0 as nat + radix() * (self.w1 as nat + radix() * (self.w2 as nat + radix()
            * self.w3 as nat))
    }
}

/// The words determine the value, and the value lies in `0 ..= 2^256 - 1`.
pub proof fn lemma_value_bounds(a: U256)
    ensures
        a@ <= max_value(),
        a@ == 0 <==> (a.w0 == 0 && a.w1 == 0 && a.w2 == 0 && a.w3 == 0),
{
    let r = radix();
    let x2 = a.w2 as nat + r * a.w3 as nat;
    let x1 = a.w1 as nat + r * x2;
    assert(x2 <= r * r - 1) by (nonlinear_arith)
        requires
            a.w2 < r,
            a.w3 < r,
            x2 == a.w2 as nat + r * a.w3 as nat,
    ;
    assert(x1 <= r * r * r - 1) by (nonlinear_arith)
        requires
            a.w1 < r,
            x2 <= r * r - 1,
            x1 == a.w1 as nat + r * x2,
    ;
    assert(a@ <= r * r * r * r - 1) by (nonlinear_arith)
        requires
            a.w0 < r,
            x1 <= r * r * r - 1,
            a@ == a.w0 as nat + r * x1,
    ;
    assert(a@ == 0 ==> (a.w0 == 0 && x1 == 0)) by (nonlinear_arith)
        requires
            a@ == a.w0 as nat + r * x1,
            r > 0,
    ;
    assert(x1 == 0 ==> (a.w1 == 0 && x2 == 0)) by (nonlinear_arith)
        requires
            x1 == a.w1 as nat + r * x2,
            r > 0,
    ;
    assert(x2 == 0 ==> (a.w2 == 0 && a.w3 == 0)) by (nonlinear_arith)
        requires
            x2 == a.w2 as nat + r * a.w3 as nat,
            r > 0,
    ;
}

/// Equal values have equal words.
pub proof fn lemma_value_injective(a: U256, b: U256)
    ensures
        a@ == b@ <==> a == b,
{
    let r = radix();
    if a@ == b@ {
        let xa = a.w1 as nat + r * (a.w2 as nat + r * a.w3 as nat);
        let xb = b.w1 as nat + r * (b.w2 as nat + r * b.w3 as nat);
        lemma_word_split(a.w0 as nat, xa, b.w0 as nat, xb);
        let ya = a.w2 as nat + r * a.w3 as nat;
        let yb = b.w2 as nat + r * b.w3 as nat;
        lemma_word_split(a.w1 as nat, ya, b.w1 as nat, yb);
        lemma_word_split(a.w2 as nat, a.w3 as nat, b.w2 as nat, b.w3 as nat);
    }
}

/// A word and what lies above it are read back from `lo + radix * hi`.
proof fn lemma_word_split(lo1: nat, hi1: nat, lo2: nat, hi2: nat)
    requires
        lo1 < radix(),
        lo2 < radix(),
        lo1 + radix() * hi1 == lo2 + radix() * hi2,
    ensures
        lo1 == lo2,
        hi1 == hi2,
{
    let r = radix() as int;
    vstd::arithmetic::div_mod::lemma_fundamental_div_mod_converse(
        (lo1 + radix() * hi1) as int,
        r,
        hi1 as int,
        lo1 as int,
    );
    vstd::arithmetic::div_mod::lemma_fundamental_div_mod_converse(
        (lo2 + radix() * hi2) as int,
        r,
        hi2 as int,
        lo2 as int,
    );
}

impl U256 {
    /// Zero.
    pub fn zero() -> (r: U256)
        ensures
            r@ == 0,
    {
        U256 { w0: 0, w1: 0, w2: 0, w3: 0 }
    }

    /// The value of a 64-bit integer.
    pub fn from_u64(x: u64) -> (r: U256)
        ensures
            r@ == x,
    {
        U256 { w0: x, w1: 0, w2: 0, w3: 0 }
    }

    /// The largest value, `2^256 - 1`.
    pub fn max_value() -> (r: U256)
        ensures
            r@ == max_value(),
    {
        let r = U256 { w0: u64::MAX, w1: u64::MAX, w2: u64::MAX, w3: u64::MAX };
        assert(r@ == max_value());
        r
    }

    /// Whether the value is zero.
    pub fn is_zero(&self) -> (r: bool)
        ensures
            r == (self@ == 0),
    {
        proof {
            lemma_value_bounds(*self);
        }
        self.w0 == 0 && self.w1 == 0 && self.w2 == 0 && self.w3 == 0
    }
}

/// Relies on uint's `Ord` for ethers' `U256`, which compares the words from
/// the most significant one down: the order of the values.
#[verifier::external_body]
fn compare(a: &U256, b: &U256) -> (r: core::cmp::Ordering)
    ensures
        (r == core::cmp::Ordering::Less) == (a@ < b@),
        (r == core::cmp::Ordering::Equal) == (a@ == b@),
        (r == core::cmp::Ordering::Greater) == (a@ > b@),
{
    let x = ethers::types::U256([a.w0, a.w1, a.w2, a.w3]);
    x.cmp(&ethers::types::U256([b.w0, b.w1, b.w2, b.w3]))
}

/// Relies on uint's `checked_add` for ethers' `U256`: the sum, or `None`
/// when it exceeds `2^256 - 1`.
#[verifier::external_body]
fn checked_add(a: U256, b: U256) -> (r: Option<U256>)
    ensures
        r.is_some() == (a@ + b@ <= max_value()),
        r.is_some() ==> r.unwrap()@ == a@ + b@,
{
    let x = ethers::types::U256([a.w0, a.w1, a.w2, a.w3]);
    match x.checked_add(ethers::types::U256([b.w0, b.w1, b.w2, b.w3])) {
        Some(y) => Some(U256 { w0: y.0[0], w1: y.0[1], w2: y.0[2], w3: y.0[3] }),
        None => None,
    }
}

/// Relies on uint's `checked_sub` for ethers' `U256`: the difference, or
/// `None` when `b` exceeds `a`.
#[verifier::external_body]
fn checked_sub(a: U256, b: U256) -> (r: Option<U256>)
    ensures
        r.is_some() == (a@ >= b@),
        r.is_some() ==> r.unwrap()@ == a@ - b@,
{
    let x = ethers::types::U256([a.w0, a.w1, a.w2, a.w3]);
    match x.checked_sub(ethers::types::U256([b.w0, b.w1, b.w2, b.w3])) {
        Some(y) => Some(U256 { w0: y.0[0], w1: y.0[1], w2: y.0[2], w3: y.0[3] }),
        None => None,
    }
}

/// Relies on uint's `checked_mul` for ethers' `U256`: the product, or
/// `None` when it exceeds `2^256 - 1`.
#[verifier::external_body]
fn checked_mul(a: U256, b: U256) -> (r: Option<U256>)
    ensures
        r.is_some() == (a@ * b@ <= max_value()),
        r.is_some() ==> r.unwrap()@ == a@ * b@,
{
    let x = ethers::types::U256([a.w0, a.w1, a.w2, a.w3]);
    match x.checked_mul(ethers::types::U256([b.w0, b.w1, b.w2, b.w3])) {
        Some(y) => Some(U256 { w0: y.0[0], w1: y.0[1], w2: y.0[2], w3: y.0[3] }),
        None => None,
    }
}

/// Relies on uint's `checked_div` for ethers' `U256`: the quotient rounded
/// down, or `None` when `b` is zero.
#[verifier::external_body]
fn checked_div(a: U256, b: U256) -> (r: Option<U256>)
    ensures
        r.is_some() == (b@ != 0),
        r.is_some() ==> r.unwrap()@ == a@ / b@,
{
    let x = ethers::types::U256([a.w0, a.w1, a.w2, a.w3]);
    match x.checked_div(ethers::types::U256([b.w0, b.w1, b.w2, b.w3])) {
        Some(y) => Some(U256 { w0: y.0[0], w1: y.0[1], w2: y.0[2], w3: y.0[3] }),
        None => None,
    }
}

/// Relies on uint's `checked_rem` for ethers' `U256`: the remainder, or
/// `None` when `b` is zero.
#[verifier::external_body]
fn checked_rem(a: U256, b: U256) -> (r: Option<U256>)
    ensures
        r.is_some() == (b@ != 0),
        r.is_some() ==> r.unwrap()@ == a@ % b@,
{
    let x = ethers::types::U256([a.w0, a.w1, a.w2, a.w3]);
    match x.checked_rem(ethers::types::U256([b.w0, b.w1, b.w2, b.w3])) {
        Some(y) => Some(U256 { w0: y.0[0], w1: y.0[1], w2: y.0[2], w3: y.0[3] }),
        None => None,
    }
}

/// `a < b`.
pub fn lt(a: &U256, b: &U256) -> (r: bool)
    ensures
        r == (a@ < b@),
{
    match compare(a, b) {
        core::cmp::Ordering::Less => true,
        _ => false,
    }
}

/// `a <= b`.
pub fn le(a: &U256, b: &U256) -> (r: bool)
    ensures
        r == (a@ <= b@),
{
    match compare(a, b) {
        core::cmp::Ordering::Greater => false,
        _ => true,
    }
}

/// `a + b`, which must not exceed `2^256 - 1`.
pub fn add(a: U256, b: U256) -> (r: U256)
    requires
        a@ + b@ <= max_value(),
    ensures
        r@ == a@ + b@,
{
    checked_add(a, b).unwrap()
}

/// `a - b`, for `b <= a`.
pub fn sub(a: U256, b: U256) -> (r: U256)
    requires
        b@ <= a@,
    ensures
        r@ == a@ - b@,
{
    checked_sub(a, b).unwrap()
}

/// `a * b`, which must not exceed `2^256 - 1`.
pub fn mul(a: U256, b: U256) -> (r: U256)
    requires
        a@ * b@ <= max_value(),
    ensures
        r@ == a@ * b@,
{
    checked_mul(a, b).unwrap()
}

/// `a / b` rounded down, for a non-zero `b`.
pub fn div(a: U256, b: U256) -> (r: U256)
    requires
        b@ != 0,
    ensures
        r@ == a@ / b@,
{
    checked_div(a, b).unwrap()
}

/// `a % b`, for a non-zero `b`.
pub fn rem(a: U256, b: U256) -> (r: U256)
    requires
        b@ != 0,
    ensures
        r@ == a@ % b@,
{
    checked_rem(a, b).unwrap()
}

} // verus!
