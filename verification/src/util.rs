//! The integer widths that a set can be built over.

use vstd::prelude::*;

verus! {

/// An unsigned integer width.
///
/// A value stands for the number `val()`, and the numbers of a width are
/// exactly those from zero up to `domain()`.
pub trait ExtInt: Copy {
    /// How many values the width has.
    spec fn domain() -> int;

    /// The number that the value stands for.
    spec fn val(self) -> int;

    /// A width has a whole number of 64-bit words' worth of values, and no
    /// more than fit in 64 bits.
    proof fn lemma_domain()
        ensures
            64 <= Self::domain() <= 0x1_0000_0000_0000_0000,
            Self::domain() % 64 == 0,
    ;

    /// Every value stands for a number of the width, and no two values for
    /// the same one.
    proof fn lemma_val(self, other: Self)
        ensures
            0 <= self.val() < Self::domain(),
            self.val() == other.val() ==> self == other,
    ;

    /// Widens the value to 64 bits.
    fn to64(self) -> (r: u64)
        ensures
            r == self.val(),
            r < Self::domain(),
    ;

    /// Narrows a 64-bit number to this width, dropping the bits that do
    /// not fit. A number of the width is kept as it is.
    fn from64(v: u64) -> (r: Self)
        ensures
            r.val() == (v as int) % Self::domain(),
            v < Self::domain() ==> r.val() == v,
    ;

    /// The largest value of the width.
    fn max_value() -> (r: Self)
        ensures
            r.val() == Self::domain() - 1,
    ;
}

/// A width whose values split into a high and a low half of equal width.
pub trait Halveable: ExtInt {
    /// The width of each half.
    type HalfSize: ExtInt;

    /// The halves together have exactly the bits of the whole, and a half
    /// has no more than 32 bits.
    proof fn lemma_halves()
        ensures
            Self::domain() == Self::HalfSize::domain() * Self::HalfSize::domain(),
            Self::HalfSize::domain() <= 0x1_0000_0000,
    ;

    /// Splits the value into its high and its low half.
    fn split(self) -> (r: (Self::HalfSize, Self::HalfSize))
        ensures
            r.0.val() == self.val() / Self::HalfSize::domain(),
            r.1.val() == self.val() % Self::HalfSize::domain(),
    ;

    /// Puts a high and a low half together.
    fn join(high: Self::HalfSize, low: Self::HalfSize) -> (r: Self)
        ensures
            r.val() == high.val() * Self::HalfSize::domain() + low.val(),
    ;
}

/// `num::traits::Bounded::max_value` at `u8`, which the crate defines as
/// `u8::MAX`.
#[verifier::external_body]
fn max_value_u8() -> (r: u8)
    ensures
        r == u8::MAX,
{
    <u8 as num::traits::Bounded>::max_value()
}

/// `num::traits::Bounded::max_value` at `u16`, which the crate defines as
/// `u16::MAX`.
#[verifier::external_body]
fn max_value_u16() -> (r: u16)
    ensures
        r == u16::MAX,
{
    <u16 as num::traits::Bounded>::max_value()
}

/// `num::traits::Bounded::max_value` at `u32`, which the crate defines as
/// `u32::MAX`.
#[verifier::external_body]
fn max_value_u32() -> (r: u32)
    ensures
        r == u32::MAX,
{
    <u32 as num::traits::Bounded>::max_value()
}

/// `num::traits::Bounded::max_value` at `u64`, which the crate defines as
/// `u64::MAX`.
#[verifier::external_body]
fn max_value_u64() -> (r: u64)
    ensures
        r == u64::MAX,
{
    <u64 as num::traits::Bounded>::max_value()
}

impl ExtInt for u8 {
    open spec fn domain() -> int {
        0x100
    }

    open spec fn val(self) -> int {
        self as int
    }

    proof fn lemma_domain() {
    }

    proof fn lemma_val(self, other: Self) {
    }

    fn to64(self) -> (r: u64) {
        self as u64
    }

    fn from64(v: u64) -> (r: Self) {
        (v % 0x100) as u8
    }

    fn max_value() -> (r: Self) {
        max_value_u8()
    }
}

impl ExtInt for u16 {
    open spec fn domain() -> int {
        0x1_0000
    }

    open spec fn val(self) -> int {
        self as int
    }

    proof fn lemma_domain() {
    }

    proof fn lemma_val(self, other: Self) {
    }

    fn to64(self) -> (r: u64) {
        self as u64
    }

    fn from64(v: u64) -> (r: Self) {
        (v % 0x1_0000) as u16
    }

    fn max_value() -> (r: Self) {
        max_value_u16()
    }
}

impl ExtInt for u32 {
    open spec fn domain() -> int {
        0x1_0000_0000
    }

    open spec fn val(self) -> int {
        self as int
    }

    proof fn lemma_domain() {
    }

    proof fn lemma_val(self, other: Self) {
    }

    fn to64(self) -> (r: u64) {
        self as u64
    }

    fn from64(v: u64) -> (r: Self) {
        (v % 0x1_0000_0000) as u32
    }

    fn max_value() -> (r: Self) {
        max_value_u32()
    }
}

impl ExtInt for u64 {
    open spec fn domain() -> int {
        0x1_0000_0000_0000_0000
    }

    open spec fn val(self) -> int {
        self as int
    }

    proof fn lemma_domain() {
    }

    proof fn lemma_val(self, other: Self) {
    }

    fn to64(self) -> (r: u64) {
        self
    }

    fn from64(v: u64) -> (r: Self) {
        v
    }

    fn max_value() -> (r: Self) {
        max_value_u64()
    }
}

impl Halveable for u16 {
    type HalfSize = u8;

    proof fn lemma_halves() {
    }

    fn split(self) -> (r: (u8, u8)) {
        ((self / 0x100) as u8, (self % 0x100) as u8)
    }

    fn join(high: u8, low: u8) -> (r: Self) {
        (high as u16) * 0x100 + (low as u16)
    }
}

impl Halveable for u32 {
    type HalfSize = u16;

    proof fn lemma_halves() {
    }

    fn split(self) -> (r: (u16, u16)) {
        ((self / 0x1_0000) as u16, (self % 0x1_0000) as u16)
    }

    fn join(high: u16, low: u16) -> (r: Self) {
        (high as u32) * 0x1_0000 + (low as u32)
    }
}

impl Halveable for u64 {
    type HalfSize = u32;

    proof fn lemma_halves() {
    }

    fn split(self) -> (r: (u32, u32)) {
        ((self / 0x1_0000_0000) as u32, (self % 0x1_0000_0000) as u32)
    }

    fn join(high: u32, low: u32) -> (r: Self) {
        (high as u64) * 0x1_0000_0000 + (low as u64)
    }
}

} // verus!
