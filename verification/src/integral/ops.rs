//! Operator traits for `ApInt`.
use crate::integral::{add_model, and_model, lshr_model, mul_model, neg_model, not_model, or_model, sdiv_model, shl_model, sub_model, xor_model, ApInt};
use std::ops::{
    Add, AddAssign, BitAnd, BitOr, BitXor, Div, DivAssign, Mul, MulAssign, Neg, Not, Shl, Shr, Sub,
    SubAssign,
};
use vstd::arithmetic::power2::pow2;
use vstd::prelude::*;
use vstd::std_specs::convert::FromSpecImpl;
use vstd::std_specs::ops::{
    AddSpecImpl, BitAndSpecImpl, BitOrSpecImpl, BitXorSpecImpl, DivSpecImpl, MulSpecImpl, NegSpecImpl,
    NotSpecImpl, ShlSpecImpl, ShrSpecImpl, SubSpecImpl,
};

verus! {
impl Add for ApInt {
    type Output = ApInt;

    fn add(self, rhs: ApInt) -> (r: ApInt)
        ensures
            r@ == add_model(self@, rhs@),
    {
        ApInt::add(&self, &rhs)
    }
}

impl AddSpecImpl for ApInt {
    open spec fn obeys_add_spec() -> bool {
        false
    }

    open spec fn add_req(self, rhs: ApInt) -> bool {
        self@.width == rhs@.width
    }

    open spec fn add_spec(self, rhs: ApInt) -> ApInt {
        arbitrary()
    }
}

impl<'a, 'b> Add<&'b ApInt> for &'a ApInt {
    type Output = ApInt;

    fn add(self, rhs: &'b ApInt) -> (r: ApInt)
        ensures
            r@ == add_model(self@, rhs@),
    {
        ApInt::add(self, rhs)
    }
}

impl<'a, 'b> AddSpecImpl<&'b ApInt> for &'a ApInt {
    open spec fn obeys_add_spec() -> bool {
        false
    }

    open spec fn add_req(self, rhs: &'b ApInt) -> bool {
        self@.width == rhs@.width
    }

    open spec fn add_spec(self, rhs: &'b ApInt) -> ApInt {
        arbitrary()
    }
}

impl AddAssign for ApInt {
    fn add_assign(&mut self, rhs: ApInt)
        requires
            old(self)@.width == rhs@.width,
        ensures
            final(self)@ == add_model(old(self)@, rhs@),
    {
        ApInt::add_assign(self, &rhs);
    }
}

impl Sub for ApInt {
    type Output = ApInt;

    fn sub(self, rhs: ApInt) -> (r: ApInt)
        ensures
            r@ == sub_model(self@, rhs@),
    {
        ApInt::sub(&self, &rhs)
    }
}

impl SubSpecImpl for ApInt {
    open spec fn obeys_sub_spec() -> bool {
        false
    }

    open spec fn sub_req(self, rhs: ApInt) -> bool {
        self@.width == rhs@.width
    }

    open spec fn sub_spec(self, rhs: ApInt) -> ApInt {
        arbitrary()
    }
}

impl<'a, 'b> Sub<&'b ApInt> for &'a ApInt {
    type Output = ApInt;

    fn sub(self, rhs: &'b ApInt) -> (r: ApInt)
        ensures
            r@ == sub_model(self@, rhs@),
    {
        ApInt::sub(self, rhs)
    }
}

impl<'a, 'b> SubSpecImpl<&'b ApInt> for &'a ApInt {
    open spec fn obeys_sub_spec() -> bool {
        false
    }

    open spec fn sub_req(self, rhs: &'b ApInt) -> bool {
        self@.width == rhs@.width
    }

    open spec fn sub_spec(self, rhs: &'b ApInt) -> ApInt {
        arbitrary()
    }
}

impl SubAssign for ApInt {
    fn sub_assign(&mut self, rhs: ApInt)
        requires
            old(self)@.width == rhs@.width,
        ensures
            final(self)@ == sub_model(old(self)@, rhs@),
    {
        ApInt::sub_assign(self, &rhs);
    }
}

impl Mul for ApInt {
    type Output = ApInt;

    fn mul(self, rhs: ApInt) -> (r: ApInt)
        ensures
            r@ == mul_model(self@, rhs@),
    {
        ApInt::mul(&self, &rhs)
    }
}

impl MulSpecImpl for ApInt {
    open spec fn obeys_mul_spec() -> bool {
        false
    }

    open spec fn mul_req(self, rhs: ApInt) -> bool {
        self@.width == rhs@.width
    }

    open spec fn mul_spec(self, rhs: ApInt) -> ApInt {
        arbitrary()
    }
}

impl<'a, 'b> Mul<&'b ApInt> for &'a ApInt {
    type Output = ApInt;

    fn mul(self, rhs: &'b ApInt) -> (r: ApInt)
        ensures
            r@ == mul_model(self@, rhs@),
    {
        ApInt::mul(self, rhs)
    }
}

impl<'a, 'b> MulSpecImpl<&'b ApInt> for &'a ApInt {
    open spec fn obeys_mul_spec() -> bool {
        false
    }

    open spec fn mul_req(self, rhs: &'b ApInt) -> bool {
        self@.width == rhs@.width
    }

    open spec fn mul_spec(self, rhs: &'b ApInt) -> ApInt {
        arbitrary()
    }
}

impl MulAssign for ApInt {
    fn mul_assign(&mut self, rhs: ApInt)
        requires
            old(self)@.width == rhs@.width,
        ensures
            final(self)@ == mul_model(old(self)@, rhs@),
    {
        ApInt::mul_assign(self, &rhs);
    }
}

/// Signed division, truncated toward zero, by the `/` operator.
impl Div for ApInt {
    type Output = ApInt;

    fn div(self, rhs: ApInt) -> (r: ApInt)
        ensures
            r@ == sdiv_model(self@, rhs@),
    {
        ApInt::sdiv(&self, &rhs)
    }
}

impl DivSpecImpl for ApInt {
    open spec fn obeys_div_spec() -> bool {
        false
    }

    open spec fn div_req(self, rhs: ApInt) -> bool {
        self@.width == rhs@.width && rhs@.value != 0
    }

    open spec fn div_spec(self, rhs: ApInt) -> ApInt {
        arbitrary()
    }
}

/// Signed division, truncated toward zero, by the `/` operator.
impl<'a, 'b> Div<&'b ApInt> for &'a ApInt {
    type Output = ApInt;

    fn div(self, rhs: &'b ApInt) -> (r: ApInt)
        ensures
            r@ == sdiv_model(self@, rhs@),
    {
        ApInt::sdiv(self, rhs)
    }
}

impl<'a, 'b> DivSpecImpl<&'b ApInt> for &'a ApInt {
    open spec fn obeys_div_spec() -> bool {
        false
    }

    open spec fn div_req(self, rhs: &'b ApInt) -> bool {
        self@.width == rhs@.width && rhs@.value != 0
    }

    open spec fn div_spec(self, rhs: &'b ApInt) -> ApInt {
        arbitrary()
    }
}

impl DivAssign for ApInt {
    fn div_assign(&mut self, rhs: ApInt)
        requires
            old(self)@.width == rhs@.width,
            rhs@.value != 0,
        ensures
            final(self)@ == sdiv_model(old(self)@, rhs@),
    {
        ApInt::sdiv_assign(self, &rhs);
    }
}

impl Neg for ApInt {
    type Output = ApInt;

    fn neg(self) -> (r: ApInt)
        ensures
            r@ == neg_model(self@),
    {
        ApInt::neg(&self)
    }
}

impl NegSpecImpl for ApInt {
    open spec fn obeys_neg_spec() -> bool {
        false
    }

    open spec fn neg_req(self) -> bool {
        true
    }

    open spec fn neg_spec(self) -> ApInt {
        arbitrary()
    }
}

impl Not for ApInt {
    type Output = ApInt;

    fn not(self) -> (r: ApInt)
        ensures
            r@ == not_model(self@),
    {
        ApInt::not(&self)
    }
}

impl NotSpecImpl for ApInt {
    open spec fn obeys_not_spec() -> bool {
        false
    }

    open spec fn not_req(self) -> bool {
        true
    }

    open spec fn not_spec(self) -> ApInt {
        arbitrary()
    }
}

impl BitAnd for ApInt {
    type Output = ApInt;

    fn bitand(self, rhs: ApInt) -> (r: ApInt)
        ensures
            r@ == and_model(self@, rhs@),
    {
        ApInt::bitand(&self, &rhs)
    }
}

impl BitAndSpecImpl for ApInt {
    open spec fn obeys_bitand_spec() -> bool {
        false
    }

    open spec fn bitand_req(self, rhs: ApInt) -> bool {
        self@.width == rhs@.width
    }

    open spec fn bitand_spec(self, rhs: ApInt) -> ApInt {
        arbitrary()
    }
}

impl BitOr for ApInt {
    type Output = ApInt;

    fn bitor(self, rhs: ApInt) -> (r: ApInt)
        ensures
            r@ == or_model(self@, rhs@),
    {
        ApInt::bitor(&self, &rhs)
    }
}

impl BitOrSpecImpl for ApInt {
    open spec fn obeys_bitor_spec() -> bool {
        false
    }

    open spec fn bitor_req(self, rhs: ApInt) -> bool {
        self@.width == rhs@.width
    }

    open spec fn bitor_spec(self, rhs: ApInt) -> ApInt {
        arbitrary()
    }
}

impl BitXor for ApInt {
    type Output = ApInt;

    fn bitxor(self, rhs: ApInt) -> (r: ApInt)
        ensures
            r@ == xor_model(self@, rhs@),
    {
        ApInt::bitxor(&self, &rhs)
    }
}

impl BitXorSpecImpl for ApInt {
    open spec fn obeys_bitxor_spec() -> bool {
        false
    }

    open spec fn bitxor_req(self, rhs: ApInt) -> bool {
        self@.width == rhs@.width
    }

    open spec fn bitxor_spec(self, rhs: ApInt) -> ApInt {
        arbitrary()
    }
}

impl Shl<usize> for ApInt {
    type Output = ApInt;

    fn shl(self, amount: usize) -> (r: ApInt)
        ensures
            r@ == shl_model(self@, amount as nat),
    {
        ApInt::shl(&self, amount)
    }
}

impl ShlSpecImpl<usize> for ApInt {
    open spec fn obeys_shl_spec() -> bool {
        false
    }

    open spec fn shl_req(self, amount: usize) -> bool {
        true
    }

    open spec fn shl_spec(self, amount: usize) -> ApInt {
        arbitrary()
    }
}

/// Logical shift right by the `>>` operator.
impl Shr<usize> for ApInt {
    type Output = ApInt;

    fn shr(self, amount: usize) -> (r: ApInt)
        ensures
            r@ == lshr_model(self@, amount as nat),
    {
        ApInt::lshr(&self, amount)
    }
}

impl ShrSpecImpl<usize> for ApInt {
    open spec fn obeys_shr_spec() -> bool {
        false
    }

    open spec fn shr_req(self, amount: usize) -> bool {
        true
    }

    open spec fn shr_spec(self, amount: usize) -> ApInt {
        arbitrary()
    }
}

/// The low bits of the unsigned value (see `ApInt::to_u8_lossy`).
impl<'a> From<&'a ApInt> for u8 {
    fn from(value: &'a ApInt) -> (r: u8) {
        value.to_u8_lossy()
    }
}

impl<'a> FromSpecImpl<&'a ApInt> for u8 {
    open spec fn obeys_from_spec() -> bool {
        true
    }

    open spec fn from_spec(value: &'a ApInt) -> u8 {
        (value@.value % 256) as u8
    }
}

/// The low bits of the unsigned value (see `ApInt::to_u16_lossy`).
impl<'a> From<&'a ApInt> for u16 {
    fn from(value: &'a ApInt) -> (r: u16) {
        value.to_u16_lossy()
    }
}

impl<'a> FromSpecImpl<&'a ApInt> for u16 {
    open spec fn obeys_from_spec() -> bool {
        true
    }

    open spec fn from_spec(value: &'a ApInt) -> u16 {
        (value@.value % 65536) as u16
    }
}

/// The low bits of the unsigned value (see `ApInt::to_u32_lossy`).
impl<'a> From<&'a ApInt> for u32 {
    fn from(value: &'a ApInt) -> (r: u32) {
        value.to_u32_lossy()
    }
}

impl<'a> FromSpecImpl<&'a ApInt> for u32 {
    open spec fn obeys_from_spec() -> bool {
        true
    }

    open spec fn from_spec(value: &'a ApInt) -> u32 {
        (value@.value % 0x1_0000_0000) as u32
    }
}

/// The low bits of the unsigned value (see `ApInt::to_u64_lossy`).
impl<'a> From<&'a ApInt> for u64 {
    fn from(value: &'a ApInt) -> (r: u64) {
        value.to_u64_lossy()
    }
}

impl<'a> FromSpecImpl<&'a ApInt> for u64 {
    open spec fn obeys_from_spec() -> bool {
        true
    }

    open spec fn from_spec(value: &'a ApInt) -> u64 {
        (value@.value % 0x1_0000_0000_0000_0000) as u64
    }
}

/// The low bits of the unsigned value (see `ApInt::to_u128_lossy`).
impl<'a> From<&'a ApInt> for u128 {
    fn from(value: &'a ApInt) -> (r: u128) {
        value.to_u128_lossy()
    }
}

impl<'a> FromSpecImpl<&'a ApInt> for u128 {
    open spec fn obeys_from_spec() -> bool {
        true
    }

    open spec fn from_spec(value: &'a ApInt) -> u128 {
        (value@.value % pow2(128)) as u128
    }
}

} // verus!
