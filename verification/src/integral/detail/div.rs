//! Choice of the division method.
use crate::integral::{udiv_model, urem_model, ApInt};
use vstd::arithmetic::power2::pow2;
use vstd::prelude::*;

verus! {

impl ApInt {
    pub(crate) fn _udiv_impl(&self, rhs: &Self) -> (r: Self)
        requires
            self@.width == rhs@.width,
            self@.width > 0,
            self@.value < pow2(self@.width),
            rhs@.value != 0,
        ensures
            r@ == udiv_model(self@, rhs@),
    {
        self._udiv_knuthd_impl(rhs)
    }

    pub(crate) fn _urem_impl(&self, rhs: &Self) -> (r: Self)
        requires
            self@.width == rhs@.width,
            self@.width > 0,
            self@.value < pow2(self@.width),
            rhs@.value != 0,
        ensures
            r@ == urem_model(self@, rhs@),
    {
        self._urem_knuthd_impl(rhs)
    }

    pub(crate) fn _udivrem_impl(&self, rhs: &Self) -> (r: (Self, Self))
        requires
            self@.width == rhs@.width,
            self@.width > 0,
            self@.value < pow2(self@.width),
            rhs@.value != 0,
        ensures
            r.0@ == udiv_model(self@, rhs@),
            r.1@ == urem_model(self@, rhs@),
    {
        self._udivrem_knuthd_impl(rhs)
    }
}

} // verus!
