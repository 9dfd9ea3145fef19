//! Choice of the multiplication method by width.
use crate::integral::{mul_model, ApInt};
use vstd::prelude::*;

verus! {

impl ApInt {
    /// Schoolbook multiplication below 512 bits, Karatsuba from there on.
    pub(crate) fn _mul_impl(&self, rhs: &Self) -> (r: Self)
        requires
            self@.width == rhs@.width,
            self@.width > 0,
        ensures
            r@ == mul_model(self@, rhs@),
    {
        if self.width() <= 511 {
            self._mul_schoolbook_impl(rhs)
        } else {
            self._mul_karatsuba_impl(rhs)
        }
    }
}

} // verus!
