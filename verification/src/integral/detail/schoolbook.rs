//! Schoolbook multiplication of limb vectors.
use crate::integral::detail::limbs;
use crate::integral::detail::limbs::{lemma_trimmed_len, trimmed};
use crate::integral::model::{base, bpow, lv, lemma_bpow_pos, lemma_bpow_add, lemma_bpow_mono, lemma_lv_bound, lemma_lv_take_next, lemma_lv_update, lemma_lv_zeros, lemma_num_limbs_bound};
use crate::integral::{mul_model, wrap, ApInt, IntModel};
use vstd::arithmetic::div_mod::*;
use vstd::arithmetic::mul::*;
use vstd::arithmetic::power2::*;
use vstd::prelude::*;

verus! {

/// The product of two integers of the same width, modulo `2^width`, by the
/// schoolbook method.
pub fn schoolbook_mul(a: &ApInt, b: &ApInt) -> (r: ApInt)
    requires
        a@.width == b@.width,
        a@.width > 0,
    ensures
        r@ == mul_model(a@, b@),
{
    if a.is_zero() || b.is_zero() {
        proof {
            lemma_pow2_pos(a@.width);
            lemma_mul_basics(b@.value as int);
            lemma_mul_basics(a@.value as int);
            lemma_small_mod(0, pow2(a@.width));
        }
        return ApInt::zero(a.width());
    }
    let al = a.get_limbs();
    let bl = b.get_limbs();
    proof {
        lemma_num_limbs_bound(a@.width);
    }
    let limbs = schoolbook_mul_limbs(al, bl);
    finish_product(a.width(), limbs, Ghost(a@.value * b@.value))
}

/// Reduces a product given as limbs to a `width`-bit integer: keeps the limbs
/// that the width needs, then clears the bits above the width.
pub(crate) fn finish_product(width: usize, limbs: Vec<u64>, Ghost(p): Ghost<nat>) -> (r: ApInt)
    requires
        width > 0,
        lv(limbs@) == p,
    ensures
        r@ == (IntModel { width: width as nat, value: wrap(width as nat, p as int) }),
{
    let mut result = limbs;
    let limb_count = ApInt::num_limbs(width);
    result.truncate(limb_count);
    proof {
        lemma_bpow_pos(limb_count as nat);
        if limb_count <= limbs@.len() {
            crate::integral::lemma_lv_take_mod(limbs@, limb_count as int);
            assert(result@ =~= limbs@.take(limb_count as int));
        } else {
            lemma_lv_bound(limbs@);
            lemma_bpow_mono(limbs@.len(), limb_count as nat);
            lemma_small_mod(p, bpow(limb_count as nat));
        }
        lemma_num_limbs_bound(width as nat);
        crate::integral::lemma_reduce(p as int, limb_count as nat, width as nat);
    }
    ApInt::from_limbs(width, result)
}

/// The product of two limb vectors, trimmed.
pub fn schoolbook_mul_limbs(a: &[u64], b: &[u64]) -> (r: Vec<u64>)
    requires
        a.len() + b.len() <= usize::MAX,
    ensures
        lv(r@) == lv(a@) * lv(b@),
        trimmed(r@),
        r.len() <= a.len() + b.len(),
{
    if a.len() == 0 || b.len() == 0 {
        proof {
            if a.len() == 0 {
                assert(a@ =~= Seq::<u64>::empty());
            } else {
                assert(b@ =~= Seq::<u64>::empty());
            }
            lemma_mul_basics(lv(a@) as int);
            lemma_mul_basics(lv(b@) as int);
        }
        return Vec::new();
    }
    let la = a.len();
    let lb = b.len();
    let total = la + lb;
    let mut result = crate::integral::zero_limbs(total);
    proof {
        lemma_lv_zeros(total as nat);
        assert(a@.take(0) =~= Seq::<u64>::empty());
        lemma_mul_basics(lv(b@) as int);
    }
    let mut i: usize = 0;
    while i < la
        invariant
            la == a.len(),
            lb == b.len(),
            total == la + lb,
            i <= la,
            result.len() == total,
            lv(result@) == lv(a@.take(i as int)) * lv(b@),
        decreases la - i,
    {
        let ghost base_value = lv(a@.take(i as int)) * lv(b@);
        let ghost ai = a@[i as int];
        let mut carry: u64 = 0;
        let mut j: usize = 0;
        proof {
            assert(b@.take(0) =~= Seq::<u64>::empty());
            lemma_mul_basics(ai as int);
            lemma_mul_basics(bpow(i as nat) as int);
            lemma_bpow_add(i as nat, 0);
        }
        while j < lb
            invariant
                la == a.len(),
                lb == b.len(),
                total == la + lb,
                i < la,
                j <= lb,
                ai == a@[i as int],
                result.len() == total,
                base_value == lv(a@.take(i as int)) * lv(b@),
                lv(result@) + carry * bpow((i + j) as nat) == base_value + ai * lv(b@.take(j as int))
                    * bpow(i as nat),
            decreases lb - j,
        {
            let index = i + j;
            let x = result[index];
            let bj = b[j];
            proof {
                lemma_product_fits(x, a[i as int], bj, carry);
            }
            let t: u128 = x as u128 + a[i] as u128 * bj as u128 + carry as u128;
            let lo = t as u64;
            let hi = (t >> 64) as u64;
            proof {
                crate::integral::lemma_split_u128(t);
                lemma_fundamental_div_mod(t as int, base() as int);
                lemma_lv_update(result@, index as int, lo);
                lemma_lv_take_next(b@, j as int);
                lemma_bpow_add(i as nat, j as nat);
                lemma_bpow_add(i as nat, (j + 1) as nat);
                assert(bpow((j + 1) as nat) == base() * bpow(j as nat));
                lemma_inner_step(
                    lv(result@) as int,
                    carry as int,
                    x as int,
                    lo as int,
                    hi as int,
                    ai as int,
                    bj as int,
                    bpow(i as nat) as int,
                    bpow(j as nat) as int,
                    base_value as int,
                    lv(b@.take(j as int)) as int,
                );
            }
            result.set(index, lo);
            carry = hi;
            j = j + 1;
        }
        proof {
            assert(b@.take(lb as int) =~= b@);
            lemma_lv_take_next(a@, i as int);
            assert(lv(a@.take(i as int + 1)) * lv(b@) == base_value + ai * lv(b@) * bpow(i as nat))
                by (nonlinear_arith)
                requires
                    lv(a@.take(i as int + 1)) == lv(a@.take(i as int)) + ai * bpow(i as nat),
                    base_value == lv(a@.take(i as int)) * lv(b@),
            ;
            lemma_lv_bound(a@.take(i as int + 1));
            lemma_lv_bound(b@);
            lemma_bpow_add((i + 1) as nat, lb as nat);
            lemma_bpow_mono((i + 1 + lb) as nat, total as nat);
            assert(lv(a@.take(i as int + 1)) * lv(b@) < bpow((i + 1) as nat) * bpow(lb as nat))
                by (nonlinear_arith)
                requires
                    lv(a@.take(i as int + 1)) < bpow((i + 1) as nat),
                    lv(b@) < bpow(lb as nat),
            ;
        }
        let mut index = i + lb;
        let ghost target = lv(a@.take(i as int + 1)) * lv(b@);
        while carry != 0
            invariant
                i + lb <= index <= total,
                result.len() == total,
                lv(result@) + carry * bpow(index as nat) == target,
                target < bpow(total as nat),
            decreases total - index,
        {
            if index >= total {
                proof {
                    lemma_lv_bound(result@);
                    lemma_mul_increases(carry as int, bpow(index as nat) as int);
                    lemma_bpow_pos(index as nat);
                }
                return Vec::new();
            }
            let x = result[index];
            let (o, c2): (u64, u64) = if x as u128 + carry as u128 >= 0x1_0000_0000_0000_0000u128 {
                ((x as u128 + carry as u128 - 0x1_0000_0000_0000_0000u128) as u64, 1)
            } else {
                (x + carry, 0)
            };
            proof {
                lemma_lv_update(result@, index as int, o);
                let p = bpow(index as nat);
                assert(bpow((index + 1) as nat) == base() * p);
                assert(o as int * p + c2 as int * (base() * p) == x as int * p + carry as int * p)
                    by (nonlinear_arith)
                    requires
                        o as int + c2 as int * base() == x as int + carry as int,
                ;
            }
            result.set(index, o);
            carry = c2;
            index = index + 1;
        }
        i = i + 1;
    }
    proof {
        assert(a@.take(la as int) =~= a@);
    }
    limbs::trim_limbs(&mut result);
    result
}

proof fn lemma_product_fits(x: u64, a: u64, b: u64, c: u64)
    ensures
        x as nat + a as nat * b as nat + c as nat <= u128::MAX,
        x as nat + a as nat * b as nat + (c as nat) < base() * base(),
{
    assert(a as nat * b as nat <= 0xffff_ffff_ffff_ffff * 0xffff_ffff_ffff_ffff) by (nonlinear_arith)
        requires
            a <= 0xffff_ffff_ffff_ffffu64,
            b <= 0xffff_ffff_ffff_ffffu64,
    ;
}

proof fn lemma_inner_step(
    r: int,
    c: int,
    x: int,
    lo: int,
    hi: int,
    ai: int,
    bj: int,
    pi: int,
    pj: int,
    bv: int,
    btj: int,
)
    requires
        r + c * (pi * pj) == bv + ai * btj * pi,
        lo + hi * base() == x + ai * bj + c,
    ensures
        (r - x * (pi * pj) + lo * (pi * pj)) + hi * (pi * (base() * pj)) == bv + ai * (btj + bj * pj)
            * pi,
{
    assert(lo * (pi * pj) + hi * (pi * (base() * pj)) == (x + ai * bj + c) * (pi * pj))
        by (nonlinear_arith)
        requires
            lo + hi * base() == x + ai * bj + c,
    ;
    assert(ai * (btj + bj * pj) * pi == ai * btj * pi + ai * bj * (pi * pj)) by (nonlinear_arith);
    assert((x + ai * bj + c) * (pi * pj) == x * (pi * pj) + ai * bj * (pi * pj) + c * (pi * pj))
        by (nonlinear_arith);
}

impl ApInt {
    pub(crate) fn _mul_schoolbook_impl(&self, rhs: &Self) -> (r: Self)
        requires
            self@.width == rhs@.width,
            self@.width > 0,
        ensures
            r@ == mul_model(self@, rhs@),
    {
        schoolbook_mul(self, rhs)
    }
}

} // verus!
