//! Karatsuba multiplication of limb vectors.
use crate::integral::detail::limbs;
use crate::integral::detail::limbs::{lemma_trimmed_len, trimmed};
use crate::integral::detail::schoolbook;
use crate::integral::model::{bpow, lv, lemma_bpow_pos, lemma_bpow_add, lemma_lv_bound, lemma_lv_split, lemma_lv_zeros, lemma_num_limbs_bound};
use crate::integral::{mul_model, wrap, ApInt, IntModel};
use vstd::arithmetic::div_mod::*;
use vstd::arithmetic::mul::*;
use vstd::arithmetic::power2::*;
use vstd::prelude::*;
use vstd::slice::slice_subrange;

verus! {

/// Below this many limbs in the shorter factor, the schoolbook method is used.
pub const KARATSUBA_THRESHOLD: usize = 8;

/// The product of two integers of the same width, modulo `2^width`, by the
/// Karatsuba method.
pub fn karatsuba_mul(a: &ApInt, b: &ApInt) -> (r: ApInt)
    requires
        a@.width == b@.width,
        a@.width > 0,
    ensures
        r@ == mul_model(a@, b@),
{
    if a.is_zero() || b.is_zero() {
        proof {
            lemma_pow2_pos(a@.width);
            lemma_mul_basics(b@.value as int);
            lemma_mul_basics(a@.value as int);
            lemma_small_mod(0, pow2(a@.width));
        }
        return ApInt::zero(a.width());
    }
    let al = a.get_limbs();
    let bl = b.get_limbs();
    proof {
        lemma_num_limbs_bound(a@.width);
    }
    let limbs = karatsuba_mul_limbs(al, bl);
    schoolbook::finish_product(a.width(), limbs, Ghost(a@.value * b@.value))
}

/// The product of two limb vectors, trimmed.
#[verifier::rlimit(40)]
pub fn karatsuba_mul_limbs(a: &[u64], b: &[u64]) -> (r: Vec<u64>)
    requires
        a.len() + b.len() <= usize::MAX,
    ensures
        lv(r@) == lv(a@) * lv(b@),
        trimmed(r@),
        r.len() <= a.len() + b.len(),
    decreases a.len() + b.len(),
{
    if a.len() == 0 || b.len() == 0 {
        proof {
            if a.len() == 0 {
                assert(a@ =~= Seq::<u64>::empty());
            } else {
                assert(b@ =~= Seq::<u64>::empty());
            }
            lemma_mul_basics(lv(a@) as int);
            lemma_mul_basics(lv(b@) as int);
        }
        return Vec::new();
    }
    let min_len = if a.len() < b.len() {
        a.len()
    } else {
        b.len()
    };
    if min_len <= KARATSUBA_THRESHOLD {
        return schoolbook::schoolbook_mul_limbs(a, b);
    }
    let n = if a.len() > b.len() {
        a.len()
    } else {
        b.len()
    };
    let m = n / 2;
    let a_low = if a.len() > m {
        slice_subrange(a, 0, m)
    } else {
        a
    };
    let a_high = if a.len() > m {
        slice_subrange(a, m, a.len())
    } else {
        slice_subrange(a, a.len(), a.len())
    };
    let b_low = if b.len() > m {
        slice_subrange(b, 0, m)
    } else {
        b
    };
    let b_high = if b.len() > m {
        slice_subrange(b, m, b.len())
    } else {
        slice_subrange(b, b.len(), b.len())
    };
    proof {
        lemma_halves(a@, a_low@, a_high@, m as int);
        lemma_halves(b@, b_low@, b_high@, m as int);
    }
    let z0 = karatsuba_mul_limbs(a_low, b_low);
    let z2 = karatsuba_mul_limbs(a_high, b_high);
    let a_sum = limbs::add_limbs(a_low, a_high);
    let b_sum = limbs::add_limbs(b_low, b_high);
    let mut z1 = karatsuba_mul_limbs(&a_sum, &b_sum);
    let ghost al = lv(a_low@) as int;
    let ghost ah = lv(a_high@) as int;
    let ghost bl = lv(b_low@) as int;
    let ghost bh = lv(b_high@) as int;
    proof {
        lemma_karatsuba_parts(al, ah, bl, bh);
    }
    limbs::sub_limbs(&mut z1, &z0);
    limbs::sub_limbs(&mut z1, &z2);
    let total = a.len() + b.len();
    let mut result = crate::integral::zero_limbs(total);
    proof {
        lemma_lv_zeros(total as nat);
        lemma_karatsuba_fit(a@, b@, m as nat, z0@, z1@, z2@, al, ah, bl, bh);
    }
    limbs::add_shifted(&mut result, &z0, 0);
    limbs::add_shifted(&mut result, &z1, m);
    limbs::add_shifted(&mut result, &z2, 2 * m);
    limbs::trim_limbs(&mut result);
    proof {
        lemma_lv_bound(result@);
    }
    result
}

/// The three partial products placed at limbs `0`, `m` and `2 m` of a vector
/// of `a.len() + b.len()` limbs fit there and add up to the product.
proof fn lemma_karatsuba_fit(
    a: Seq<u64>,
    b: Seq<u64>,
    m: nat,
    z0: Seq<u64>,
    z1: Seq<u64>,
    z2: Seq<u64>,
    al: int,
    ah: int,
    bl: int,
    bh: int,
)
    requires
        al >= 0,
        ah >= 0,
        bl >= 0,
        bh >= 0,
        2 * m <= a.len() + b.len(),
        lv(a) == al + ah * bpow(m),
        lv(b) == bl + bh * bpow(m),
        lv(z0) == al * bl,
        lv(z1) == al * bh + ah * bl,
        lv(z2) == ah * bh,
        trimmed(z0),
        trimmed(z1),
        trimmed(z2),
    ensures
        0 + z0.len() <= a.len() + b.len(),
        0 + lv(z0) * bpow(0) < bpow((a.len() + b.len()) as nat),
        m + z1.len() <= a.len() + b.len(),
        (0 + lv(z0) * bpow(0)) + lv(z1) * bpow(m) < bpow((a.len() + b.len()) as nat),
        2 * m + z2.len() <= a.len() + b.len(),
        ((0 + lv(z0) * bpow(0)) + lv(z1) * bpow(m)) + lv(z2) * bpow(2 * m) < bpow(
            (a.len() + b.len()) as nat,
        ),
        ((0 + lv(z0) * bpow(0)) + lv(z1) * bpow(m)) + lv(z2) * bpow(2 * m) == lv(a) * lv(b),
{
    let total = (a.len() + b.len()) as nat;
    let pm = bpow(m) as int;
    lemma_bpow_add(m, m);
    lemma_bpow_pos(m);
    lemma_lv_bound(a);
    lemma_lv_bound(b);
    lemma_bpow_add(a.len(), b.len());
    lemma_product_below(lv(a) as int, lv(b) as int, bpow(a.len()) as int, bpow(b.len()) as int);
    let prod = (lv(a) * lv(b)) as int;
    lemma_expand(lv(a) as int, lv(b) as int, al, ah, bl, bh, pm);
    assert(al * bh + ah * bl >= 0 && ah * bh >= 0 && al * bl >= 0) by (nonlinear_arith)
        requires
            al >= 0,
            ah >= 0,
            bl >= 0,
            bh >= 0,
    ;
    lemma_part_bound(al * bl, al * bh + ah * bl, ah * bh, pm, prod, total, m);
    lemma_trimmed_len(z0, total);
    lemma_trimmed_len(z1, (total - m) as nat);
    lemma_trimmed_len(z2, (total - 2 * m) as nat);
    assert(bpow(0) == 1);
    lemma_mul_basics(lv(z0) as int);
}

proof fn lemma_expand(x: int, y: int, al: int, ah: int, bl: int, bh: int, pm: int)
    requires
        x == al + ah * pm,
        y == bl + bh * pm,
    ensures
        x * y == al * bl + (al * bh + ah * bl) * pm + ah * bh * (pm * pm),
{
    lemma_mul_is_distributive_add(x, bl, bh * pm);
    lemma_mul_is_distributive_add_other_way(bl, al, ah * pm);
    lemma_mul_is_distributive_add_other_way(bh * pm, al, ah * pm);
    lemma_mul_is_associative(ah, pm, bl);
    lemma_mul_is_commutative(pm, bl);
    lemma_mul_is_associative(ah, bl, pm);
    lemma_mul_is_associative(al, bh, pm);
    lemma_mul_is_associative(ah * pm, bh, pm);
    lemma_mul_is_associative(ah, pm, bh);
    lemma_mul_is_commutative(pm, bh);
    lemma_mul_is_associative(ah, bh, pm);
    lemma_mul_is_associative(ah * bh, pm, pm);
    lemma_mul_is_distributive_add_other_way(pm, al * bh, ah * bl);
    lemma_mul_is_commutative(bl, al);
    lemma_mul_is_commutative(bl, ah * pm);
    lemma_mul_is_commutative(bh * pm, al);
    lemma_mul_is_associative(al, bh, pm);
    lemma_mul_is_commutative(bh * pm, ah * pm);
}

/// The low and high parts of a limb vector split at limb `m`.
proof fn lemma_halves(s: Seq<u64>, lo: Seq<u64>, hi: Seq<u64>, m: int)
    requires
        0 <= m,
        s.len() > m ==> lo == s.subrange(0, m) && hi == s.subrange(m, s.len() as int),
        s.len() <= m ==> lo == s && hi == s.subrange(s.len() as int, s.len() as int),
    ensures
        lv(s) == lv(lo) + lv(hi) * bpow(m as nat),
        lo.len() <= m,
{
    lemma_bpow_pos(m as nat);
    if s.len() > m {
        lemma_lv_split(s, m);
        assert(lo =~= s.take(m));
        assert(hi =~= s.skip(m));
        lemma_mul_is_commutative(bpow(m as nat) as int, lv(hi) as int);
    } else {
        assert(hi =~= Seq::<u64>::empty());
        assert(lv(hi) == 0);
        lemma_mul_basics(bpow(m as nat) as int);
    }
}

proof fn lemma_karatsuba_parts(al: int, ah: int, bl: int, bh: int)
    requires
        al >= 0,
        ah >= 0,
        bl >= 0,
        bh >= 0,
    ensures
        (al + ah) * (bl + bh) >= al * bl,
        (al + ah) * (bl + bh) - al * bl >= ah * bh,
        (al + ah) * (bl + bh) - al * bl - ah * bh == al * bh + ah * bl,
{
    assert((al + ah) * (bl + bh) == al * bl + al * bh + ah * bl + ah * bh) by (nonlinear_arith);
    assert(al * bh >= 0 && ah * bl >= 0 && ah * bh >= 0 && al * bl >= 0) by (nonlinear_arith)
        requires
            al >= 0,
            ah >= 0,
            bl >= 0,
            bh >= 0,
    ;
}

proof fn lemma_product_below(x: int, y: int, px: int, py: int)
    requires
        0 <= x < px,
        0 <= y < py,
    ensures
        x * y < px * py,
{
    assert(x * y < px * py) by (nonlinear_arith)
        requires
            0 <= x < px,
            0 <= y < py,
    ;
}

/// The three partial products of a product below `bpow(total)` fit at their
/// places.
proof fn lemma_part_bound(z0: int, z1: int, z2: int, pm: int, prod: int, total: nat, m: nat)
    requires
        z0 >= 0,
        z1 >= 0,
        z2 >= 0,
        pm == bpow(m),
        prod == z0 + z1 * pm + z2 * (pm * pm),
        prod < bpow(total),
        2 * m <= total,
        pm * pm == bpow(2 * m),
    ensures
        z0 < bpow(total),
        z1 < bpow((total - m) as nat),
        z2 < bpow((total - 2 * m) as nat),
        z0 + z1 * pm < bpow(total),
        z0 + z1 * pm + z2 * bpow(2 * m) < bpow(total),
{
    lemma_bpow_pos(m);
    lemma_bpow_pos(2 * m);
    lemma_bpow_add(m, (total - m) as nat);
    lemma_bpow_add(2 * m, (total - 2 * m) as nat);
    let q1 = bpow((total - m) as nat) as int;
    let q2 = bpow((total - 2 * m) as nat) as int;
    assert(z1 * pm >= 0 && z2 * (pm * pm) >= 0) by (nonlinear_arith)
        requires
            z1 >= 0,
            z2 >= 0,
            pm > 0,
    ;
    if z1 >= q1 {
        assert(z1 * pm >= q1 * pm) by (nonlinear_arith)
            requires
                z1 >= q1,
                pm > 0,
        ;
    }
    if z2 >= q2 {
        assert(z2 * (pm * pm) >= q2 * (pm * pm)) by (nonlinear_arith)
            requires
                z2 >= q2,
                pm * pm > 0,
        ;
    }
}

impl ApInt {
    pub(crate) fn _mul_karatsuba_impl(&self, rhs: &Self) -> (r: Self)
        requires
            self@.width == rhs@.width,
            self@.width > 0,
        ensures
            r@ == mul_model(self@, rhs@),
    {
        karatsuba_mul(self, rhs)
    }
}

} // verus!
