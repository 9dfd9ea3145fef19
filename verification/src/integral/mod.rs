//! Arbitrary-precision integer arithmetic.
//!
//! This module provides `ApInt`, an integer of any positive bit width. Numbers
//! are stored as 64-bit limbs in little-endian order; the bits of the most
//! significant limb above the width are always clear. Every value has both an
//! unsigned reading (`value`, in `0 .. 2^width`) and a two's-complement signed
//! reading.
pub mod detail;
pub mod format;
pub mod laws;
pub mod model;
pub mod ops;
pub mod parse;
pub mod text_laws;

use crate::integral::detail::limbs;
use crate::integral::model::{base, bpow, lv, digit, num_limbs_spec, limbs_of, lemma_bpow_pos, lemma_bpow_mono, lemma_pow2_64, lemma_bpow_pow2, lemma_lv_bound, lemma_lv_concat, lemma_lv_push, lemma_lv_split, lemma_lv_take_next, lemma_lv_single, zeros, lemma_lv_zeros, lemma_lv_digit, lemma_limbs_of, lemma_num_limbs_bound};
use vstd::arithmetic::div_mod::*;
use vstd::arithmetic::mul::*;
use vstd::arithmetic::power2::*;
use vstd::bits::*;
use vstd::prelude::*;

verus! {

/// Type alias for a single limb (64-bit word).
pub type Limb = u64;

/// Number of bits in a limb.
pub const LIMB_BITS: usize = 64;

/// Container type for limbs storage.
pub type Limbs = Vec<Limb>;

/// The mathematical content of an `ApInt`: its bit width and its unsigned
/// value.
pub ghost struct IntModel {
    pub width: nat,
    pub value: nat,
}

/// `x` reduced into the range of a `width`-bit integer.
pub open spec fn wrap(width: nat, x: int) -> nat {
    (x % (pow2(width) as int)) as nat
}

/// The two's-complement reading of the `width`-bit pattern `v`.
pub open spec fn signed_of(width: nat, v: nat) -> int {
    if v >= pow2((width - 1) as nat) {
        v - pow2(width)
    } else {
        v as int
    }
}

/// A model that an `ApInt` can have: positive width, value in range.
pub open spec fn valid(m: IntModel) -> bool {
    m.width > 0 && m.value < pow2(m.width)
}

/// The value of a low-bits mask of `bits` bits, saturating at a full limb.
pub open spec fn mask_spec(bits: nat) -> u64 {
    if bits >= 64 {
        u64::MAX
    } else {
        low_bits_mask(bits) as u64
    }
}

/// The sum of two integers of one width, modulo `2^width`.
pub open spec fn add_model(a: IntModel, b: IntModel) -> IntModel {
    IntModel { width: a.width, value: wrap(a.width, a.value + b.value as int) }
}

/// The difference, modulo `2^width`.
pub open spec fn sub_model(a: IntModel, b: IntModel) -> IntModel {
    IntModel { width: a.width, value: wrap(a.width, a.value - b.value) }
}

/// The product, modulo `2^width`.
pub open spec fn mul_model(a: IntModel, b: IntModel) -> IntModel {
    IntModel { width: a.width, value: wrap(a.width, (a.value * b.value) as int) }
}

/// The two's-complement negation, modulo `2^width`.
pub open spec fn neg_model(a: IntModel) -> IntModel {
    IntModel { width: a.width, value: wrap(a.width, -(a.value as int)) }
}

/// The complement of every bit of the width.
pub open spec fn not_model(a: IntModel) -> IntModel {
    IntModel { width: a.width, value: (pow2(a.width) - 1 - a.value) as nat }
}

/// Limb-wise AND.
pub open spec fn and_model(a: IntModel, b: IntModel) -> IntModel {
    IntModel {
        width: a.width,
        value: lv(Seq::new(num_limbs_spec(a.width), |i: int| digit(a.value, i as nat) & digit(b.value, i as nat))),
    }
}

/// Limb-wise OR.
pub open spec fn or_model(a: IntModel, b: IntModel) -> IntModel {
    IntModel {
        width: a.width,
        value: lv(Seq::new(num_limbs_spec(a.width), |i: int| digit(a.value, i as nat) | digit(b.value, i as nat))),
    }
}

/// Limb-wise XOR.
pub open spec fn xor_model(a: IntModel, b: IntModel) -> IntModel {
    IntModel {
        width: a.width,
        value: lv(Seq::new(num_limbs_spec(a.width), |i: int| digit(a.value, i as nat) ^ digit(b.value, i as nat))),
    }
}

/// The value shifted left by `k` bits, modulo `2^width`.
pub open spec fn shl_model(a: IntModel, k: nat) -> IntModel {
    IntModel { width: a.width, value: wrap(a.width, (a.value * pow2(k)) as int) }
}

/// The value shifted right by `k` bits, filling with zeros.
pub open spec fn lshr_model(a: IntModel, k: nat) -> IntModel {
    IntModel { width: a.width, value: a.value / pow2(k) }
}

/// The signed value divided by `2^k`, rounding toward negative infinity.
pub open spec fn ashr_model(a: IntModel, k: nat) -> IntModel {
    IntModel { width: a.width, value: wrap(a.width, signed_of(a.width, a.value) / (pow2(k) as int)) }
}

/// The same value in a wider integer.
pub open spec fn zext_model(a: IntModel, width: nat) -> IntModel {
    IntModel { width, value: a.value }
}

/// The low `width` bits.
pub open spec fn trunc_model(a: IntModel, width: nat) -> IntModel {
    IntModel { width, value: a.value % pow2(width) }
}

/// The same signed value in a wider integer.
pub open spec fn sext_model(a: IntModel, width: nat) -> IntModel {
    IntModel { width, value: wrap(width, signed_of(a.width, a.value)) }
}

/// The unsigned quotient.
pub open spec fn udiv_model(a: IntModel, b: IntModel) -> IntModel {
    IntModel { width: a.width, value: a.value / b.value }
}

/// The unsigned remainder.
pub open spec fn urem_model(a: IntModel, b: IntModel) -> IntModel {
    IntModel { width: a.width, value: a.value % b.value }
}

/// The signed quotient, rounded toward zero, modulo `2^width`.
pub open spec fn sdiv_model(a: IntModel, b: IntModel) -> IntModel {
    IntModel {
        width: a.width,
        value: wrap(a.width, trunc_div(signed_of(a.width, a.value), signed_of(b.width, b.value))),
    }
}

/// The signed remainder, with the sign of the dividend, modulo `2^width`.
pub open spec fn srem_model(a: IntModel, b: IntModel) -> IntModel {
    IntModel {
        width: a.width,
        value: wrap(a.width, trunc_rem(signed_of(a.width, a.value), signed_of(b.width, b.value))),
    }
}

/// Arbitrary-precision integer with fixed bit width.
///
/// `ApInt` represents integers of a fixed width, supporting both signed and
/// unsigned interpretations. The internal representation uses a vector of
/// 64-bit limbs in little-endian order (least significant limb first).
#[derive(PartialEq, Eq, Debug)]
pub struct ApInt {
    /// Bit width of the integer.
    width: usize,
    /// Little-endian limbs (least significant first).
    limbs: Limbs,
}

impl View for ApInt {
    type V = IntModel;

    closed spec fn view(&self) -> IntModel {
        IntModel { width: self.width as nat, value: lv(self.limbs@) }
    }
}

impl Clone for ApInt {
    fn clone(&self) -> (r: Self)
        ensures
            r@ == self@,
    {
        proof {
            use_type_invariant(self);
        }
        let limbs = copy_limbs(&self.limbs);
        ApInt { width: self.width, limbs }
    }
}

/// A copy of a limb vector.
pub fn copy_limbs(s: &[u64]) -> (r: Vec<u64>)
    ensures
        r@ == s@,
{
    let mut v: Vec<u64> = Vec::new();
    let mut i: usize = 0;
    while i < s.len()
        invariant
            i <= s.len(),
            v@ == s@.take(i as int),
        decreases s.len() - i,
    {
        v.push(s[i]);
        i = i + 1;
        proof {
            assert(v@ =~= s@.take(i as int));
        }
    }
    proof {
        assert(s@.take(s.len() as int) =~= s@);
    }
    v
}

impl ApInt {
    #[verifier::type_invariant]
    closed spec fn inv(self) -> bool {
        &&& self.width > 0
        &&& self.limbs.len() == num_limbs_spec(self.width as nat)
        &&& lv(self.limbs@) < pow2(self.width as nat)
    }

    /// Builds an integer from limbs that already satisfy the invariant.
    fn assemble(width: usize, limbs: Vec<u64>) -> (r: Self)
        requires
            width > 0,
            limbs.len() == num_limbs_spec(width as nat),
            lv(limbs@) < pow2(width as nat),
        ensures
            r@ == (IntModel { width: width as nat, value: lv(limbs@) }),
            r.limbs@ == limbs@,
    {
        ApInt { width, limbs }
    }

    /// Builds an integer from `num_limbs(width)` limbs, clearing the bits above
    /// `width`.
    fn assemble_masked(width: usize, limbs: Vec<u64>) -> (r: Self)
        requires
            width > 0,
            limbs.len() == num_limbs_spec(width as nat),
        ensures
            r@ == (IntModel { width: width as nat, value: lv(limbs@) % pow2(width as nat) }),
    {
        let ghost s0 = limbs@;
        let mut limbs = limbs;
        limbs::clear_high_bits(&mut limbs, width);
        proof {
            lemma_pow2_pos(width as nat);
            lemma_mod_bound(lv(s0) as int, pow2(width as nat) as int);
        }
        Self::assemble(width, limbs)
    }

    /// Creates a new `ApInt` with the specified width and initial value.
    ///
    /// The value is truncated to fit within the specified width.
    pub fn new(width: usize, value: u128) -> (r: Self)
        requires
            width > 0,
        ensures
            r@ == (IntModel { width: width as nat, value: wrap(width as nat, value as int) }),
            valid(r@),
    {
        let num_limbs = Self::num_limbs(width);
        let lo = value as u64;
        let hi = (value >> 64) as u64;
        let mut limbs: Vec<u64> = Vec::new();
        let mut i: usize = 0;
        while i < num_limbs
            invariant
                i <= num_limbs,
                limbs.len() == i,
                forall|k: int|
                    0 <= k < i ==> limbs@[k] == if k == 0 {
                        lo
                    } else if k == 1 {
                        hi
                    } else {
                        0u64
                    },
            decreases num_limbs - i,
        {
            let x = if i == 0 {
                lo
            } else if i == 1 {
                hi
            } else {
                0
            };
            limbs.push(x);
            i = i + 1;
        }
        proof {
            lemma_split_u128(value);
            lemma_num_limbs_bound(width as nat);
            lemma_new_limbs_value(limbs@, lo, hi, value, width as nat);
        }
        Self::assemble_masked(width, limbs)
    }

    /// Creates a new `ApInt` with all bits set to zero.
    pub fn zero(width: usize) -> (r: Self)
        requires
            width > 0,
        ensures
            r@ == (IntModel { width: width as nat, value: 0 }),
            valid(r@),
    {
        let n = Self::num_limbs(width);
        let limbs = zero_limbs(n);
        proof {
            lemma_lv_zeros(n as nat);
            lemma_pow2_pos(width as nat);
        }
        Self::assemble(width, limbs)
    }

    /// Creates a new `ApInt` with value 1.
    pub fn one(width: usize) -> (r: Self)
        requires
            width > 0,
        ensures
            r@ == (IntModel { width: width as nat, value: wrap(width as nat, 1) }),
            r@.value == 1,
            valid(r@),
    {
        let r = Self::new(width, 1);
        proof {
            lemma_pow2_strictly_increases(0, width as nat);
            lemma2_to64();
            lemma_small_mod(1, pow2(width as nat));
        }
        r
    }

    /// Creates a new `ApInt` from raw limbs.
    ///
    /// The limb vector is resized to the number of limbs that the width
    /// needs: excess limbs are dropped and missing limbs are zero. Unused bits
    /// in the most significant limb are cleared.
    pub fn from_limbs(width: usize, limbs: Vec<u64>) -> (r: Self)
        requires
            width > 0,
        ensures
            r@ == (IntModel { width: width as nat, value: wrap(width as nat, lv(limbs@) as int) }),
            valid(r@),
    {
        let needed = Self::num_limbs(width);
        let ghost s0 = limbs@;
        let limbs = resized(&limbs, needed);
        proof {
            lemma_num_limbs_bound(width as nat);
            lemma_resize_value(s0, limbs@, needed as nat);
            lemma_lv_bound(s0);
            lemma_bpow_pow2(needed as nat);
            lemma_mod_mod_pow2(lv(s0), width as nat, 64 * needed as nat);
        }
        Self::assemble_masked(width, limbs)
    }

    /// Returns the number of limbs required to store the given bit width.
    pub fn num_limbs(width: usize) -> (r: usize)
        ensures
            r == num_limbs_spec(width as nat),
    {
        width / LIMB_BITS + if width % LIMB_BITS != 0 {
            1
        } else {
            0
        }
    }

    /// Returns a reference to the internal limb vector.
    pub fn get_limbs(&self) -> (r: &Limbs)
        ensures
            r@ == limbs_of(self@.value, num_limbs_spec(self@.width)),
            lv(r@) == self@.value,
            r.len() > 0,
            valid(self@),
    {
        proof {
            use_type_invariant(self);
            lemma_limbs_of(self.limbs@);
            lemma_num_limbs_bound(self.width as nat);
        }
        &self.limbs
    }

    /// Returns the bit width of this integer.
    pub fn width(&self) -> (r: usize)
        ensures
            r == self@.width,
    {
        self.width
    }

    /// Creates a mask with the specified number of low bits set.
    pub fn mask(bits: usize) -> (r: Limb)
        ensures
            r == mask_spec(bits as nat),
    {
        if bits == 0 {
            proof {
                lemma2_to64();
            }
            0
        } else if bits < 64 {
            proof {
                lemma_u64_pow2_no_overflow(bits as nat);
                lemma_u64_shl_is_mul(1, bits as u64);
            }
            (1u64 << bits) - 1
        } else {
            u64::MAX
        }
    }

    /// Returns `true` if the limbs are stored inline (no heap allocation).
    ///
    /// Limbs are always stored in a heap-allocated vector, so this is always
    /// `false`.
    pub fn is_inline(&self) -> (r: bool)
        ensures
            r == false,
    {
        false
    }

    /// Returns `true` if this integer is negative (signed interpretation):
    /// its most significant bit is set.
    pub fn is_negative(&self) -> (r: bool)
        ensures
            r == (self@.value >= pow2((self@.width - 1) as nat)),
            r == (signed_of(self@.width, self@.value) < 0),
    {
        proof {
            use_type_invariant(self);
        }
        let bit = self.width - 1;
        let limb = bit / LIMB_BITS;
        let offset = bit % LIMB_BITS;
        let x = self.limbs[limb];
        let r = ((x >> offset) & 1) != 0;
        proof {
            lemma_top_bit(self.limbs@, self.width as nat);
            lemma_bit_test(x, offset as u64);
        }
        r
    }

    /// Returns `true` if all bits are zero.
    pub fn is_zero(&self) -> (r: bool)
        ensures
            r == (self@.value == 0),
    {
        proof {
            use_type_invariant(self);
        }
        let mut i: usize = 0;
        while i < self.limbs.len()
            invariant
                i <= self.limbs.len(),
                forall|k: int| 0 <= k < i ==> self.limbs@[k] == 0,
            decreases self.limbs.len() - i,
        {
            if self.limbs[i] != 0 {
                proof {
                    lemma_lv_digit(self.limbs@, i as int);
                    lemma_bpow_pos(i as nat);
                    lemma_small_div_zero(i as nat);
                }
                return false;
            }
            i = i + 1;
        }
        proof {
            assert(self.limbs@ =~= zeros(self.limbs.len() as nat));
            lemma_lv_zeros(self.limbs.len() as nat);
        }
        true
    }
}

/// A vector of `n` zero limbs.
pub fn zero_limbs(n: usize) -> (r: Vec<u64>)
    ensures
        r@ == zeros(n as nat),
{
    let mut v: Vec<u64> = Vec::new();
    let mut i: usize = 0;
    while i < n
        invariant
            i <= n,
            v@ == zeros(i as nat),
        decreases n - i,
    {
        v.push(0);
        i = i + 1;
        proof {
            assert(v@ =~= zeros(i as nat));
        }
    }
    v
}

proof fn lemma_small_div_zero(i: nat)
    ensures
        digit(0, i) == 0,
{
    lemma_bpow_pos(i);
    lemma_basic_div(0, bpow(i) as int);
}

/// The low and high halves of a `u128`.
pub proof fn lemma_split_u128(v: u128)
    ensures
        (v as u64) as nat == v as nat % base(),
        ((v >> 64) as u64) as nat == v as nat / base(),
{
    assert((v as u64) as u128 == v % 0x1_0000_0000_0000_0000u128) by (bit_vector);
    assert((v >> 64) as u64 as u128 == v / 0x1_0000_0000_0000_0000u128) by (bit_vector);
}

proof fn lemma_new_limbs_value(s: Seq<u64>, lo: u64, hi: u64, value: u128, width: nat)
    requires
        s.len() == num_limbs_spec(width),
        width > 0,
        lo as nat == value as nat % base(),
        hi as nat == value as nat / base(),
        forall|k: int|
            0 <= k < s.len() ==> s[k] == if k == 0 {
                lo
            } else if k == 1 {
                hi
            } else {
                0u64
            },
    ensures
        lv(s) % pow2(width) == wrap(width, value as int),
{
    lemma_num_limbs_bound(width);
    let n = s.len();
    lemma_pow2_pos(width);
    lemma_fundamental_div_mod(value as int, base() as int);
    if n == 1 {
        assert(s =~= seq![lo]);
        lemma_lv_single(lo);
        // width <= 64, so 2^width divides 2^64
        assert(width <= 64);
        lemma_pow2_64();
        lemma_pow2_adds(width, (64 - width) as nat);
        lemma_pow2_pos((64 - width) as nat);
        lemma_mod_mod(value as int, pow2(width) as int, pow2((64 - width) as nat) as int);
    } else {
        lemma_lv_split(s, 2);
        assert(s.skip(2) =~= zeros((n - 2) as nat));
        lemma_lv_zeros((n - 2) as nat);
        lemma_lv_take_next(s, 1);
        lemma_lv_take_next(s, 0);
        assert(s.take(0) =~= Seq::<u64>::empty());
        assert(lv(s.take(0)) == 0);
        assert(bpow(0) == 1);
        assert(bpow(1) == base());
        assert(lv(s.take(1)) == lo as nat);
        assert(lv(s.take(2)) == lo as nat + hi as nat * base());
        assert(lv(s) == lv(s.take(2)));
        assert(value as int == base() * (value as int / base() as int) + value as int % base() as int);
        assert(lv(s) == value as nat);
    }
}

/// The first `n` limbs of `s`, padded with zero limbs when `s` is shorter.
pub fn resized(s: &[u64], n: usize) -> (r: Vec<u64>)
    ensures
        r.len() == n,
        forall|i: int| 0 <= i < n ==> r@[i] == if i < s.len() { s@[i] } else { 0u64 },
{
    let mut v: Vec<u64> = Vec::new();
    let mut i: usize = 0;
    while i < n
        invariant
            i <= n,
            v.len() == i,
            forall|k: int| 0 <= k < i ==> v@[k] == if k < s.len() { s@[k] } else { 0u64 },
        decreases n - i,
    {
        let x = if i < s.len() {
            s[i]
        } else {
            0
        };
        v.push(x);
        i = i + 1;
    }
    v
}

pub proof fn lemma_resize_value(s0: Seq<u64>, s: Seq<u64>, n: nat)
    requires
        s.len() == n,
        forall|i: int| 0 <= i < n ==> s[i] == if i < s0.len() { s0[i] } else { 0u64 },
    ensures
        lv(s) == lv(s0) % bpow(n),
{
    lemma_bpow_pos(n);
    if s0.len() <= n {
        assert(s =~= pad_zeros(s0, n));
        lemma_lv_concat(s0, zeros((n - s0.len()) as nat));
        lemma_lv_zeros((n - s0.len()) as nat);
        lemma_lv_bound(s0);
        lemma_bpow_mono(s0.len(), n);
        lemma_small_mod(lv(s0), bpow(n));
    } else {
        lemma_lv_take_mod(s0, n as int);
        assert(s =~= s0.take(n as int));
    }
}

spec fn pad_zeros(s: Seq<u64>, n: nat) -> Seq<u64> {
    s + zeros((n - s.len()) as nat)
}

/// Keeping the low `k` limbs reduces modulo `bpow(k)`.
pub proof fn lemma_lv_take_mod(s: Seq<u64>, k: int)
    requires
        0 <= k <= s.len(),
    ensures
        lv(s.take(k)) == lv(s) % bpow(k as nat),
{
    lemma_lv_split(s, k);
    lemma_lv_bound(s.take(k));
    assert(s.take(k).len() == k);
    lemma_bpow_pos(k as nat);
    assert(lv(s.take(k)) < bpow(k as nat));
    lemma_mul_is_commutative(bpow(k as nat) as int, lv(s.skip(k)) as int);
    assert(lv(s) as int == lv(s.skip(k)) as int * bpow(k as nat) as int + lv(s.take(k)) as int);
    lemma_fundamental_div_mod_converse(
        lv(s) as int,
        bpow(k as nat) as int,
        lv(s.skip(k)) as int,
        lv(s.take(k)) as int,
    );
    lemma_mul_is_commutative(bpow(k as nat) as int, lv(s.skip(k)) as int);
}

/// Reducing modulo `2^e` after reducing modulo `2^f`, `e <= f`, is reducing
/// modulo `2^e`.
pub proof fn lemma_mod_mod_pow2(x: nat, e: nat, f: nat)
    requires
        e <= f,
    ensures
        (x % pow2(f)) % pow2(e) == x % pow2(e),
{
    lemma_pow2_adds(e, (f - e) as nat);
    lemma_pow2_pos(e);
    lemma_pow2_pos((f - e) as nat);
    lemma_mod_mod(x as int, pow2(e) as int, pow2((f - e) as nat) as int);
}

/// The most significant bit of a `width`-bit value sits in the top limb.
proof fn lemma_top_bit(s: Seq<u64>, width: nat)
    requires
        width > 0,
        s.len() == num_limbs_spec(width),
        lv(s) < pow2(width),
    ensures
        (lv(s) >= pow2((width - 1) as nat)) == (s[((width - 1) / 64) as int] as nat >= pow2(
            ((width - 1) % 64) as nat,
        )),
        (s[((width - 1) / 64) as int] as nat) < pow2((((width - 1) % 64) + 1) as nat),
{
    let n = s.len();
    lemma_num_limbs_bound(width);
    let li: nat = ((width - 1) / 64) as nat;
    let off: nat = ((width - 1) % 64) as nat;
    assert(li == n - 1) by (nonlinear_arith)
        requires
            64 * (n - 1) < width <= 64 * n,
            li == (width - 1) / 64,
    ;
    assert(width - 1 == 64 * li + off) by (nonlinear_arith)
        requires
            li == (width - 1) / 64,
            off == (width - 1) % 64,
    ;
    let p = bpow(li);
    lemma_bpow_pow2(li);
    lemma_bpow_pos(li);
    let lo = lv(s.drop_last());
    lemma_lv_bound(s.drop_last());
    let x = s.last() as nat;
    assert(lv(s) == lo + x * p);
    lemma_pow2_adds(64 * li, off);
    lemma_pow2_adds(64 * li, (off + 1) as nat);
    assert(pow2((width - 1) as nat) == p * pow2(off));
    assert(pow2(width) == p * pow2((off + 1) as nat));
    lemma_pow2_pos(off);
    if x >= pow2(off) {
        assert(x * p >= pow2(off) * p) by (nonlinear_arith)
            requires
                x >= pow2(off),
        ;
    } else {
        assert(x * p + p <= pow2(off) * p) by (nonlinear_arith)
            requires
                x < pow2(off),
        ;
    }
    if x >= pow2((off + 1) as nat) {
        assert(x * p >= pow2((off + 1) as nat) * p) by (nonlinear_arith)
            requires
                x >= pow2((off + 1) as nat),
        ;
    }
}

/// Testing one bit of a limb whose value is below `2^(offset + 1)`.
proof fn lemma_bit_test(x: u64, offset: u64)
    requires
        offset < 64,
        (x as nat) < pow2((offset + 1) as nat),
    ensures
        (((x >> offset) & 1) != 0) == (x as nat >= pow2(offset as nat)),
{
    lemma_u64_shr_is_div(x, offset);
    lemma_pow2_pos(offset as nat);
    let q = x >> offset;
    lemma_pow2_adds(offset as nat, 1);
    lemma2_to64();
    assert(pow2((offset + 1) as nat) == pow2(offset as nat) * 2);
    lemma_div_bound_two(x as nat, pow2(offset as nat));
    assert(q < 2);
    assert(q & 1 == q) by (bit_vector)
        requires
            q < 2,
    ;
    if x as nat >= pow2(offset as nat) {
        lemma_div_is_ordered(pow2(offset as nat) as int, x as int, pow2(offset as nat) as int);
        lemma_div_by_self(pow2(offset as nat) as int);
    } else {
        lemma_basic_div(x as int, pow2(offset as nat) as int);
    }
}

proof fn lemma_div_bound_two(x: nat, p: nat)
    requires
        p > 0,
        x < p * 2,
    ensures
        x / p < 2,
{
    lemma_div_by_multiple_is_strongly_ordered(x as int, (p * 2) as int, 2, p as int);
    lemma_mul_is_commutative(p as int, 2);
    lemma_div_by_multiple(2, p as int);
}

} // verus!

verus! {

/// Reducing modulo `bpow(n)` before reducing modulo `2^w`, `w <= 64 n`, does
/// not change the result.
pub proof fn lemma_reduce(x: int, n: nat, w: nat)
    requires
        w <= 64 * n,
    ensures
        (x % (bpow(n) as int)) % (pow2(w) as int) == x % (pow2(w) as int),
{
    lemma_bpow_pow2(n);
    lemma_pow2_adds(w, (64 * n - w) as nat);
    lemma_pow2_pos(w);
    lemma_pow2_pos((64 * n - w) as nat);
    lemma_mod_mod(x, pow2(w) as int, pow2((64 * n - w) as nat) as int);
}

/// The top limb of a vector of `num_limbs(w)` limbs holds the bits of a
/// `w`-bit value that lie above the lower limbs.
pub open spec fn top_bits(w: nat) -> nat {
    (w - 64 * (num_limbs_spec(w) - 1)) as nat
}

pub proof fn lemma_top_limb_bound(s: Seq<u64>, w: nat)
    requires
        w > 0,
        s.len() == num_limbs_spec(w),
    ensures
        0 < top_bits(w) <= 64,
        (lv(s) < pow2(w)) == ((s.last() as nat) < pow2(top_bits(w))),
{
    let n = s.len();
    lemma_num_limbs_bound(w);
    let t = top_bits(w);
    let p = bpow((n - 1) as nat);
    lemma_bpow_pow2((n - 1) as nat);
    lemma_bpow_pos((n - 1) as nat);
    lemma_pow2_adds(64 * (n - 1) as nat, t);
    assert(pow2(w) == p * pow2(t));
    let lo = lv(s.drop_last());
    lemma_lv_bound(s.drop_last());
    let x = s.last() as nat;
    assert(lv(s) == lo + x * p);
    if x < pow2(t) {
        assert(lo + x * p < p * pow2(t)) by (nonlinear_arith)
            requires
                lo < p,
                x < pow2(t),
        ;
    } else {
        assert(lo + x * p >= p * pow2(t)) by (nonlinear_arith)
            requires
                x >= pow2(t),
                p > 0,
        ;
    }
}

/// Digit `i` of the value of limbs `s` is `s[i]`, for every limb.
pub proof fn lemma_digits(s: Seq<u64>)
    ensures
        forall|i: nat| i < s.len() ==> #[trigger] digit(lv(s), i) == s[i as int],
{
    assert forall|i: nat| i < s.len() implies #[trigger] digit(lv(s), i) == s[i as int] by {
        lemma_lv_digit(s, i as int);
    }
}

impl ApInt {
    /// Adds two integers of the same width, modulo `2^width`.
    pub fn add(&self, rhs: &Self) -> (r: Self)
        requires
            self@.width == rhs@.width,
        ensures
            r@ == add_model(self@, rhs@),
            valid(r@),
    {
        let mut result = self.clone();
        result.add_assign(rhs);
        result
    }

    /// Adds another integer to this one (in-place), modulo `2^width`.
    pub fn add_assign(&mut self, rhs: &Self)
        requires
            old(self)@.width == rhs@.width,
        ensures
            final(self)@ == add_model(old(self)@, rhs@),
            valid(final(self)@),
    {
        proof {
            use_type_invariant(&*self);
            use_type_invariant(rhs);
        }
        let limbs = limbs::add_limbs_mod(&self.limbs, &rhs.limbs);
        proof {
            lemma_num_limbs_bound(self.width as nat);
            lemma_reduce(lv(self.limbs@) + lv(rhs.limbs@) as int, self.limbs.len() as nat, self.width as nat);
        }
        let r = Self::assemble_masked(self.width, limbs);
        *self = r;
    }

    /// Subtracts two integers of the same width, modulo `2^width`.
    pub fn sub(&self, rhs: &Self) -> (r: Self)
        requires
            self@.width == rhs@.width,
        ensures
            r@ == sub_model(self@, rhs@),
            valid(r@),
    {
        let mut result = self.clone();
        result.sub_assign(rhs);
        result
    }

    /// Subtracts another integer from this one (in-place), modulo `2^width`.
    pub fn sub_assign(&mut self, rhs: &Self)
        requires
            old(self)@.width == rhs@.width,
        ensures
            final(self)@ == sub_model(old(self)@, rhs@),
            valid(final(self)@),
    {
        proof {
            use_type_invariant(&*self);
            use_type_invariant(rhs);
        }
        let limbs = limbs::sub_limbs_mod(&self.limbs, &rhs.limbs);
        proof {
            lemma_num_limbs_bound(self.width as nat);
            lemma_reduce(lv(self.limbs@) - lv(rhs.limbs@), self.limbs.len() as nat, self.width as nat);
        }
        let r = Self::assemble_masked(self.width, limbs);
        *self = r;
    }

    /// Bitwise complement: `2^width - 1 - value`.
    pub fn not(&self) -> (r: Self)
        ensures
            r@ == not_model(self@),
            valid(r@),
    {
        proof {
            use_type_invariant(self);
        }
        let limbs = limbs::not_limbs(&self.limbs);
        proof {
            let n = self.limbs.len() as nat;
            let w = self.width as nat;
            lemma_num_limbs_bound(w);
            lemma_bpow_pow2(n);
            lemma_pow2_adds(w, (64 * n - w) as nat);
            lemma_pow2_pos(w);
            lemma_pow2_pos((64 * n - w) as nat);
            let m = pow2(w) as int;
            let k = pow2((64 * n - w) as nat) as int;
            let a = lv(self.limbs@) as int;
            // bpow(n) - 1 - a == m * (k - 1) + (m - 1 - a)
            assert(lv(limbs@) as int == m * (k - 1) + (m - 1 - a)) by (nonlinear_arith)
                requires
                    lv(limbs@) + a + 1 == m * k,
            ;
            lemma_mod_multiples_vanish(k - 1, m - 1 - a, m);
            lemma_small_mod((m - 1 - a) as nat, m as nat);
        }
        Self::assemble_masked(self.width, limbs)
    }

    /// Two's-complement negation, modulo `2^width`.
    pub fn neg(&self) -> (r: Self)
        ensures
            r@ == neg_model(self@),
            valid(r@),
    {
        proof {
            use_type_invariant(self);
        }
        let mut result = self.not();
        let one = Self::one(self.width);
        result.add_assign(&one);
        proof {
            let m = pow2(self.width as nat) as int;
            lemma_pow2_pos(self.width as nat);
            lemma_mod_add_multiples_vanish(-(self@.value as int), m);
        }
        result
    }

    /// Limb-wise AND of two integers of the same width.
    pub fn bitand(&self, rhs: &Self) -> (r: Self)
        requires
            self@.width == rhs@.width,
        ensures
            r@ == and_model(self@, rhs@),
            r@.width == self@.width,
            forall|i: nat|
                i < num_limbs_spec(self@.width) ==> #[trigger] digit(r@.value, i) == digit(
                    self@.value,
                    i,
                ) & digit(rhs@.value, i),
            valid(r@),
    {
        proof {
            use_type_invariant(self);
            use_type_invariant(rhs);
        }
        let limbs = limbs::and_limbs(&self.limbs, &rhs.limbs);
        proof {
            let w = self.width as nat;
            lemma_top_limb_bound(self.limbs@, w);
            lemma_top_limb_bound(limbs@, w);
            let x = self.limbs@.last();
            let y = rhs.limbs@.last();
            assert(limbs@.last() == x & y);
            assert(x & y <= x) by (bit_vector);
            lemma_digits(limbs@);
            lemma_digits(self.limbs@);
            lemma_digits(rhs.limbs@);
            assert(limbs@ =~= Seq::new(
                num_limbs_spec(w),
                |k: int| digit(self@.value, k as nat) & digit(rhs@.value, k as nat),
            ));
        }
        Self::assemble(self.width, limbs)
    }

    /// Limb-wise OR of two integers of the same width.
    pub fn bitor(&self, rhs: &Self) -> (r: Self)
        requires
            self@.width == rhs@.width,
        ensures
            r@ == or_model(self@, rhs@),
            r@.width == self@.width,
            forall|i: nat|
                i < num_limbs_spec(self@.width) ==> #[trigger] digit(r@.value, i) == digit(
                    self@.value,
                    i,
                ) | digit(rhs@.value, i),
            valid(r@),
    {
        proof {
            use_type_invariant(self);
            use_type_invariant(rhs);
        }
        let limbs = limbs::or_limbs(&self.limbs, &rhs.limbs);
        proof {
            let w = self.width as nat;
            lemma_top_limb_bound(self.limbs@, w);
            lemma_top_limb_bound(rhs.limbs@, w);
            lemma_top_limb_bound(limbs@, w);
            lemma_or_xor_below(self.limbs@.last(), rhs.limbs@.last(), top_bits(w));
            lemma_digits(limbs@);
            lemma_digits(self.limbs@);
            lemma_digits(rhs.limbs@);
            assert(limbs@ =~= Seq::new(
                num_limbs_spec(w),
                |k: int| digit(self@.value, k as nat) | digit(rhs@.value, k as nat),
            ));
        }
        Self::assemble(self.width, limbs)
    }

    /// Limb-wise XOR of two integers of the same width.
    pub fn bitxor(&self, rhs: &Self) -> (r: Self)
        requires
            self@.width == rhs@.width,
        ensures
            r@ == xor_model(self@, rhs@),
            r@.width == self@.width,
            forall|i: nat|
                i < num_limbs_spec(self@.width) ==> #[trigger] digit(r@.value, i) == digit(
                    self@.value,
                    i,
                ) ^ digit(rhs@.value, i),
            valid(r@),
    {
        proof {
            use_type_invariant(self);
            use_type_invariant(rhs);
        }
        let limbs = limbs::xor_limbs(&self.limbs, &rhs.limbs);
        proof {
            let w = self.width as nat;
            lemma_top_limb_bound(self.limbs@, w);
            lemma_top_limb_bound(rhs.limbs@, w);
            lemma_top_limb_bound(limbs@, w);
            lemma_or_xor_below(self.limbs@.last(), rhs.limbs@.last(), top_bits(w));
            lemma_digits(limbs@);
            lemma_digits(self.limbs@);
            lemma_digits(rhs.limbs@);
            assert(limbs@ =~= Seq::new(
                num_limbs_spec(w),
                |k: int| digit(self@.value, k as nat) ^ digit(rhs@.value, k as nat),
            ));
        }
        Self::assemble(self.width, limbs)
    }
}

/// OR and XOR of two limbs below `2^t` stay below `2^t`.
pub proof fn lemma_or_xor_below(x: u64, y: u64, t: nat)
    requires
        0 < t <= 64,
        (x as nat) < pow2(t),
        (y as nat) < pow2(t),
    ensures
        ((x | y) as nat) < pow2(t),
        ((x ^ y) as nat) < pow2(t),
{
    if t < 64 {
        lemma_u64_pow2_no_overflow(t);
        lemma_u64_shl_is_mul(1, t as u64);
        let tt = t as u64;
        let m = 1u64 << tt;
        assert(x < m && y < m ==> (x | y) < m && (x ^ y) < m) by (bit_vector)
            requires
                m == 1u64 << tt,
                tt < 64,
        ;
    } else {
        lemma_pow2_64();
    }
}

} // verus!

verus! {

/// The lowest limb of a limb vector is its value modulo `2^64`.
pub proof fn lemma_low_limb(s: Seq<u64>)
    requires
        s.len() > 0,
    ensures
        s[0] as nat == lv(s) % base(),
        s[0] as nat == lv(s) % pow2(64),
{
    lemma_lv_take_mod(s, 1);
    assert(s.take(1) =~= seq![s[0]]);
    lemma_lv_single(s[0]);
    assert(bpow(1) == base() * bpow(0));
    lemma_pow2_64();
}

impl ApInt {
    /// Unsigned less-than.
    pub fn ult(&self, rhs: &Self) -> (r: bool)
        requires
            self@.width == rhs@.width,
        ensures
            r == (self@.value < rhs@.value),
    {
        proof {
            use_type_invariant(self);
            use_type_invariant(rhs);
        }
        let n = self.limbs.len();
        let mut i = n;
        while i > 0
            invariant
                i <= n,
                n == self.limbs.len(),
                n == rhs.limbs.len(),
                limbs::same_between(self.limbs@, rhs.limbs@, i, n),
            decreases i,
        {
            let j = i - 1;
            if self.limbs[j] < rhs.limbs[j] {
                proof {
                    limbs::lemma_first_diff(self.limbs@, rhs.limbs@, n, j);
                    assert(self.limbs@.take(n as int) =~= self.limbs@);
                    assert(rhs.limbs@.take(n as int) =~= rhs.limbs@);
                }
                return true;
            }
            if rhs.limbs[j] < self.limbs[j] {
                proof {
                    limbs::lemma_first_diff(rhs.limbs@, self.limbs@, n, j);
                    assert(self.limbs@.take(n as int) =~= self.limbs@);
                    assert(rhs.limbs@.take(n as int) =~= rhs.limbs@);
                }
                return false;
            }
            i = j;
        }
        proof {
            limbs::lemma_all_same(self.limbs@, rhs.limbs@, n);
            assert(self.limbs@.take(n as int) =~= self.limbs@);
            assert(rhs.limbs@.take(n as int) =~= rhs.limbs@);
        }
        false
    }

    /// Unsigned less-or-equal.
    pub fn ule(&self, rhs: &Self) -> (r: bool)
        requires
            self@.width == rhs@.width,
        ensures
            r == (self@.value <= rhs@.value),
    {
        !rhs.ult(self)
    }

    /// Unsigned greater-than.
    pub fn ugt(&self, rhs: &Self) -> (r: bool)
        requires
            self@.width == rhs@.width,
        ensures
            r == (self@.value > rhs@.value),
    {
        !self.ule(rhs)
    }

    /// Unsigned greater-or-equal.
    pub fn uge(&self, rhs: &Self) -> (r: bool)
        requires
            self@.width == rhs@.width,
        ensures
            r == (self@.value >= rhs@.value),
    {
        !self.ult(rhs)
    }

    /// Signed less-than (two's complement).
    pub fn slt(&self, rhs: &Self) -> (r: bool)
        requires
            self@.width == rhs@.width,
        ensures
            r == (signed_of(self@.width, self@.value) < signed_of(rhs@.width, rhs@.value)),
    {
        proof {
            use_type_invariant(self);
            use_type_invariant(rhs);
        }
        let a_neg = self.is_negative();
        let b_neg = rhs.is_negative();
        if a_neg && !b_neg {
            true
        } else if !a_neg && b_neg {
            false
        } else {
            self.ult(rhs)
        }
    }

    /// Signed less-or-equal.
    pub fn sle(&self, rhs: &Self) -> (r: bool)
        requires
            self@.width == rhs@.width,
        ensures
            r == (signed_of(self@.width, self@.value) <= signed_of(rhs@.width, rhs@.value)),
    {
        !rhs.slt(self)
    }

    /// Signed greater-than.
    pub fn sgt(&self, rhs: &Self) -> (r: bool)
        requires
            self@.width == rhs@.width,
        ensures
            r == (signed_of(self@.width, self@.value) > signed_of(rhs@.width, rhs@.value)),
    {
        !self.sle(rhs)
    }

    /// Signed greater-or-equal.
    pub fn sge(&self, rhs: &Self) -> (r: bool)
        requires
            self@.width == rhs@.width,
        ensures
            r == (signed_of(self@.width, self@.value) >= signed_of(rhs@.width, rhs@.value)),
    {
        !self.slt(rhs)
    }

    /// Zero extension to a width that is not smaller.
    pub fn zext(&self, new_width: usize) -> (r: Self)
        requires
            new_width >= self@.width,
        ensures
            r@ == zext_model(self@, new_width as nat),
            valid(r@),
    {
        proof {
            use_type_invariant(self);
            if new_width > self.width {
                lemma_pow2_strictly_increases(self.width as nat, new_width as nat);
            }
            lemma_small_mod(lv(self.limbs@), pow2(new_width as nat));
        }
        Self::from_limbs(new_width, copy_limbs(&self.limbs))
    }

    /// Truncation to a positive width that is not larger.
    pub fn trunc(&self, new_width: usize) -> (r: Self)
        requires
            new_width > 0,
            new_width <= self@.width,
        ensures
            r@ == trunc_model(self@, new_width as nat),
            valid(r@),
    {
        proof {
            use_type_invariant(self);
        }
        let mut limbs = copy_limbs(&self.limbs);
        let k = Self::num_limbs(new_width);
        proof {
            lemma_num_limbs_bound(new_width as nat);
            lemma_num_limbs_bound(self.width as nat);
            assert(k <= self.limbs.len()) by (nonlinear_arith)
                requires
                    k == (new_width + 63) / 64,
                    self.limbs.len() == (self.width + 63) / 64,
                    new_width <= self.width,
            ;
        }
        limbs.truncate(k);
        proof {
            lemma_lv_take_mod(self.limbs@, k as int);
            assert(limbs@ =~= self.limbs@.take(k as int));
            lemma_reduce(lv(self.limbs@) as int, k as nat, new_width as nat);
        }
        Self::from_limbs(new_width, limbs)
    }

    /// Sign extension to a width that is not smaller.
    pub fn sext(&self, new_width: usize) -> (r: Self)
        requires
            new_width >= self@.width,
        ensures
            r@ == sext_model(self@, new_width as nat),
            valid(r@),
    {
        proof {
            use_type_invariant(self);
            lemma_pow2_pos(self.width as nat);
        }
        if new_width == self.width {
            proof {
                lemma_wrap_signed(self.width as nat, lv(self.limbs@));
            }
            return self.clone();
        }
        let negative = self.is_negative();
        let n = Self::num_limbs(new_width);
        let mut limbs = limbs::resized_copy(&self.limbs, n);
        proof {
            lemma_num_limbs_bound(new_width as nat);
            lemma_num_limbs_bound(self.width as nat);
            assert(n >= self.limbs.len()) by (nonlinear_arith)
                requires
                    n == (new_width + 63) / 64,
                    self.limbs.len() == (self.width + 63) / 64,
                    new_width >= self.width,
            ;
            lemma_pow2_strictly_increases(self.width as nat, new_width as nat);
        }
        if negative {
            limbs::set_bits(&mut limbs, self.width, new_width);
        }
        proof {
            let v = lv(self.limbs@) as int;
            let m = pow2(new_width as nat) as int;
            let mw = pow2(self.width as nat) as int;
            if negative {
                assert(lv(limbs@) == v + m - mw);
                lemma_mod_add_multiples_vanish(v - mw, m);
                lemma_small_mod(lv(limbs@), m as nat);
            } else {
                lemma_small_mod(lv(limbs@), m as nat);
            }
        }
        Self::assemble(new_width, limbs)
    }

    /// The low 8 bits.
    pub fn to_u8_lossy(&self) -> (r: u8)
        ensures
            r as nat == self@.value % 256,
    {
        proof {
            use_type_invariant(self);
            lemma_low_limb(self.limbs@);
            lemma_low_bits(self.limbs@[0], lv(self.limbs@), 8);
            lemma2_to64();
        }
        (self.limbs[0] & Self::mask(8)) as u8
    }

    /// The low 16 bits.
    pub fn to_u16_lossy(&self) -> (r: u16)
        ensures
            r as nat == self@.value % 65536,
    {
        proof {
            use_type_invariant(self);
            lemma_low_limb(self.limbs@);
            lemma_low_bits(self.limbs@[0], lv(self.limbs@), 16);
            lemma2_to64();
        }
        (self.limbs[0] & Self::mask(16)) as u16
    }

    /// The low 32 bits.
    pub fn to_u32_lossy(&self) -> (r: u32)
        ensures
            r as nat == self@.value % 0x1_0000_0000,
    {
        proof {
            use_type_invariant(self);
            lemma_low_limb(self.limbs@);
            lemma_low_bits(self.limbs@[0], lv(self.limbs@), 32);
            lemma2_to64();
        }
        (self.limbs[0] & Self::mask(32)) as u32
    }

    /// The low 64 bits.
    pub fn to_u64_lossy(&self) -> (r: u64)
        ensures
            r as nat == self@.value % base(),
    {
        proof {
            use_type_invariant(self);
            lemma_low_limb(self.limbs@);
            let x = self.limbs@[0];
            assert(x & 0xffff_ffff_ffff_ffffu64 == x) by (bit_vector);
        }
        self.limbs[0] & Self::mask(64)
    }

    /// The low 128 bits.
    pub fn to_u128_lossy(&self) -> (r: u128)
        ensures
            r as nat == self@.value % pow2(128),
    {
        proof {
            use_type_invariant(self);
            lemma_low_limb(self.limbs@);
        }
        let mut result = self.limbs[0] as u128;
        if self.limbs.len() > 1 {
            let hi = self.limbs[1];
            proof {
                let lo = self.limbs@[0];
                assert((lo as u128) | ((hi as u128) << 64) == lo as u128 + hi as u128
                    * 0x1_0000_0000_0000_0000u128) by (bit_vector);
                lemma_lv_take_mod(self.limbs@, 2);
                lemma_lv_take_next(self.limbs@, 1);
                lemma_lv_take_next(self.limbs@, 0);
                assert(self.limbs@.take(0) =~= Seq::<u64>::empty());
                assert(bpow(1) == base() * bpow(0));
                assert(bpow(2) == base() * bpow(1));
                lemma_bpow_pow2(2);
            }
            result = result | ((hi as u128) << 64);
        } else {
            proof {
                lemma_num_limbs_bound(self.width as nat);
                lemma_pow2_strictly_increases(64, 128);
                lemma_pow2_64();
                lemma_small_mod(lv(self.limbs@), pow2(64));
                lemma_small_mod(lv(self.limbs@), pow2(128));
                lemma_lv_bound(self.limbs@);
                assert(bpow(1) == base() * bpow(0));
            }
        }
        result
    }
}

/// The low `k` bits of the low limb are the value modulo `2^k`.
proof fn lemma_low_bits(x: u64, v: nat, k: nat)
    requires
        x as nat == v % base(),
        k < 64,
    ensures
        (x & (low_bits_mask(k) as u64)) as nat == v % pow2(k),
{
    lemma_u64_low_bits_mask_is_mod(x, k);
    lemma_u64_pow2_no_overflow(k);
    lemma_reduce(v as int, 1, k);
    assert(bpow(1) == base() * bpow(0));
}

/// Wrapping the signed reading gives back the unsigned value.
pub proof fn lemma_wrap_signed(w: nat, v: nat)
    requires
        w > 0,
        v < pow2(w),
    ensures
        wrap(w, signed_of(w, v)) == v,
{
    lemma_pow2_pos(w);
    let m = pow2(w) as int;
    if v >= pow2((w - 1) as nat) {
        lemma_mod_add_multiples_vanish(v - m, m);
    }
    lemma_small_mod(v, m as nat);
}

} // verus!

verus! {

/// `2^amount` split into whole limbs and remaining bits.
pub proof fn lemma_pow2_split(amount: nat)
    ensures
        pow2(amount) == bpow(amount / 64) * pow2(amount % 64),
{
    lemma_fundamental_div_mod(amount as int, 64);
    lemma_bpow_pow2(amount / 64);
    lemma_pow2_adds(64 * (amount / 64), amount % 64);
}

impl ApInt {
    /// Logical shift left by `amount` bits, modulo `2^width`; shifting by the
    /// width or more gives zero.
    pub fn shl(&self, amount: usize) -> (r: Self)
        ensures
            r@ == shl_model(self@, amount as nat),
            valid(r@),
    {
        proof {
            use_type_invariant(self);
        }
        if amount >= self.width {
            proof {
                let w = self.width as nat;
                lemma_pow2_adds(w, (amount - w) as nat);
                lemma_pow2_pos(w);
                let v = lv(self.limbs@) as int;
                lemma_mul_is_associative(v, pow2((amount - w) as nat) as int, pow2(w) as int);
                lemma_mul_is_commutative(pow2(w) as int, pow2((amount - w) as nat) as int);
                lemma_mod_multiples_basic(v * pow2((amount - w) as nat), pow2(w) as int);
            }
            return Self::zero(self.width);
        }
        let n = self.limbs.len();
        let limb_shift = amount / LIMB_BITS;
        let bit_shift = amount % LIMB_BITS;
        proof {
            lemma_u64_pow2_no_overflow(bit_shift as nat);
            lemma_u64_shl_is_mul(1, bit_shift as u64);
            lemma_num_limbs_bound(self.width as nat);
        }
        let d = 1u64 << bit_shift;
        let (mut ext, carry) = limbs::mul_small(&self.limbs, d);
        proof {
            lemma_lv_push(ext@, carry);
        }
        ext.push(carry);
        let shifted = limbs::place_at(&ext, limb_shift, n);
        proof {
            let w = self.width as nat;
            let v = lv(self.limbs@) as int;
            lemma_pow2_split(amount as nat);
            assert(lv(ext@) == v * pow2(bit_shift as nat));
            lemma_mul_is_associative(v, pow2(bit_shift as nat) as int, bpow(limb_shift as nat) as int);
            lemma_mul_is_commutative(pow2(bit_shift as nat) as int, bpow(limb_shift as nat) as int);
            lemma_reduce(v * pow2(amount as nat), n as nat, w);
        }
        Self::assemble_masked(self.width, shifted)
    }

    /// Logical shift right by `amount` bits; shifting by the width or more
    /// gives zero.
    pub fn lshr(&self, amount: usize) -> (r: Self)
        ensures
            r@ == lshr_model(self@, amount as nat),
            valid(r@),
    {
        proof {
            use_type_invariant(self);
            lemma_pow2_pos(amount as nat);
        }
        if amount >= self.width {
            proof {
                if amount > self.width {
                    lemma_pow2_strictly_increases(self.width as nat, amount as nat);
                }
                lemma_basic_div(lv(self.limbs@) as int, pow2(amount as nat) as int);
            }
            return Self::zero(self.width);
        }
        let n = self.limbs.len();
        let limb_shift = amount / LIMB_BITS;
        let bit_shift = amount % LIMB_BITS;
        proof {
            lemma_u64_pow2_no_overflow(bit_shift as nat);
            lemma_u64_shl_is_mul(1, bit_shift as u64);
            lemma_num_limbs_bound(self.width as nat);
            assert(limb_shift < n) by (nonlinear_arith)
                requires
                    limb_shift == amount / 64,
                    amount < self.width,
                    self.width <= 64 * n,
            ;
        }
        let upper = limbs::limbs_from(&self.limbs, limb_shift);
        let d = 1u64 << bit_shift;
        let (q, _rem) = limbs::div_small(&upper, d);
        let result = limbs::resized_copy(&q, n);
        proof {
            let v = lv(self.limbs@);
            lemma_lv_split(self.limbs@, limb_shift as int);
            lemma_lv_bound(self.limbs@.take(limb_shift as int));
            lemma_bpow_pos(limb_shift as nat);
            assert(self.limbs@.take(limb_shift as int).len() == limb_shift);
            lemma_mul_is_commutative(bpow(limb_shift as nat) as int, lv(upper@) as int);
            lemma_fundamental_div_mod_converse(
                v as int,
                bpow(limb_shift as nat) as int,
                lv(upper@) as int,
                lv(self.limbs@.take(limb_shift as int)) as int,
            );
            lemma_pow2_pos(bit_shift as nat);
            lemma_fundamental_div_mod_converse(
                lv(upper@) as int,
                d as int,
                lv(q@) as int,
                _rem as int,
            );
            lemma_pow2_split(amount as nat);
            lemma_div_denominator(v as int, bpow(limb_shift as nat) as int, pow2(bit_shift as nat) as int);
            lemma_div_is_ordered_by_denominator(v as int, 1, pow2(amount as nat) as int);
        }
        Self::assemble(self.width, result)
    }

    /// Arithmetic shift right by `amount` bits: the signed value divided by
    /// `2^amount`, rounded toward negative infinity.
    pub fn ashr(&self, amount: usize) -> (r: Self)
        ensures
            r@ == ashr_model(self@, amount as nat),
            valid(r@),
    {
        proof {
            use_type_invariant(self);
            lemma_pow2_pos(amount as nat);
            lemma_pow2_pos(self.width as nat);
        }
        let negative = self.is_negative();
        if amount >= self.width {
            proof {
                lemma_ashr_full(self.width as nat, lv(self.limbs@), amount as nat);
            }
            if negative {
                return Self::zero(self.width).not();
            } else {
                return Self::zero(self.width);
            }
        }
        let shifted = self.lshr(amount);
        if !negative {
            proof {
                lemma_small_mod(lv(self.limbs@) / pow2(amount as nat), pow2(self.width as nat));
                lemma_div_is_ordered_by_denominator(lv(self.limbs@) as int, 1, pow2(amount as nat) as int);
            }
            return shifted;
        }
        proof {
            use_type_invariant(&shifted);
        }
        let mut limbs = copy_limbs(&shifted.limbs);
        let fill_from = self.width - amount;
        proof {
            lemma_ashr_fill_bound(self.width as nat, lv(self.limbs@), amount as nat);
            lemma_num_limbs_bound(self.width as nat);
        }
        limbs::set_bits(&mut limbs, fill_from, self.width);
        proof {
            lemma_ashr_negative(self.width as nat, lv(self.limbs@), amount as nat);
        }
        Self::assemble(self.width, limbs)
    }
}

proof fn lemma_ashr_full(w: nat, v: nat, k: nat)
    requires
        w > 0,
        v < pow2(w),
        k >= w,
    ensures
        v >= pow2((w - 1) as nat) ==> wrap(w, signed_of(w, v) / (pow2(k) as int)) == (pow2(w) - 1 - 0) as nat,
        v < pow2((w - 1) as nat) ==> wrap(w, signed_of(w, v) / (pow2(k) as int)) == 0,
{
    let m = pow2(w) as int;
    lemma_pow2_pos(w);
    lemma_pow2_pos(k);
    if k > w {
        lemma_pow2_strictly_increases(w, k);
    }
    lemma_pow2_adds((w - 1) as nat, 1);
    lemma2_to64();
    assert(m == 2 * pow2((w - 1) as nat));
    if v >= pow2((w - 1) as nat) {
        let s = v - m;
        assert(-(pow2(k) as int) <= s < 0);
        lemma_div_neg_small(s, pow2(k) as int);
        lemma_mod_add_multiples_vanish(-1, m);
        lemma_small_mod((m - 1) as nat, m as nat);
    } else {
        lemma_basic_div(v as int, pow2(k) as int);
        lemma_small_mod(0, m as nat);
    }
}

/// A small negative number divided (rounding down) by a larger divisor is -1.
proof fn lemma_div_neg_small(s: int, d: int)
    requires
        d > 0,
        -d <= s < 0,
    ensures
        s / d == -1,
{
    lemma_fundamental_div_mod_converse(s, d, -1, s + d);
}

proof fn lemma_ashr_fill_bound(w: nat, v: nat, k: nat)
    requires
        w > 0,
        v < pow2(w),
        k < w,
    ensures
        v / pow2(k) < pow2((w - k) as nat),
        pow2(w) == pow2((w - k) as nat) * pow2(k),
{
    lemma_pow2_adds((w - k) as nat, k);
    lemma_pow2_pos(k);
    lemma_div_strictly_bounded(v as int, pow2(k) as int, pow2((w - k) as nat) as int);
}

proof fn lemma_div_strictly_bounded(x: int, a: int, b: int)
    requires
        a > 0,
        b >= 0,
        0 <= x < b * a,
    ensures
        x / a < b,
{
    lemma_div_by_multiple(b, a);
    lemma_div_by_multiple_is_strongly_ordered(x, b * a, b, a);
}

proof fn lemma_ashr_negative(w: nat, v: nat, k: nat)
    requires
        w > 0,
        v < pow2(w),
        k < w,
        v >= pow2((w - 1) as nat),
    ensures
        v / pow2(k) + pow2(w) - pow2((w - k) as nat) == wrap(
            w,
            signed_of(w, v) / (pow2(k) as int),
        ),
        v / pow2(k) + pow2(w) - pow2((w - k) as nat) < pow2(w),
{
    lemma_ashr_fill_bound(w, v, k);
    let p = pow2(k) as int;
    let h = pow2((w - k) as nat) as int;
    let m = pow2(w) as int;
    lemma_pow2_pos(k);
    lemma_pow2_pos(w);
    // (v - h * p) / p == v / p - h
    lemma_fundamental_div_mod(v as int, p);
    lemma_mod_bound(v as int, p);
    assert(v - h * p == (v as int / p - h) * p + v as int % p) by (nonlinear_arith)
        requires
            v == p * (v as int / p) + v as int % p,
    ;
    lemma_fundamental_div_mod_converse(v - h * p, p, v as int / p - h, v as int % p);
    assert(m == h * p);
    let t = v as int / p - h;
    assert(-h <= t < 0);
    lemma_mod_add_multiples_vanish(t, m);
    assert(h <= m) by (nonlinear_arith)
        requires
            m == h * p,
            p > 0,
            h > 0,
    ;
    lemma_pow2_pos((w - k) as nat);
    lemma_small_mod((m + t) as nat, m as nat);
}

} // verus!

verus! {

impl ApInt {
    /// Multiplies two integers of the same width, modulo `2^width`.
    pub fn mul(&self, rhs: &Self) -> (r: Self)
        requires
            self@.width == rhs@.width,
        ensures
            r@ == mul_model(self@, rhs@),
            valid(r@),
    {
        proof {
            use_type_invariant(self);
        }
        let r = self._mul_impl(rhs);
        proof {
            use_type_invariant(&r);
        }
        r
    }

    /// Multiplies this integer by another (in-place), modulo `2^width`.
    pub fn mul_assign(&mut self, rhs: &Self)
        requires
            old(self)@.width == rhs@.width,
        ensures
            final(self)@ == mul_model(old(self)@, rhs@),
            valid(final(self)@),
    {
        *self = self.mul(rhs);
    }
}

} // verus!

verus! {

/// Absolute value.
pub open spec fn abs_int(x: int) -> int {
    if x < 0 {
        -x
    } else {
        x
    }
}

/// Quotient of division truncated toward zero.
pub open spec fn trunc_div(a: int, b: int) -> int {
    if (a < 0) != (b < 0) {
        -(abs_int(a) / abs_int(b))
    } else {
        abs_int(a) / abs_int(b)
    }
}

/// Remainder of division truncated toward zero: it has the sign of the
/// dividend.
pub open spec fn trunc_rem(a: int, b: int) -> int {
    if a < 0 {
        -(abs_int(a) % abs_int(b))
    } else {
        abs_int(a) % abs_int(b)
    }
}

impl ApInt {
    /// Unsigned division: returns (quotient, remainder).
    pub fn udivrem(&self, rhs: &Self) -> (r: (Self, Self))
        requires
            self@.width == rhs@.width,
            rhs@.value != 0,
        ensures
            r.0@ == udiv_model(self@, rhs@),
            r.1@ == urem_model(self@, rhs@),
            valid(r.0@),
            valid(r.1@),
    {
        proof {
            use_type_invariant(self);
        }
        let r = self._udivrem_impl(rhs);
        proof {
            use_type_invariant(&r.0);
            use_type_invariant(&r.1);
        }
        r
    }

    /// Unsigned division (quotient only).
    pub fn udiv(&self, rhs: &Self) -> (r: Self)
        requires
            self@.width == rhs@.width,
            rhs@.value != 0,
        ensures
            r@ == udiv_model(self@, rhs@),
            valid(r@),
    {
        proof {
            use_type_invariant(self);
        }
        let r = self._udiv_impl(rhs);
        proof {
            use_type_invariant(&r);
        }
        r
    }

    /// Replaces `self` with the unsigned quotient `self / rhs`.
    pub fn udiv_assign(&mut self, rhs: &Self)
        requires
            old(self)@.width == rhs@.width,
            rhs@.value != 0,
        ensures
            final(self)@ == udiv_model(old(self)@, rhs@),
            valid(final(self)@),
    {
        *self = self.udiv(rhs);
    }

    /// Unsigned remainder.
    pub fn urem(&self, rhs: &Self) -> (r: Self)
        requires
            self@.width == rhs@.width,
            rhs@.value != 0,
        ensures
            r@ == urem_model(self@, rhs@),
            valid(r@),
    {
        proof {
            use_type_invariant(self);
        }
        let r = self._urem_impl(rhs);
        proof {
            use_type_invariant(&r);
        }
        r
    }

    /// Signed division: returns (quotient, remainder), truncated toward zero
    /// (the remainder has the sign of the dividend), both modulo `2^width`.
    pub fn sdivrem(&self, rhs: &Self) -> (r: (Self, Self))
        requires
            self@.width == rhs@.width,
            rhs@.value != 0,
        ensures
            r.0@ == sdiv_model(self@, rhs@),
            r.1@ == srem_model(self@, rhs@),
            valid(r.0@),
            valid(r.1@),
    {
        proof {
            use_type_invariant(self);
            use_type_invariant(rhs);
            lemma_pow2_pos(self.width as nat);
        }
        let w = self.width;
        let ghost sa = signed_of(w as nat, self@.value);
        let ghost sb = signed_of(w as nat, rhs@.value);
        if self.is_zero() {
            proof {
                lemma_pow2_pos((w - 1) as nat);
                lemma_abs_value(w as nat, rhs@.value);
                assert(sa == 0);
                lemma_basic_div(0, abs_int(sb));
                lemma_small_mod(0, abs_int(sb) as nat);
                lemma_small_mod(0, pow2(w as nat));
            }
            return (Self::zero(w), Self::zero(w));
        }
        let lhs_negative = self.is_negative();
        let rhs_negative = rhs.is_negative();
        let lhs_abs = if lhs_negative {
            self.neg()
        } else {
            self.clone()
        };
        let rhs_abs = if rhs_negative {
            rhs.neg()
        } else {
            rhs.clone()
        };
        proof {
            lemma_abs_value(w as nat, self@.value);
            lemma_abs_value(w as nat, rhs@.value);
        }
        let (q0, r0) = lhs_abs.udivrem(&rhs_abs);
        proof {
            lemma_div_is_ordered_by_denominator(abs_int(sa), 1, abs_int(sb));
            lemma_mod_bound(abs_int(sa), abs_int(sb));
            lemma_small_mod(q0@.value, pow2(w as nat));
            lemma_small_mod(r0@.value, pow2(w as nat));
        }
        let quotient = if lhs_negative != rhs_negative {
            q0.neg()
        } else {
            q0
        };
        let remainder = if lhs_negative {
            r0.neg()
        } else {
            r0
        };
        (quotient, remainder)
    }

    /// Signed division (quotient only), truncated toward zero.
    pub fn sdiv(&self, rhs: &Self) -> (r: Self)
        requires
            self@.width == rhs@.width,
            rhs@.value != 0,
        ensures
            r@ == sdiv_model(self@, rhs@),
            valid(r@),
    {
        self.sdivrem(rhs).0
    }

    /// Replaces `self` with the signed quotient `self / rhs`.
    pub fn sdiv_assign(&mut self, rhs: &Self)
        requires
            old(self)@.width == rhs@.width,
            rhs@.value != 0,
        ensures
            final(self)@ == sdiv_model(old(self)@, rhs@),
            valid(final(self)@),
    {
        *self = self.sdiv(rhs);
    }

    /// Signed remainder; it has the sign of the dividend.
    pub fn srem(&self, rhs: &Self) -> (r: Self)
        requires
            self@.width == rhs@.width,
            rhs@.value != 0,
        ensures
            r@ == srem_model(self@, rhs@),
            valid(r@),
    {
        self.sdivrem(rhs).1
    }
}

/// The two's-complement negation of a negative pattern is its absolute value,
/// and the absolute value of a `width`-bit signed value fits in `width` bits.
pub proof fn lemma_abs_value(w: nat, v: nat)
    requires
        w > 0,
        v < pow2(w),
    ensures
        v >= pow2((w - 1) as nat) ==> wrap(w, -(v as int)) == abs_int(signed_of(w, v)),
        v < pow2((w - 1) as nat) ==> v == abs_int(signed_of(w, v)),
        abs_int(signed_of(w, v)) < pow2(w),
        v != 0 ==> abs_int(signed_of(w, v)) != 0,
{
    let m = pow2(w) as int;
    lemma_pow2_pos(w);
    lemma_pow2_adds((w - 1) as nat, 1);
    lemma2_to64();
    if v >= pow2((w - 1) as nat) {
        lemma_mod_add_multiples_vanish(-(v as int), m);
        lemma_small_mod((m - v) as nat, m as nat);
    }
}

} // verus!
