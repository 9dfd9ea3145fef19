//! Laws of `ApInt`, stated over the models that the operations' contracts
//! use: `add` computes `add_model`, `neg` computes `neg_model`, and so on.
//! Each law takes the models of its operands; `valid` is the range every
//! `ApInt` keeps.
use crate::integral::model::{base, bpow, digit, limbs_of, lv, num_limbs_spec};
use crate::integral::{
    abs_int, mask_spec, add_model, and_model, ashr_model, lshr_model, mul_model, neg_model, not_model,
    or_model, sdiv_model, sext_model, shl_model, signed_of, srem_model, sub_model, top_bits,
    trunc_div, trunc_model, trunc_rem, udiv_model, urem_model, valid, wrap, xor_model, zext_model,
    IntModel,
};
use crate::integral::format::{ascii_chars, display_bytes, hex_body, hex_byte, hex_fixed, hex_min, lower_hex};
use crate::integral::parse::{
    digits_value, hex_digits, hex_prefix, hex_skip, hex_value, is_white_space, prefix_split, radix_text_value, text_value,
    sign_split, signed_result, strip_underscores_spec, trim_chars, trim_end_chars, trim_start_chars, ParseError,
};
use vstd::arithmetic::div_mod::*;
use vstd::arithmetic::mul::*;
use vstd::arithmetic::power2::*;
use vstd::bits::*;
use vstd::utf8::encode_utf8;
use vstd::prelude::*;

verus! {

/// The integer of width `w` with value `v`.
pub open spec fn int_of(w: nat, v: nat) -> IntModel {
    IntModel { width: w, value: v }
}

// ---------------------------------------------------------------------------
// Addition, subtraction, negation
// ---------------------------------------------------------------------------

/// Addition is commutative.
pub proof fn law_add_commutative(a: IntModel, b: IntModel)
    requires
        a.width == b.width,
    ensures
        add_model(a, b) == add_model(b, a),
{
}

/// Addition is associative.
pub proof fn law_add_associative(a: IntModel, b: IntModel, c: IntModel)
    requires
        a.width == b.width,
        b.width == c.width,
    ensures
        add_model(add_model(a, b), c) == add_model(a, add_model(b, c)),
{
    let m = pow2(a.width) as int;
    lemma_pow2_pos(a.width);
    lemma_add_mod_noop_right(c.value as int, a.value + b.value as int, m);
    lemma_add_mod_noop_right(a.value as int, b.value + c.value as int, m);
    assert(c.value + (a.value + b.value) == a.value + (b.value + c.value));
}

/// Zero is the identity of addition.
pub proof fn law_add_zero(a: IntModel)
    requires
        valid(a),
    ensures
        add_model(a, int_of(a.width, 0)) == a,
{
    lemma_small_mod(a.value, pow2(a.width));
}

/// A value plus its negation is zero.
pub proof fn law_add_neg(a: IntModel)
    requires
        valid(a),
    ensures
        add_model(a, neg_model(a)) == int_of(a.width, 0),
{
    let m = pow2(a.width) as int;
    lemma_pow2_pos(a.width);
    lemma_add_mod_noop_right(a.value as int, -(a.value as int), m);
    lemma_mod_self_0(m);
    assert(0int % m == 0) by {
        lemma_small_mod(0, m as nat);
    }
}

/// Subtraction adds the negation.
pub proof fn law_sub_is_add_neg(a: IntModel, b: IntModel)
    requires
        a.width == b.width,
    ensures
        sub_model(a, b) == add_model(a, neg_model(b)),
{
    let m = pow2(a.width) as int;
    lemma_pow2_pos(a.width);
    lemma_add_mod_noop_right(a.value as int, -(b.value as int), m);
}

/// A value minus itself is zero.
pub proof fn law_sub_self(a: IntModel)
    ensures
        sub_model(a, a) == int_of(a.width, 0),
{
    lemma_pow2_pos(a.width);
    lemma_small_mod(0, pow2(a.width));
}

/// Subtracting, then adding back, gives the value again.
pub proof fn law_sub_then_add(a: IntModel, b: IntModel)
    requires
        valid(a),
        a.width == b.width,
    ensures
        add_model(sub_model(a, b), b) == a,
{
    let m = pow2(a.width) as int;
    lemma_pow2_pos(a.width);
    lemma_add_mod_noop_right(b.value as int, a.value - b.value, m);
    lemma_small_mod(a.value, m as nat);
}

/// Negation is an involution.
pub proof fn law_neg_involutive(a: IntModel)
    requires
        valid(a),
    ensures
        neg_model(neg_model(a)) == a,
{
    let m = pow2(a.width) as int;
    lemma_pow2_pos(a.width);
    lemma_sub_mod_noop(0, -(a.value as int), m);
    lemma_small_mod(0, m as nat);
    lemma_small_mod(a.value, m as nat);
}

/// The complement is an involution.
pub proof fn law_not_involutive(a: IntModel)
    requires
        valid(a),
    ensures
        not_model(not_model(a)) == a,
{
}

/// Negation is the complement plus one.
pub proof fn law_neg_is_not_plus_one(a: IntModel)
    requires
        valid(a),
    ensures
        neg_model(a) == add_model(not_model(a), int_of(a.width, 1)),
{
    let m = pow2(a.width) as int;
    lemma_pow2_pos(a.width);
    lemma_mod_add_multiples_vanish(-(a.value as int), m);
}

// ---------------------------------------------------------------------------
// Multiplication
// ---------------------------------------------------------------------------

/// Multiplication is commutative.
pub proof fn law_mul_commutative(a: IntModel, b: IntModel)
    requires
        a.width == b.width,
    ensures
        mul_model(a, b) == mul_model(b, a),
{
    lemma_mul_is_commutative(a.value as int, b.value as int);
}

/// Multiplication is associative.
pub proof fn law_mul_associative(a: IntModel, b: IntModel, c: IntModel)
    requires
        a.width == b.width,
        b.width == c.width,
    ensures
        mul_model(mul_model(a, b), c) == mul_model(a, mul_model(b, c)),
{
    let m = pow2(a.width) as int;
    lemma_pow2_pos(a.width);
    let x = a.value as int;
    let y = b.value as int;
    let z = c.value as int;
    lemma_mul_mod_noop_left(x * y, z, m);
    lemma_mul_mod_noop_right(x, y * z, m);
    lemma_mul_is_associative(x, y, z);
}

/// One is the identity of multiplication.
pub proof fn law_mul_one(a: IntModel)
    requires
        valid(a),
    ensures
        mul_model(a, int_of(a.width, 1)) == a,
{
    lemma_small_mod(a.value, pow2(a.width));
}

/// Multiplication distributes over addition.
pub proof fn law_mul_distributes(a: IntModel, b: IntModel, c: IntModel)
    requires
        a.width == b.width,
        b.width == c.width,
    ensures
        mul_model(a, add_model(b, c)) == add_model(mul_model(a, b), mul_model(a, c)),
{
    let m = pow2(a.width) as int;
    lemma_pow2_pos(a.width);
    let x = a.value as int;
    let y = b.value as int;
    let z = c.value as int;
    lemma_mul_mod_noop_right(x, y + z, m);
    lemma_add_mod_noop(x * y, x * z, m);
    lemma_mul_is_distributive_add(x, y, z);
}

// ---------------------------------------------------------------------------
// Division
// ---------------------------------------------------------------------------

/// Unsigned division: quotient times divisor plus remainder is the
/// dividend, and the remainder is below the divisor.
pub proof fn law_udivrem(a: IntModel, b: IntModel)
    requires
        b.value != 0,
    ensures
        udiv_model(a, b).value * b.value + urem_model(a, b).value == a.value,
        urem_model(a, b).value < b.value,
{
    lemma_fundamental_div_mod(a.value as int, b.value as int);
    lemma_mod_bound(a.value as int, b.value as int);
    lemma_mul_is_commutative(b.value as int, (a.value / b.value) as int);
}

// ---------------------------------------------------------------------------
// Shifts
// ---------------------------------------------------------------------------

/// Shifting left by `k` multiplies by `2^k`.
pub proof fn law_shl_is_mul(a: IntModel, k: nat)
    ensures
        shl_model(a, k) == mul_model(a, int_of(a.width, wrap(a.width, pow2(k) as int))),
{
    let m = pow2(a.width) as int;
    lemma_pow2_pos(a.width);
    lemma_mul_mod_noop_right(a.value as int, pow2(k) as int, m);
}

/// Shifting right logically by `k` divides by `2^k`.
pub proof fn law_lshr_is_udiv(a: IntModel, k: nat)
    requires
        k < a.width,
    ensures
        lshr_model(a, k) == udiv_model(a, int_of(a.width, pow2(k))),
        valid(int_of(a.width, pow2(k))),
{
    lemma_pow2_strictly_increases(k, a.width);
}

/// On a value whose sign bit is clear, the arithmetic and the logical right
/// shift agree.
pub proof fn law_ashr_nonnegative(a: IntModel, k: nat)
    requires
        valid(a),
        a.value < pow2((a.width - 1) as nat),
    ensures
        ashr_model(a, k) == lshr_model(a, k),
{
    let m = pow2(a.width) as nat;
    lemma_pow2_pos(k);
    lemma_div_is_ordered_by_denominator(a.value as int, 1, pow2(k) as int);
    lemma_div_basics(a.value as int);
    lemma_div_pos_is_pos(a.value as int, pow2(k) as int);
    lemma_small_mod(a.value / pow2(k), m);
}

// ---------------------------------------------------------------------------
// Width changes
// ---------------------------------------------------------------------------

/// Truncating a zero extension back to the starting width gives the value
/// again.
pub proof fn law_zext_then_trunc(a: IntModel, n: nat)
    requires
        valid(a),
        a.width <= n,
    ensures
        trunc_model(zext_model(a, n), a.width) == a,
        valid(zext_model(a, n)),
{
    lemma_small_mod(a.value, pow2(a.width));
    if a.width < n {
        lemma_pow2_strictly_increases(a.width, n);
    }
}

/// Shifting left by `k` bits and back right drops the top `k` bits.
pub proof fn law_shl_then_lshr(a: IntModel, k: nat)
    requires
        k <= a.width,
    ensures
        lshr_model(shl_model(a, k), k).value == a.value % pow2((a.width - k) as nat),
{
    let m = (a.width - k) as nat;
    let p = pow2(k) as int;
    let q = pow2(m) as int;
    lemma_pow2_pos(k);
    lemma_pow2_pos(m);
    lemma_pow2_adds(k, m);
    assert(k + m == a.width);
    lemma_truncate_middle(a.value as int, p, q);
    lemma_mul_is_commutative(a.value as int, p);
    lemma_div_multiples_vanish((a.value % pow2(m)) as int, p);
}

/// Truncating twice is truncating once to the smaller width.
pub proof fn law_trunc_twice(a: IntModel, n: nat, k: nat)
    requires
        k <= n,
    ensures
        trunc_model(trunc_model(a, n), k) == trunc_model(a, k),
{
    crate::integral::lemma_mod_mod_pow2(a.value, k, n);
}

/// The lossy conversions agree: each narrower one keeps the low bits of each
/// wider one.
pub proof fn law_lossy_conversions_agree(a: IntModel)
    ensures
        (a.value % pow2(128)) % base() == a.value % base(),
        (a.value % base()) % 0x1_0000_0000 == a.value % 0x1_0000_0000,
        (a.value % 0x1_0000_0000) % 65536 == a.value % 65536,
        (a.value % 65536) % 256 == a.value % 256,
{
    lemma2_to64();
    crate::integral::model::lemma_pow2_64();
    crate::integral::lemma_mod_mod_pow2(a.value, 64, 128);
    crate::integral::lemma_mod_mod_pow2(a.value, 32, 64);
    crate::integral::lemma_mod_mod_pow2(a.value, 16, 32);
    crate::integral::lemma_mod_mod_pow2(a.value, 8, 16);
}

// ---------------------------------------------------------------------------
// Comparisons
// ---------------------------------------------------------------------------

/// On values whose sign bits are clear, the signed and the unsigned order
/// agree.
pub proof fn law_signed_unsigned_agree(a: IntModel, b: IntModel)
    requires
        a.width == b.width,
        a.value < pow2((a.width - 1) as nat),
        b.value < pow2((b.width - 1) as nat),
    ensures
        (signed_of(a.width, a.value) < signed_of(b.width, b.value)) == (a.value < b.value),
        (signed_of(a.width, a.value) <= signed_of(b.width, b.value)) == (a.value <= b.value),
{
}

/// A value whose sign bit is set is signed-less than every value whose sign
/// bit is clear, though unsigned-greater.
pub proof fn law_negative_below_nonnegative(a: IntModel, b: IntModel)
    requires
        valid(a),
        a.width == b.width,
        a.value >= pow2((a.width - 1) as nat),
        b.value < pow2((b.width - 1) as nat),
    ensures
        signed_of(a.width, a.value) < signed_of(b.width, b.value),
        a.value > b.value,
{
}

// ---------------------------------------------------------------------------
// Representation
// ---------------------------------------------------------------------------

/// The limbs of `n` limbs denote `v` modulo `bpow(n)`.
proof fn lemma_lv_limbs_of(v: nat, n: nat)
    ensures
        lv(limbs_of(v, n)) == v % bpow(n),
    decreases n,
{
    if n == 0 {
        assert(limbs_of(v, 0) =~= Seq::<u64>::empty());
        assert(bpow(0) == 1);
        lemma_small_mod(0, 1);
        lemma_mod_self_0(1);
        assert(v % 1 == 0) by {
            lemma_fundamental_div_mod(v as int, 1);
            lemma_mod_bound(v as int, 1);
        }
    } else {
        let k = (n - 1) as nat;
        let s = limbs_of(v, n);
        assert(s.drop_last() =~= limbs_of(v, k));
        lemma_lv_limbs_of(v, k);
        crate::integral::model::lemma_bpow_pos(k);
        lemma_breakdown(v as int, bpow(k) as int, base() as int);
        assert(bpow(n) == base() * bpow(k));
        lemma_mul_is_commutative(base() as int, bpow(k) as int);
        lemma_mul_is_commutative(bpow(k) as int, ((v / bpow(k)) % base()) as int);
    }
}

/// The bits of the most significant limb above the width are clear: the
/// limbs of a valid integer (those `get_limbs` returns) have their top limb
/// below `2^top_bits(width)`.
pub proof fn law_top_limb_clear(a: IntModel)
    requires
        valid(a),
    ensures
        (limbs_of(a.value, num_limbs_spec(a.width)).last() as nat) < pow2(top_bits(a.width)),
        lv(limbs_of(a.value, num_limbs_spec(a.width))) == a.value,
{
    let n = num_limbs_spec(a.width);
    crate::integral::model::lemma_num_limbs_bound(a.width);
    lemma_lv_limbs_of(a.value, n);
    lemma_small_mod(a.value, bpow(n));
    crate::integral::lemma_top_limb_bound(limbs_of(a.value, n), a.width);
}

/// Building an integer from the limbs of another of the same width gives
/// that integer back: `from_limbs(w, get_limbs(x))` is `x`.
pub proof fn law_from_limbs_of_limbs(a: IntModel)
    requires
        valid(a),
    ensures
        wrap(a.width, lv(limbs_of(a.value, num_limbs_spec(a.width))) as int) == a.value,
{
    law_top_limb_clear(a);
    lemma_small_mod(a.value, pow2(a.width));
}

// ---------------------------------------------------------------------------
// Signed values
// ---------------------------------------------------------------------------

/// The signed reading of a valid integer lies in `[-2^(w-1), 2^(w-1))`.
proof fn lemma_signed_range(w: nat, v: nat)
    requires
        w > 0,
        v < pow2(w),
    ensures
        -(pow2((w - 1) as nat) as int) <= signed_of(w, v) < pow2((w - 1) as nat),
        pow2(w) == 2 * pow2((w - 1) as nat),
{
    lemma_pow2_adds((w - 1) as nat, 1);
    lemma2_to64();
}

/// A number in `[-2^(w-1), 2^(w-1))` is the signed reading of its wrap.
proof fn lemma_signed_wrap(w: nat, x: int)
    requires
        w > 0,
        -(pow2((w - 1) as nat) as int) <= x < pow2((w - 1) as nat),
    ensures
        signed_of(w, wrap(w, x)) == x,
        wrap(w, x) < pow2(w),
{
    lemma_pow2_adds((w - 1) as nat, 1);
    lemma2_to64();
    let m = pow2(w) as int;
    lemma_pow2_pos(w);
    if x >= 0 {
        lemma_small_mod(x as nat, m as nat);
    } else {
        lemma_mod_add_multiples_vanish(x, m);
        lemma_small_mod((m + x) as nat, m as nat);
    }
}

/// The signed reading of a value is congruent to it.
proof fn lemma_signed_congruent(w: nat, x: int) -> (k: int)
    requires
        w > 0,
    ensures
        signed_of(w, wrap(w, x)) == x + pow2(w) * k,
{
    let m = pow2(w) as int;
    lemma_pow2_pos(w);
    lemma_fundamental_div_mod(x, m);
    let u = wrap(w, x) as int;
    assert(u == x + m * (-(x / m))) by (nonlinear_arith)
        requires
            x == m * (x / m) + x % m,
            u == x % m,
    ;
    if u >= pow2((w - 1) as nat) {
        assert(signed_of(w, wrap(w, x)) == x + m * (-(x / m) - 1)) by (nonlinear_arith)
            requires
                u == x + m * (-(x / m)),
                signed_of(w, wrap(w, x)) == u - m,
        ;
        -(x / m) - 1
    } else {
        assert(signed_of(w, wrap(w, x)) == x + m * (-(x / m)));
        -(x / m)
    }
}

/// Sign extension keeps the signed value, and truncating back to the
/// starting width gives the integer back.
pub proof fn law_sext_keeps_signed(a: IntModel, n: nat)
    requires
        valid(a),
        a.width <= n,
    ensures
        signed_of(n, sext_model(a, n).value) == signed_of(a.width, a.value),
        trunc_model(sext_model(a, n), a.width) == a,
        valid(sext_model(a, n)),
{
    let w = a.width;
    let s = signed_of(w, a.value);
    lemma_signed_range(w, a.value);
    if w < n {
        lemma_pow2_strictly_increases((w - 1) as nat, (n - 1) as nat);
    }
    lemma_signed_wrap(n, s);
    lemma_pow2_adds(w, (n - w) as nat);
    lemma_pow2_pos(w);
    lemma_pow2_pos((n - w) as nat);
    lemma_mod_mod(s, pow2(w) as int, pow2((n - w) as nat) as int);
    crate::integral::lemma_wrap_signed(w, a.value);
}

/// Truncated division of integers: the quotient times the divisor plus the
/// remainder is the dividend; the remainder is smaller than the divisor and
/// has the sign of the dividend; the quotient is no larger than the dividend,
/// and as large only for a divisor of magnitude one.
proof fn lemma_trunc_div_rem(x: int, y: int)
    requires
        y != 0,
    ensures
        trunc_div(x, y) * y + trunc_rem(x, y) == x,
        abs_int(trunc_rem(x, y)) < abs_int(y),
        trunc_rem(x, y) == 0 || (trunc_rem(x, y) < 0) == (x < 0),
        abs_int(trunc_div(x, y)) <= abs_int(x),
        abs_int(trunc_div(x, y)) == abs_int(x) && x != 0 ==> abs_int(y) == 1,
        trunc_div(x, y) > 0 ==> (x < 0) == (y < 0),
{
    let ax = abs_int(x);
    let ay = abs_int(y);
    let q = ax / ay;
    let r = ax % ay;
    lemma_fundamental_div_mod(ax, ay);
    lemma_mod_bound(ax, ay);
    lemma_div_pos_is_pos(ax, ay);
    lemma_div_is_ordered_by_denominator(ax, 1, ay);
    lemma_div_basics(ax);
    if ay >= 2 && ax > 0 {
        lemma_div_decreases(ax, ay);
    }
    if x >= 0 && y > 0 {
        assert(q * y + r == x) by (nonlinear_arith)
            requires
                ax == ay * q + r,
                ax == x,
                ay == y,
        ;
    } else if x >= 0 {
        assert(-q * y + r == x) by (nonlinear_arith)
            requires
                ax == ay * q + r,
                ax == x,
                ay == -y,
        ;
    } else if y > 0 {
        assert(-q * y - r == x) by (nonlinear_arith)
            requires
                ax == ay * q + r,
                ax == -x,
                ay == y,
        ;
    } else {
        assert(q * y - r == x) by (nonlinear_arith)
            requires
                ax == ay * q + r,
                ax == -x,
                ay == -y,
        ;
    }
}

/// Signed division rounds toward zero: the remainder is exact and has the
/// sign of the dividend and a smaller magnitude than the divisor; the
/// quotient is exact too, except for the most negative value divided by
/// `-1`, where it wraps; modulo `2^width`, quotient times divisor plus
/// remainder is always the dividend.
pub proof fn law_sdivrem(a: IntModel, b: IntModel)
    requires
        valid(a),
        valid(b),
        a.width == b.width,
        b.value != 0,
    ensures
        ({
            let w = a.width;
            let sa = signed_of(w, a.value);
            let sb = signed_of(w, b.value);
            let sq = signed_of(w, sdiv_model(a, b).value);
            let sr = signed_of(w, srem_model(a, b).value);
            &&& sr == trunc_rem(sa, sb)
            &&& abs_int(sr) < abs_int(sb)
            &&& (sr == 0 || (sr < 0) == (sa < 0))
            &&& (!(sa == -(pow2((w - 1) as nat) as int) && sb == -1) ==> sq == trunc_div(sa, sb)
                && sq * sb + sr == sa)
            &&& wrap(w, sq * sb + sr) == a.value
        }),
{
    let w = a.width;
    let sa = signed_of(w, a.value);
    let sb = signed_of(w, b.value);
    let h = pow2((w - 1) as nat) as int;
    let m = pow2(w) as int;
    lemma_signed_range(w, a.value);
    lemma_signed_range(w, b.value);
    assert(sb != 0);
    lemma_trunc_div_rem(sa, sb);
    let td = trunc_div(sa, sb);
    let tr = trunc_rem(sa, sb);
    lemma_signed_wrap(w, tr);
    let sq = signed_of(w, sdiv_model(a, b).value);
    let sr = signed_of(w, srem_model(a, b).value);
    assert(sr == tr);
    if !(sa == -h && sb == -1) {
        if td == h {
            assert(abs_int(td) == abs_int(sa));
            assert(sa == -h);
            assert(abs_int(sb) == 1);
        }
        lemma_signed_wrap(w, td);
    }
    let k = lemma_signed_congruent(w, td);
    assert(sq * sb + sr == sa + m * (k * sb)) by (nonlinear_arith)
        requires
            sq == td + m * k,
            td * sb + tr == sa,
            sr == tr,
    ;
    lemma_pow2_pos(w);
    lemma_mod_multiples_vanish(k * sb, sa, m);
    crate::integral::lemma_wrap_signed(w, a.value);
}

// ---------------------------------------------------------------------------
// Bitwise operations
// ---------------------------------------------------------------------------

/// The bits of limb `i` that lie within a width: all of them but in the most
/// significant limb.
pub open spec fn limb_mask(w: nat, i: nat) -> u64 {
    if i + 1 == num_limbs_spec(w) {
        mask_spec(top_bits(w))
    } else {
        u64::MAX
    }
}

/// Limb-wise sums denote the sum of the values.
proof fn lemma_lv_add_limbwise(a: Seq<u64>, b: Seq<u64>, c: Seq<u64>)
    requires
        a.len() == b.len(),
        b.len() == c.len(),
        forall|i: int| 0 <= i < a.len() ==> a[i] + b[i] == c[i],
    ensures
        lv(a) + lv(b) == lv(c),
    decreases a.len(),
{
    if a.len() > 0 {
        let k = (a.len() - 1) as nat;
        assert(a[k as int] + b[k as int] == c[k as int]);
        lemma_lv_add_limbwise(a.drop_last(), b.drop_last(), c.drop_last());
        lemma_mul_is_distributive_add_other_way(bpow(k) as int, a.last() as int, b.last() as int);
    }
}

/// `k` limbs of all ones denote `bpow(k) - 1`.
proof fn lemma_lv_ones(k: nat)
    ensures
        lv(Seq::new(k, |i: int| u64::MAX)) + 1 == bpow(k),
    decreases k,
{
    if k == 0 {
        assert(Seq::new(0, |i: int| u64::MAX) =~= Seq::<u64>::empty());
    } else {
        let j = (k - 1) as nat;
        assert(Seq::new(k, |i: int| u64::MAX).drop_last() =~= Seq::new(j, |i: int| u64::MAX));
        lemma_lv_ones(j);
        assert(bpow(k) == base() * bpow(j));
        lemma_mul_is_distributive_add_other_way(bpow(j) as int, 0xffff_ffff_ffff_ffff, 1);
    }
}

/// The limb masks of a width denote `2^width - 1`.
proof fn lemma_lv_masks(w: nat)
    requires
        w > 0,
    ensures
        lv(Seq::new(num_limbs_spec(w), |i: int| limb_mask(w, i as nat))) + 1 == pow2(w),
{
    let n = num_limbs_spec(w);
    let j = (n - 1) as nat;
    let t = top_bits(w);
    crate::integral::model::lemma_num_limbs_bound(w);
    let masks = Seq::new(n, |i: int| limb_mask(w, i as nat));
    assert(masks.drop_last() =~= Seq::new(j, |i: int| u64::MAX));
    lemma_lv_ones(j);
    let top = masks.last();
    assert(top == mask_spec(t));
    lemma_pow2_pos(t);
    if t < 64 {
        lemma_pow2_strictly_increases(t, 64);
        crate::integral::model::lemma_pow2_64();
        assert(top as nat + 1 == pow2(t));
    } else {
        crate::integral::model::lemma_pow2_64();
        assert(t == 64);
        assert(top as nat + 1 == pow2(t));
    }
    crate::integral::model::lemma_bpow_pow2(j);
    lemma_pow2_adds(64 * j, t);
    assert(64 * j + t == w);
    let p = bpow(j) as int;
    assert(lv(masks) == lv(masks.drop_last()) + top as nat * bpow(j));
    assert((p - 1) + (pow2(t) - 1) * p + 1 == pow2(t) * p) by (nonlinear_arith);
    lemma_mul_is_commutative(pow2(t) as int, p);
}

/// A limb within its mask: XOR with the mask is the difference, and the
/// mask distributes over AND and OR as complement does.
proof fn lemma_masked_limb(x: u64, y: u64, m: u64, t: nat)
    requires
        0 < t <= 64,
        m == mask_spec(t),
        (x as nat) < pow2(t),
        (y as nat) < pow2(t),
    ensures
        x + (x ^ m) == m,
        (x & y) ^ m == (x ^ m) | (y ^ m),
        (x | y) ^ m == (x ^ m) & (y ^ m),
        (x & y) as nat <= x as nat,
        (x ^ m) as nat <= m as nat,
{
    if t == 64 {
        assert(m == u64::MAX);
        assert(x + (x ^ m) == m && (x & y) ^ m == (x ^ m) | (y ^ m) && (x | y) ^ m == (x ^ m) & (y ^ m)
            && (x & y) <= x && (x ^ m) <= m) by (bit_vector)
            requires
                m == 0xffff_ffff_ffff_ffffu64,
        ;
    } else {
        lemma_u64_pow2_no_overflow(t);
        let tt = t as u64;
        lemma_u64_shl_is_mul(1, tt);
        let p = 1u64 << tt;
        assert(m + 1 == p);
        assert(x + (x ^ m) == m && (x & y) ^ m == (x ^ m) | (y ^ m) && (x | y) ^ m == (x ^ m) & (y ^ m)
            && (x & y) <= x && (x ^ m) <= m) by (bit_vector)
            requires
                tt < 64,
                p == 1u64 << tt,
                m + 1 == p,
                x < p,
                y < p,
        ;
    }
}

/// The limbs of a valid value lie within the limb masks.
proof fn lemma_digit_in_mask(w: nat, v: nat, i: nat)
    requires
        w > 0,
        v < pow2(w),
        i < num_limbs_spec(w),
    ensures
        (digit(v, i) as nat) < pow2(if i + 1 == num_limbs_spec(w) { top_bits(w) } else { 64 }),
        0 < top_bits(w) <= 64,
{
    law_top_limb_clear(int_of(w, v));
    crate::integral::model::lemma_num_limbs_bound(w);
    crate::integral::model::lemma_pow2_64();
    assert(top_bits(w) > 0);
}

/// The complement of a valid value, limb by limb: each limb XOR its mask.
proof fn lemma_not_limbwise(w: nat, v: nat)
    requires
        w > 0,
        v < pow2(w),
    ensures
        lv(Seq::new(num_limbs_spec(w), |i: int| digit(v, i as nat) ^ limb_mask(w, i as nat))) == pow2(w) - 1 - v,
{
    let n = num_limbs_spec(w);
    let s = limbs_of(v, n);
    let masks = Seq::new(n, |i: int| limb_mask(w, i as nat));
    let xs = Seq::new(n, |i: int| digit(v, i as nat) ^ limb_mask(w, i as nat));
    assert forall|i: int| 0 <= i < n implies s[i] + xs[i] == masks[i] by {
        lemma_digit_in_mask(w, v, i as nat);
        let t: nat = if i + 1 == n { top_bits(w) } else { 64 };
        if i + 1 != n {
            assert(mask_spec(64) == u64::MAX);
        }
        lemma_masked_limb(digit(v, i as nat), digit(v, i as nat), limb_mask(w, i as nat), t);
    }
    lemma_lv_add_limbwise(s, xs, masks);
    law_top_limb_clear(int_of(w, v));
    lemma_lv_masks(w);
}

/// The complement flips exactly the bits within the width, limb by limb.
pub proof fn law_not_limbwise(a: IntModel)
    requires
        valid(a),
    ensures
        forall|i: nat|
            i < num_limbs_spec(a.width) ==> #[trigger] digit(not_model(a).value, i) == digit(a.value, i)
                ^ limb_mask(a.width, i),
{
    let n = num_limbs_spec(a.width);
    let xs = Seq::new(n, |i: int| digit(a.value, i as nat) ^ limb_mask(a.width, i as nat));
    lemma_not_limbwise(a.width, a.value);
    assert forall|i: nat| i < n implies #[trigger] digit(not_model(a).value, i) == digit(a.value, i)
        ^ limb_mask(a.width, i) by {
        crate::integral::model::lemma_lv_digit(xs, i as int);
    }
}

/// A sequence of `num_limbs(w)` limbs whose top limb lies within its mask
/// denotes a valid value of width `w`, whose limbs it is.
proof fn lemma_limbs_valid(w: nat, s: Seq<u64>)
    requires
        w > 0,
        s.len() == num_limbs_spec(w),
        (s.last() as nat) < pow2(top_bits(w)),
    ensures
        lv(s) < pow2(w),
        forall|i: nat| i < s.len() ==> #[trigger] digit(lv(s), i) == s[i as int],
{
    crate::integral::lemma_top_limb_bound(s, w);
    crate::integral::lemma_digits(s);
}

/// AND, OR and XOR are commutative.
pub proof fn law_bitwise_commutative(a: IntModel, b: IntModel)
    requires
        a.width == b.width,
    ensures
        and_model(a, b) == and_model(b, a),
        or_model(a, b) == or_model(b, a),
        xor_model(a, b) == xor_model(b, a),
{
    let n = num_limbs_spec(a.width);
    assert forall|i: int| 0 <= i < n implies #[trigger] (digit(a.value, i as nat) & digit(b.value, i as nat))
        == digit(b.value, i as nat) & digit(a.value, i as nat) by {
        let x = digit(a.value, i as nat);
        let y = digit(b.value, i as nat);
        assert(x & y == y & x) by (bit_vector);
    }
    assert forall|i: int| 0 <= i < n implies #[trigger] (digit(a.value, i as nat) | digit(b.value, i as nat))
        == digit(b.value, i as nat) | digit(a.value, i as nat) by {
        let x = digit(a.value, i as nat);
        let y = digit(b.value, i as nat);
        assert(x | y == y | x) by (bit_vector);
    }
    assert forall|i: int| 0 <= i < n implies #[trigger] (digit(a.value, i as nat) ^ digit(b.value, i as nat))
        == digit(b.value, i as nat) ^ digit(a.value, i as nat) by {
        let x = digit(a.value, i as nat);
        let y = digit(b.value, i as nat);
        assert(x ^ y == y ^ x) by (bit_vector);
    }
    assert(Seq::new(n, |i: int| digit(a.value, i as nat) & digit(b.value, i as nat)) =~= Seq::new(
        n,
        |i: int| digit(b.value, i as nat) & digit(a.value, i as nat),
    ));
    assert(Seq::new(n, |i: int| digit(a.value, i as nat) | digit(b.value, i as nat)) =~= Seq::new(
        n,
        |i: int| digit(b.value, i as nat) | digit(a.value, i as nat),
    ));
    assert(Seq::new(n, |i: int| digit(a.value, i as nat) ^ digit(b.value, i as nat)) =~= Seq::new(
        n,
        |i: int| digit(b.value, i as nat) ^ digit(a.value, i as nat),
    ));
}

/// A value ANDed or ORed with itself is itself; XORed with itself it is
/// zero.
pub proof fn law_bitwise_self(a: IntModel)
    requires
        valid(a),
    ensures
        and_model(a, a) == a,
        or_model(a, a) == a,
        xor_model(a, a) == int_of(a.width, 0),
{
    let n = num_limbs_spec(a.width);
    assert forall|i: int| 0 <= i < n implies #[trigger] (digit(a.value, i as nat) & digit(a.value, i as nat))
        == digit(a.value, i as nat) by {
        let x = digit(a.value, i as nat);
        assert(x & x == x) by (bit_vector);
    }
    assert forall|i: int| 0 <= i < n implies #[trigger] (digit(a.value, i as nat) | digit(a.value, i as nat))
        == digit(a.value, i as nat) by {
        let x = digit(a.value, i as nat);
        assert(x | x == x) by (bit_vector);
    }
    assert forall|i: int| 0 <= i < n implies #[trigger] (digit(a.value, i as nat) ^ digit(a.value, i as nat))
        == 0 by {
        let x = digit(a.value, i as nat);
        assert(x ^ x == 0) by (bit_vector);
    }
    law_top_limb_clear(a);
    assert(Seq::new(n, |i: int| digit(a.value, i as nat) & digit(a.value, i as nat)) =~= limbs_of(a.value, n));
    assert(Seq::new(n, |i: int| digit(a.value, i as nat) | digit(a.value, i as nat)) =~= limbs_of(a.value, n));
    assert(Seq::new(n, |i: int| digit(a.value, i as nat) ^ digit(a.value, i as nat)) =~= crate::integral::model::zeros(n));
    crate::integral::model::lemma_lv_zeros(n);
}

/// De Morgan's laws: the complement of an AND is the OR of the complements,
/// and the complement of an OR is the AND of the complements.
pub proof fn law_de_morgan(a: IntModel, b: IntModel)
    requires
        valid(a),
        valid(b),
        a.width == b.width,
    ensures
        not_model(and_model(a, b)) == or_model(not_model(a), not_model(b)),
        not_model(or_model(a, b)) == and_model(not_model(a), not_model(b)),
{
    let w = a.width;
    let n = num_limbs_spec(w);
    let sand = Seq::new(n, |i: int| digit(a.value, i as nat) & digit(b.value, i as nat));
    let sor = Seq::new(n, |i: int| digit(a.value, i as nat) | digit(b.value, i as nat));
    crate::integral::model::lemma_num_limbs_bound(w);
    // Each limb of the AND and the OR stays within its mask.
    assert forall|i: int| #![trigger sand[i]] #![trigger sor[i]] 0 <= i < n implies {
        let t: nat = if i + 1 == n { top_bits(w) } else { 64 };
        &&& (sand[i] as nat) < pow2(t)
        &&& (sor[i] as nat) < pow2(t)
        &&& (sand[i] ^ limb_mask(w, i as nat)) == (digit(a.value, i as nat) ^ limb_mask(w, i as nat)) | (
        digit(b.value, i as nat) ^ limb_mask(w, i as nat))
        &&& (sor[i] ^ limb_mask(w, i as nat)) == (digit(a.value, i as nat) ^ limb_mask(w, i as nat)) & (
        digit(b.value, i as nat) ^ limb_mask(w, i as nat))
    } by {
        let t: nat = if i + 1 == n { top_bits(w) } else { 64 };
        let x = digit(a.value, i as nat);
        let y = digit(b.value, i as nat);
        lemma_digit_in_mask(w, a.value, i as nat);
        lemma_digit_in_mask(w, b.value, i as nat);
        if i + 1 != n {
            assert(mask_spec(64) == u64::MAX);
        }
        lemma_masked_limb(x, y, limb_mask(w, i as nat), t);
        let m = limb_mask(w, i as nat);
        lemma_pow2_pos(t);
        if t < 64 {
            lemma_u64_pow2_no_overflow(t);
            let tt = t as u64;
            lemma_u64_shl_is_mul(1, tt);
            let p = 1u64 << tt;
            assert((x | y) < p) by (bit_vector)
                requires
                    x < p,
                    y < p,
                    p == 1u64 << tt,
                    tt < 64,
            ;
        } else {
            crate::integral::model::lemma_pow2_64();
        }
    }
    // The AND and the OR are valid, and their limbs are `sand` and `sor`.
    assert(sand.last() == sand[n - 1]);
    assert(sor.last() == sor[n - 1]);
    lemma_limbs_valid(w, sand);
    lemma_limbs_valid(w, sor);
    let va = and_model(a, b).value;
    let vo = or_model(a, b).value;
    assert(va == lv(sand));
    assert(vo == lv(sor));
    lemma_not_limbwise(w, va);
    lemma_not_limbwise(w, vo);
    law_not_limbwise(a);
    law_not_limbwise(b);
    let na = not_model(a).value;
    let nb = not_model(b).value;
    assert forall|i: int| 0 <= i < n implies #[trigger] (digit(va, i as nat) ^ limb_mask(w, i as nat)) == (
    digit(na, i as nat) | digit(nb, i as nat)) by {
        assert(digit(va, i as nat) == sand[i]);
        assert(digit(na, i as nat) == digit(a.value, i as nat) ^ limb_mask(w, i as nat));
        assert(digit(nb, i as nat) == digit(b.value, i as nat) ^ limb_mask(w, i as nat));
    }
    assert forall|i: int| 0 <= i < n implies #[trigger] (digit(vo, i as nat) ^ limb_mask(w, i as nat)) == (
    digit(na, i as nat) & digit(nb, i as nat)) by {
        assert(digit(vo, i as nat) == sor[i]);
        assert(digit(na, i as nat) == digit(a.value, i as nat) ^ limb_mask(w, i as nat));
        assert(digit(nb, i as nat) == digit(b.value, i as nat) ^ limb_mask(w, i as nat));
    }
    assert(Seq::new(n, |i: int| digit(va, i as nat) ^ limb_mask(w, i as nat)) =~= Seq::new(
        n,
        |i: int| digit(na, i as nat) | digit(nb, i as nat),
    ));
    assert(Seq::new(n, |i: int| digit(vo, i as nat) ^ limb_mask(w, i as nat)) =~= Seq::new(
        n,
        |i: int| digit(na, i as nat) & digit(nb, i as nat),
    ));
}

/// The arithmetic right shift divides the signed value by `2^k`, rounding
/// toward negative infinity, and so keeps its sign bit.
pub proof fn law_ashr_keeps_sign(a: IntModel, k: nat)
    requires
        valid(a),
    ensures
        signed_of(a.width, ashr_model(a, k).value) == signed_of(a.width, a.value) / (pow2(k) as int),
        (signed_of(a.width, ashr_model(a, k).value) < 0) == (signed_of(a.width, a.value) < 0),
{
    let w = a.width;
    let s = signed_of(w, a.value);
    let d = pow2(k) as int;
    lemma_pow2_pos(k);
    lemma_signed_range(w, a.value);
    let q = s / d;
    let r = s % d;
    lemma_fundamental_div_mod(s, d);
    lemma_mod_bound(s, d);
    if s >= 0 {
        lemma_div_pos_is_pos(s, d);
        lemma_div_is_ordered_by_denominator(s, 1, d);
        lemma_div_basics(s);
    } else {
        assert(q < 0 && q >= s) by (nonlinear_arith)
            requires
                s == d * q + r,
                0 <= r < d,
                s < 0,
                d >= 1,
        ;
    }
    lemma_signed_wrap(w, q);
}

/// An integer of at least 128 bits made from a `u128` gives it back.
pub proof fn law_new_u128_round_trip(w: nat, v: u128)
    requires
        128 <= w,
    ensures
        wrap(w, v as int) % pow2(128) == v,
{
    lemma_pow2_pos(128);
    lemma2_to64();
    lemma2_to64_rest();
    assert(pow2(128) == 0x1_0000_0000_0000_0000_0000_0000_0000_0000nat) by {
        lemma_pow2_adds(64, 64);
    }
    if w > 128 {
        lemma_pow2_strictly_increases(128, w);
    }
    lemma_small_mod(v as nat, pow2(w));
    lemma_small_mod(v as nat, pow2(128));
}

// ---------------------------------------------------------------------------
// Reading back the text of a value
// ---------------------------------------------------------------------------

/// Every byte is a hexadecimal digit.
pub open spec fn is_hex_bytes(s: Seq<u8>) -> bool {
    forall|i: int| 0 <= i < s.len() ==> #[trigger] hex_value(s[i]) is Some
}

/// The value of hexadecimal digits, most significant first.
pub open spec fn hex_fold(s: Seq<u8>) -> nat
    decreases s.len(),
{
    if s.len() == 0 {
        0
    } else {
        16 * hex_fold(s.drop_last()) + match hex_value(s.last()) {
            Some(d) => d,
            None => 0,
        }
    }
}

proof fn lemma_hex_byte_value(d: nat)
    requires
        d < 16,
    ensures
        hex_value(hex_byte(d)) == Some(d),
        hex_byte(d) != 95,
        !is_white_space(hex_byte(d) as char),
        hex_byte(d) < 128,
{
}

proof fn lemma_hex_fixed_fold(x: nat, k: nat)
    ensures
        is_hex_bytes(hex_fixed(x, k)),
        hex_fixed(x, k).len() == k,
        hex_fold(hex_fixed(x, k)) == x % pow2(4 * k),
    decreases k,
{
    if k == 0 {
        lemma2_to64();
        lemma_small_mod(0, 1);
        assert(x % 1 == 0) by {
            lemma_fundamental_div_mod(x as int, 1);
            lemma_mod_bound(x as int, 1);
        }
    } else {
        let j = (k - 1) as nat;
        lemma_hex_fixed_fold(x / 16, j);
        lemma_mod_bound(x as int, 16);
        lemma_hex_byte_value(x % 16);
        let s = hex_fixed(x, k);
        assert(s.drop_last() =~= hex_fixed(x / 16, j));
        assert forall|i: int| 0 <= i < s.len() implies #[trigger] hex_value(s[i]) is Some by {
            if i < j {
                assert(s[i] == hex_fixed(x / 16, j)[i]);
            }
        }
        lemma_pow2_pos(4 * j);
        lemma_breakdown(x as int, 16, pow2(4 * j) as int);
        lemma_pow2_adds(4, 4 * j);
        lemma2_to64();
        assert(4 + 4 * j == 4 * k);
    }
}

proof fn lemma_hex_min_fold(x: nat)
    ensures
        is_hex_bytes(hex_min(x)),
        hex_min(x).len() > 0,
        hex_fold(hex_min(x)) == x,
    decreases x,
{
    lemma_mod_bound(x as int, 16);
    lemma_hex_byte_value(x % 16);
    if x < 16 {
        lemma_small_mod(x, 16);
        let s = hex_min(x);
        assert(s == seq![hex_byte(x)]);
        assert(s.drop_last() =~= Seq::<u8>::empty());
        assert(hex_fold(s.drop_last()) == 0);
        assert(s.last() == hex_byte(x));
        assert(hex_fold(s) == 16 * hex_fold(s.drop_last()) + x);
    } else {
        lemma_hex_min_fold(x / 16);
        let s = hex_min(x);
        assert(s == hex_min(x / 16).push(hex_byte(x % 16)));
        assert(s.drop_last() =~= hex_min(x / 16));
        assert(s.last() == hex_byte(x % 16));
        assert(hex_fold(s) == 16 * hex_fold(hex_min(x / 16)) + x % 16);
        assert forall|i: int| 0 <= i < s.len() implies #[trigger] hex_value(s[i]) is Some by {
            if i < s.len() - 1 {
                assert(s[i] == hex_min(x / 16)[i]);
            }
        }
        lemma_fundamental_div_mod(x as int, 16);
    }
}

proof fn lemma_hex_min_len(x: nat, k: nat)
    requires
        k >= 1,
        x < pow2(4 * k),
    ensures
        hex_min(x).len() <= k,
    decreases x,
{
    if x >= 16 {
        lemma_pow2_adds(4, 4 * (k - 1) as nat);
        lemma2_to64();
        if k == 1 {
            assert(false);
        }
        assert(4 + 4 * (k - 1) as nat == 4 * k);
        lemma_pow2_pos(4 * (k - 1) as nat);
        lemma_div_strictly_bounded(x as int, 16, pow2(4 * (k - 1) as nat) as int);
        lemma_hex_min_len(x / 16, (k - 1) as nat);
    }
}

proof fn lemma_div_strictly_bounded(x: int, d: int, b: int)
    requires
        0 <= x < d * b,
        d > 0,
        b > 0,
    ensures
        x / d < b,
{
    lemma_fundamental_div_mod(x, d);
    lemma_mod_bound(x, d);
    if x / d >= b {
        assert(d * (x / d) >= d * b) by (nonlinear_arith)
            requires
                x / d >= b,
                d > 0,
        ;
    }
}

proof fn lemma_hex_fold_concat(a: Seq<u8>, b: Seq<u8>)
    ensures
        hex_fold(a + b) == hex_fold(a) * pow2(4 * b.len()) + hex_fold(b),
    decreases b.len(),
{
    if b.len() == 0 {
        assert(a + b =~= a);
        lemma2_to64();
        assert(hex_fold(b) == 0);
        lemma_mul_basics(hex_fold(a) as int);
    } else {
        let j = (b.len() - 1) as nat;
        assert((a + b).drop_last() =~= a + b.drop_last());
        assert((a + b).last() == b.last());
        lemma_hex_fold_concat(a, b.drop_last());
        let dv = match hex_value(b.last()) {
            Some(d) => d,
            None => 0,
        };
        assert(hex_fold(a + b) == 16 * hex_fold(a + b.drop_last()) + dv);
        assert(hex_fold(b) == 16 * hex_fold(b.drop_last()) + dv);
        lemma_pow2_adds(4, 4 * j);
        lemma2_to64();
        assert(4 + 4 * j == 4 * b.len());
        let f = hex_fold(a) as int;
        let p = pow2(4 * j) as int;
        assert(16 * (f * p) == f * (16 * p)) by (nonlinear_arith);
    }
}

proof fn lemma_hex_concat_bytes(a: Seq<u8>, b: Seq<u8>)
    requires
        is_hex_bytes(a),
        is_hex_bytes(b),
    ensures
        is_hex_bytes(a + b),
{
    assert forall|i: int| 0 <= i < (a + b).len() implies #[trigger] hex_value((a + b)[i]) is Some by {
        if i < a.len() {
            assert((a + b)[i] == a[i]);
        } else {
            assert((a + b)[i] == b[i - a.len()]);
        }
    }
}

proof fn lemma_lower_hex_fold(t: Seq<u64>)
    ensures
        is_hex_bytes(lower_hex(t, Seq::empty())),
        lower_hex(t, Seq::empty()).len() == 16 * t.len(),
        hex_fold(lower_hex(t, Seq::empty())) == lv(t),
    decreases t.len(),
{
    if t.len() > 0 {
        let j = (t.len() - 1) as nat;
        let x = t.last() as nat;
        let head = hex_fixed(x, 16);
        let rest = lower_hex(t.drop_last(), Seq::empty());
        assert(lower_hex(t, Seq::empty()) =~= head + rest);
        lemma_hex_fixed_fold(x, 16);
        lemma_lower_hex_fold(t.drop_last());
        lemma_hex_concat_bytes(head, rest);
        lemma_hex_fold_concat(head, rest);
        crate::integral::model::lemma_pow2_64();
        lemma_small_mod(x, pow2(64));
        crate::integral::model::lemma_bpow_pow2(j);
        assert(4 * (16 * j) == 64 * j);
        lemma_mul_is_commutative(x as int, bpow(j) as int);
    } else {
        assert(lower_hex(t, Seq::empty()) =~= Seq::<u8>::empty());
    }
}

proof fn lemma_hex_prefix_fold(s: Seq<u8>, i: nat)
    requires
        is_hex_bytes(s),
        i <= s.len(),
    ensures
        hex_prefix(s, 0, i) == Ok::<nat, ParseError>(hex_fold(s.take(i as int))),
    decreases i,
{
    if i > 0 {
        lemma_hex_prefix_fold(s, (i - 1) as nat);
        assert(s.take(i as int).drop_last() =~= s.take(i - 1));
        assert(s.take(i as int).last() == s[i - 1]);
        assert(hex_value(s[i - 1]) is Some);
    } else {
        assert(s.take(0) =~= Seq::<u8>::empty());
    }
}

pub(crate) proof fn lemma_strip_no_underscore(s: Seq<u8>)
    requires
        forall|i: int| 0 <= i < s.len() ==> s[i] != 95,
    ensures
        strip_underscores_spec(s) == s,
    decreases s.len(),
{
    if s.len() > 0 {
        lemma_strip_no_underscore(s.drop_last());
        assert(s.drop_last().push(s.last()) =~= s);
    }
}

/// The text of a value: it needs no trimming, has no sign, its prefix `0x`
/// selects hexadecimal, and its digits denote the value.
proof fn lemma_display_text(a: IntModel, radix: nat)
    requires
        valid(a),
    ensures
        ({
            let chars = ascii_chars(display_bytes(limbs_of(a.value, num_limbs_spec(a.width))));
            let digits = chars.skip(2);
            &&& trim_chars(chars) == chars
            &&& chars.len() > 0
            &&& sign_split(chars) == (false, chars)
            &&& chars.len() > 2
            &&& prefix_split(chars, radix) == (16nat, digits)
            &&& digits_value(a.width, strip_underscores_spec(encode_utf8(digits)), 16) == Ok::<
                nat,
                ParseError,
            >(a.value)
        }),
{
    let w = a.width;
    let n = num_limbs_spec(w);
    let t = top_bits(w);
    let l = limbs_of(a.value, n);
    law_top_limb_clear(a);
    crate::integral::model::lemma_num_limbs_bound(w);
    let top = l.last() as nat;
    let low = l.drop_last();
    let hm = hex_min(top);
    let lo = lower_hex(low, Seq::empty());
    let h = hex_body(l, Seq::empty());
    assert(h == hm + lo);
    lemma_hex_min_fold(top);
    lemma_lower_hex_fold(low);
    lemma_hex_concat_bytes(hm, lo);
    lemma_hex_fold_concat(hm, lo);
    // the digits denote the value
    crate::integral::model::lemma_bpow_pow2(low.len());
    assert(4 * (16 * low.len()) == 64 * low.len());
    assert(hex_fold(h) == a.value) by {
        assert(lv(l) == lv(low) + top * bpow(low.len()));
        lemma_mul_is_commutative(top as int, bpow(low.len()) as int);
    }
    // there are no more digits than the width needs
    let c = (w + 3) / 4;
    let kt = (t + 3) / 4;
    assert(t + 64 * (n - 1) == w);
    assert(kt >= 1 && 4 * kt >= t);
    if t < 4 * kt {
        lemma_pow2_strictly_increases(t, 4 * kt);
    }
    lemma_hex_min_len(top, kt);
    assert(kt + 16 * (n - 1) == c);
    assert(h.len() <= c);
    assert(hex_skip(w, h.len()) == 0);
    // the text around the digits
    let d = display_bytes(l);
    let chars = ascii_chars(d);
    assert(d == seq![48u8, 120u8] + h);
    assert(chars.len() == h.len() + 2);
    assert(chars[0] == '0');
    assert(chars[1] == 'x');
    let last = h[h.len() - 1];
    lemma_hex_byte_value(0);
    assert(hex_value(last) is Some);
    assert(chars.last() == last as char);
    assert(!is_white_space(chars[0]));
    assert(!is_white_space(chars.last()));
    assert(trim_start_chars(chars) == chars);
    assert(trim_end_chars(chars) == chars);
    assert(trim_chars(chars) == chars);
    assert(sign_split(chars) == (false, chars));
    let digits = chars.skip(2);
    assert(digits =~= ascii_chars(h));
    assert(prefix_split(chars, radix) == (16nat, digits));
    // the digits as bytes
    assert forall|i: int| 0 <= i < digits.len() implies '\0' <= #[trigger] digits[i] <= '\u{7f}' by {
        assert(hex_value(h[i]) is Some);
        assert(digits[i] == h[i] as char);
    }
    assert(vstd::utf8::is_ascii_chars(digits));
    vstd::utf8::is_ascii_chars_encode_utf8(digits);
    assert(encode_utf8(digits) =~= h);
    assert forall|i: int| 0 <= i < h.len() implies h[i] != 95 by {
        assert(hex_value(h[i]) is Some);
    }
    lemma_strip_no_underscore(h);
    lemma_hex_prefix_fold(h, h.len());
    assert(h.take(h.len() as int) =~= h);
    assert(!(exists|j: int| 0 <= j < 0 && h[j] != 48));
    assert(hex_digits(w, h) == Ok::<nat, ParseError>(a.value));
    assert(digits_value(w, strip_underscores_spec(encode_utf8(digits)), 16) == Ok::<nat, ParseError>(a.value));
}

/// What `display_string` writes, `from_str_radix` reads back, in any radix:
/// the `0x` prefix selects hexadecimal.
pub proof fn law_display_then_from_str_radix(a: IntModel, radix: nat)
    requires
        valid(a),
        2 <= radix <= 36,
    ensures
        radix_text_value(
            a.width,
            ascii_chars(display_bytes(limbs_of(a.value, num_limbs_spec(a.width)))),
            radix,
        ) == Ok::<nat, ParseError>(a.value),
{
    lemma_display_text(a, radix);
}

/// What `display_string` writes, `parse` reads back.
pub proof fn law_display_then_parse(a: IntModel)
    requires
        valid(a),
    ensures
        text_value(a.width, ascii_chars(display_bytes(limbs_of(a.value, num_limbs_spec(a.width)))))
            == Ok::<nat, ParseError>(a.value),
{
    lemma_display_text(a, 10);
}

} // verus!
