//! The mathematical model of limb vectors: a sequence of 64-bit limbs in
//! little-endian order denotes a natural number.
use vstd::arithmetic::div_mod::*;
use vstd::arithmetic::mul::*;
use vstd::arithmetic::power2::*;
use vstd::prelude::*;

verus! {

/// The radix of one limb, 2^64.
pub open spec fn base() -> nat {
    0x1_0000_0000_0000_0000nat
}

/// `base()` raised to the power `k`.
pub open spec fn bpow(k: nat) -> nat
    decreases k,
{
    if k == 0 {
        1
    } else {
        base() * bpow((k - 1) as nat)
    }
}

/// The natural number denoted by little-endian limbs.
pub open spec fn lv(s: Seq<u64>) -> nat
    decreases s.len(),
{
    if s.len() == 0 {
        0
    } else {
        lv(s.drop_last()) + s.last() as nat * bpow((s.len() - 1) as nat)
    }
}

/// Limb `i` of the base-2^64 expansion of `v`.
pub open spec fn digit(v: nat, i: nat) -> u64 {
    ((v / bpow(i)) % base()) as u64
}

/// Number of 64-bit limbs needed for `width` bits.
pub open spec fn num_limbs_spec(width: nat) -> nat {
    (width + 63) / 64
}

/// The limbs of `v` in a vector of `n` limbs.
pub open spec fn limbs_of(v: nat, n: nat) -> Seq<u64> {
    Seq::new(n, |i: int| digit(v, i as nat))
}

pub proof fn lemma_bpow_pos(k: nat)
    ensures
        bpow(k) > 0,
    decreases k,
{
    if k > 0 {
        lemma_bpow_pos((k - 1) as nat);
        lemma_mul_strictly_positive(base() as int, bpow((k - 1) as nat) as int);
    }
}

pub proof fn lemma_bpow_add(a: nat, b: nat)
    ensures
        bpow(a + b) == bpow(a) * bpow(b),
    decreases b,
{
    if b == 0 {
        assert(bpow(a + 0) == bpow(a));
        assert(bpow(0) == 1);
        assert(bpow(a) * 1 == bpow(a));
    } else {
        let c = (b - 1) as nat;
        lemma_bpow_add(a, c);
        assert(bpow(a + b) == base() * bpow((a + b - 1) as nat));
        assert((a + b - 1) as nat == a + c);
        assert(bpow(b) == base() * bpow(c));
        let x = bpow(a);
        let y = bpow(c);
        assert(base() * (x * y) == x * (base() * y)) by (nonlinear_arith);
    }
}

pub proof fn lemma_bpow_mono(a: nat, b: nat)
    requires
        a <= b,
    ensures
        bpow(a) <= bpow(b),
{
    lemma_bpow_add(a, (b - a) as nat);
    lemma_bpow_pos((b - a) as nat);
    lemma_bpow_pos(a);
    lemma_mul_increases(bpow((b - a) as nat) as int, bpow(a) as int);
    lemma_mul_is_commutative(bpow((b - a) as nat) as int, bpow(a) as int);
}

pub proof fn lemma_pow2_64()
    ensures
        pow2(64) == base(),
{
    lemma2_to64();
}

pub proof fn lemma_bpow_pow2(k: nat)
    ensures
        bpow(k) == pow2(64 * k),
    decreases k,
{
    if k == 0 {
        lemma2_to64();
    } else {
        lemma_bpow_pow2((k - 1) as nat);
        lemma_pow2_adds(64, 64 * (k - 1) as nat);
        lemma_pow2_64();
        assert(64 + 64 * (k - 1) as nat == 64 * k);
    }
}

pub proof fn lemma_lv_bound(s: Seq<u64>)
    ensures
        lv(s) < bpow(s.len()),
    decreases s.len(),
{
    if s.len() > 0 {
        let n = (s.len() - 1) as nat;
        lemma_lv_bound(s.drop_last());
        lemma_bpow_pos(n);
        let x = s.last() as nat;
        assert(x + 1 <= base());
        lemma_mul_inequality((x + 1) as int, base() as int, bpow(n) as int);
        lemma_mul_is_distributive_add_other_way(bpow(n) as int, x as int, 1);
        lemma_mul_is_commutative(base() as int, bpow(n) as int);
    }
}

pub proof fn lemma_lv_concat(a: Seq<u64>, b: Seq<u64>)
    ensures
        lv(a + b) == lv(a) + bpow(a.len()) * lv(b),
    decreases b.len(),
{
    if b.len() == 0 {
        assert(a + b =~= a);
    } else {
        let bd = b.drop_last();
        assert((a + b).drop_last() =~= a + bd);
        assert((a + b).last() == b.last());
        lemma_lv_concat(a, bd);
        let n = (b.len() - 1) as nat;
        assert((a + b).len() - 1 == a.len() + n);
        lemma_bpow_add(a.len(), n);
        let x = b.last() as nat;
        let p = bpow(a.len());
        let q = bpow(n);
        assert(lv(b) == lv(bd) + x * q);
        assert(lv(a + b) == lv(a + bd) + x * bpow(a.len() + n));
        assert(x * (p * q) == p * (x * q)) by (nonlinear_arith);
        assert(p * lv(bd) + p * (x * q) == p * (lv(bd) + x * q)) by (nonlinear_arith);
    }
}

pub proof fn lemma_lv_push(s: Seq<u64>, x: u64)
    ensures
        lv(s.push(x)) == lv(s) + x as nat * bpow(s.len()),
{
    assert(s.push(x).drop_last() =~= s);
}

pub proof fn lemma_lv_split(s: Seq<u64>, k: int)
    requires
        0 <= k <= s.len(),
    ensures
        lv(s) == lv(s.take(k)) + bpow(k as nat) * lv(s.skip(k)),
{
    assert(s =~= s.take(k) + s.skip(k));
    lemma_lv_concat(s.take(k), s.skip(k));
}

pub proof fn lemma_lv_take_next(s: Seq<u64>, i: int)
    requires
        0 <= i < s.len(),
    ensures
        lv(s.take(i + 1)) == lv(s.take(i)) + s[i] as nat * bpow(i as nat),
{
    assert(s.take(i + 1).drop_last() =~= s.take(i));
}

pub proof fn lemma_lv_skip_prev(s: Seq<u64>, i: int)
    requires
        0 <= i < s.len(),
    ensures
        lv(s.skip(i)) == s[i] as nat + base() * lv(s.skip(i + 1)),
{
    let t = s.skip(i);
    assert(t =~= seq![s[i]] + s.skip(i + 1));
    lemma_lv_concat(seq![s[i]], s.skip(i + 1));
    lemma_lv_single(s[i]);
    assert(bpow(1) == base() * bpow(0));
}

pub proof fn lemma_lv_single(x: u64)
    ensures
        lv(seq![x]) == x as nat,
{
    assert(seq![x].drop_last() =~= Seq::<u64>::empty());
    assert(seq![x].last() == x);
    assert(lv(Seq::<u64>::empty()) == 0);
    assert(bpow(0) == 1);
    assert(lv(seq![x]) == lv(Seq::<u64>::empty()) + x as nat * bpow(0));
}

pub proof fn lemma_lv_empty()
    ensures
        lv(Seq::<u64>::empty()) == 0,
{
}

pub proof fn lemma_lv_update(s: Seq<u64>, i: int, x: u64)
    requires
        0 <= i < s.len(),
    ensures
        lv(s.update(i, x)) + s[i] as nat * bpow(i as nat) == lv(s) + x as nat * bpow(i as nat),
{
    let t = s.update(i, x);
    lemma_lv_split(s, i);
    lemma_lv_split(t, i);
    assert(t.take(i) =~= s.take(i));
    lemma_lv_skip_prev(s, i);
    lemma_lv_skip_prev(t, i);
    assert(t.skip(i + 1) =~= s.skip(i + 1));
    let p = bpow(i as nat) as int;
    let r = base() * lv(s.skip(i + 1));
    lemma_mul_is_distributive_add(p, s[i] as int, r as int);
    lemma_mul_is_distributive_add(p, x as int, r as int);
    lemma_mul_is_commutative(p, s[i] as int);
    lemma_mul_is_commutative(p, x as int);
}

/// A sequence of `n` zero limbs.
pub open spec fn zeros(n: nat) -> Seq<u64> {
    Seq::new(n, |i: int| 0u64)
}

pub proof fn lemma_lv_zeros(n: nat)
    ensures
        lv(zeros(n)) == 0,
    decreases n,
{
    if n > 0 {
        assert(zeros(n).drop_last() =~= zeros((n - 1) as nat));
        lemma_lv_zeros((n - 1) as nat);
    }
}

/// All limbs from index `k` on are zero.
pub open spec fn zero_from(s: Seq<u64>, k: int) -> bool {
    forall|j: int| k <= j < s.len() ==> s[j] == 0
}

pub proof fn lemma_lv_zero_from(s: Seq<u64>, k: int)
    requires
        0 <= k <= s.len(),
        zero_from(s, k),
    ensures
        lv(s) == lv(s.take(k)),
{
    lemma_lv_split(s, k);
    assert(s.skip(k) =~= zeros((s.len() - k) as nat));
    lemma_lv_zeros((s.len() - k) as nat);
}

/// A value below `bpow(k)` has only zero limbs from index `k` on.
pub proof fn lemma_lv_small_zero_from(s: Seq<u64>, k: int)
    requires
        0 <= k <= s.len(),
        lv(s) < bpow(k as nat),
    ensures
        zero_from(s, k),
{
    assert forall|j: int| k <= j < s.len() implies s[j] == 0 by {
        lemma_lv_split(s, j);
        lemma_lv_skip_prev(s, j);
        lemma_bpow_mono(k as nat, j as nat);
        if s[j] != 0 {
            lemma_bpow_pos(j as nat);
            lemma_mul_increases(lv(s.skip(j)) as int, bpow(j as nat) as int);
            lemma_mul_is_commutative(lv(s.skip(j)) as int, bpow(j as nat) as int);
        }
    }
}

pub proof fn lemma_lv_digit(s: Seq<u64>, i: int)
    requires
        0 <= i < s.len(),
    ensures
        digit(lv(s), i as nat) == s[i],
{
    let p = bpow(i as nat) as int;
    lemma_bpow_pos(i as nat);
    lemma_lv_split(s, i);
    lemma_lv_skip_prev(s, i);
    let lo = lv(s.take(i)) as int;
    let hi = lv(s.skip(i)) as int;
    lemma_lv_bound(s.take(i));
    assert(s.take(i).len() == i);
    // lv(s) == lo + p * hi with lo < p, so lv(s) / p == hi
    lemma_fundamental_div_mod_converse(lv(s) as int, p, hi, lo);
    lemma_mul_is_commutative(p, hi);
    // hi == s[i] + base * rest, so hi % base == s[i]
    let rest = lv(s.skip(i + 1)) as int;
    lemma_fundamental_div_mod_converse(hi, base() as int, rest, s[i] as int);
    lemma_mul_is_commutative(base() as int, rest);
}

pub proof fn lemma_limbs_of(s: Seq<u64>)
    ensures
        s == limbs_of(lv(s), s.len()),
{
    assert forall|i: int| 0 <= i < s.len() implies s[i] == limbs_of(lv(s), s.len())[i] by {
        lemma_lv_digit(s, i);
    }
    assert(s =~= limbs_of(lv(s), s.len()));
}

/// Comparing limb vectors of equal length from the most significant limb:
/// when they agree above index `i` and differ at `i`, the order of the limbs at
/// `i` is the order of the values.
pub proof fn lemma_lv_lt_at(a: Seq<u64>, b: Seq<u64>, i: int)
    requires
        a.len() == b.len(),
        0 <= i < a.len(),
        a[i] < b[i],
        forall|j: int| i < j < a.len() ==> a[j] == b[j],
    ensures
        lv(a) < lv(b),
{
    lemma_lv_split(a, i + 1);
    lemma_lv_split(b, i + 1);
    assert(a.skip(i + 1) =~= b.skip(i + 1));
    lemma_lv_take_next(a, i);
    lemma_lv_take_next(b, i);
    lemma_lv_bound(a.take(i));
    assert(a.take(i).len() == i);
    let p = bpow(i as nat) as int;
    lemma_mul_inequality((a[i] + 1) as int, b[i] as int, p);
    lemma_mul_is_distributive_add_other_way(p, a[i] as int, 1);
}

pub proof fn lemma_num_limbs_bound(width: nat)
    requires
        width > 0,
    ensures
        num_limbs_spec(width) > 0,
        pow2(width) <= bpow(num_limbs_spec(width)),
        bpow((num_limbs_spec(width) - 1) as nat) < pow2(width),
        64 * (num_limbs_spec(width) - 1) < width <= 64 * num_limbs_spec(width),
{
    let n = num_limbs_spec(width);
    assert(64 * (n - 1) < width <= 64 * n) by (nonlinear_arith)
        requires
            n == (width + 63) / 64,
            width > 0,
    ;
    lemma_bpow_pow2(n);
    lemma_bpow_pow2((n - 1) as nat);
    if width < 64 * n {
        lemma_pow2_strictly_increases(width, 64 * n);
    }
    lemma_pow2_strictly_increases(64 * (n - 1) as nat, width);
}

} // verus!
