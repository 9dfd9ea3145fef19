//! Operations on little-endian limb vectors.
use crate::integral::model::{base, bpow, lv, digit, num_limbs_spec, lemma_bpow_pos, lemma_bpow_add, lemma_bpow_mono, lemma_pow2_64, lemma_bpow_pow2, lemma_lv_bound, lemma_lv_concat, lemma_lv_push, lemma_lv_split, lemma_lv_take_next, lemma_lv_skip_prev, lemma_lv_update, zeros, lemma_lv_zeros, zero_from, lemma_lv_zero_from, lemma_lv_small_zero_from, lemma_lv_lt_at, lemma_num_limbs_bound};
use vstd::arithmetic::div_mod::*;
use vstd::arithmetic::mul::*;
use vstd::arithmetic::power2::*;
use vstd::bits::*;
use vstd::prelude::*;

verus! {

/// `s` padded with zero limbs up to length `n`.
pub open spec fn pad(s: Seq<u64>, n: nat) -> Seq<u64> {
    s + zeros((n - s.len()) as nat)
}

/// No zero limb at the most significant end.
pub open spec fn trimmed(s: Seq<u64>) -> bool {
    s.len() == 0 || s.last() != 0
}

pub proof fn lemma_lv_pad(s: Seq<u64>, n: nat)
    requires
        s.len() <= n,
    ensures
        lv(pad(s, n)) == lv(s),
        pad(s, n).len() == n,
        forall|i: int| 0 <= i < n ==> pad(s, n)[i] == if i < s.len() { s[i] } else { 0u64 },
{
    lemma_lv_concat(s, zeros((n - s.len()) as nat));
    lemma_lv_zeros((n - s.len()) as nat);
}

pub proof fn lemma_lv_last_pos(s: Seq<u64>)
    requires
        s.len() > 0,
        s.last() != 0,
    ensures
        lv(s) >= bpow((s.len() - 1) as nat),
{
    let p = bpow((s.len() - 1) as nat);
    lemma_bpow_pos((s.len() - 1) as nat);
    lemma_mul_increases(s.last() as int, p as int);
    lemma_mul_is_commutative(s.last() as int, p as int);
}

/// A trimmed vector whose value is below `bpow(k)` has at most `k` limbs.
pub proof fn lemma_trimmed_len(s: Seq<u64>, k: nat)
    requires
        trimmed(s),
        lv(s) < bpow(k),
    ensures
        s.len() <= k,
{
    if s.len() > k {
        lemma_lv_last_pos(s);
        lemma_bpow_mono(k, (s.len() - 1) as nat);
    }
}

proof fn lemma_carry_step(r: int, c: int, out: int, c2: int, p: int, sx: int, x: int, sy: int, y: int)
    requires
        r + c * p == sx + sy,
        out + c2 * base() == x + y + c,
    ensures
        (r + out * p) + c2 * (base() * p) == (sx + x * p) + (sy + y * p),
{
    assert(out * p + c2 * (base() * p) == x * p + y * p + c * p) by (nonlinear_arith)
        requires
            out + c2 * base() == x + y + c,
    ;
}

proof fn lemma_borrow_step(r: int, bw: int, out: int, bw2: int, p: int, sx: int, x: int, sy: int, y: int)
    requires
        r - bw * p == sx - sy,
        out - bw2 * base() == x - y - bw,
    ensures
        (r + out * p) - bw2 * (base() * p) == (sx + x * p) - (sy + y * p),
{
    assert(out * p - bw2 * (base() * p) == x * p - y * p - bw * p) by (nonlinear_arith)
        requires
            out - bw2 * base() == x - y - bw,
    ;
}

/// Clears the bits of the most significant limb that lie at or above `width`.
pub fn clear_high_bits(limbs: &mut Vec<u64>, width: usize)
    ensures
        width % 64 != 0 && old(limbs).len() > 0 ==> final(limbs)@ == old(limbs)@.update(
            old(limbs).len() - 1,
            old(limbs)@.last() & (low_bits_mask((width % 64) as nat) as u64),
        ),
        !(width % 64 != 0 && old(limbs).len() > 0) ==> final(limbs)@ == old(limbs)@,
        width > 0 && old(limbs).len() == num_limbs_spec(width as nat) ==> lv(final(limbs)@) == lv(
            old(limbs)@,
        ) % pow2(width as nat),
{
    let ghost old_s = limbs@;
    let used_bits = width % 64;
    if used_bits != 0 && limbs.len() > 0 {
        let last = limbs.len() - 1;
        let m = crate::integral::ApInt::mask(used_bits);
        let x = limbs[last];
        limbs.set(last, x & m);
        proof {
            if width > 0 && old_s.len() == num_limbs_spec(width as nat) {
                lemma_clear_high_value(old_s, width as nat, x & m);
            }
        }
    } else {
        proof {
            if width > 0 && old_s.len() == num_limbs_spec(width as nat) {
                lemma_num_limbs_bound(width as nat);
                lemma_lv_bound(old_s);
                lemma_bpow_pow2(old_s.len());
                assert(64 * old_s.len() == width);
                lemma_small_mod(lv(old_s), pow2(width as nat));
            }
        }
    }
}

/// Masking the top limb of a vector of `num_limbs(width)` limbs reduces its
/// value modulo `2^width`.
pub proof fn lemma_clear_high_value(s: Seq<u64>, width: nat, y: u64)
    requires
        width > 0,
        s.len() == num_limbs_spec(width),
        width % 64 != 0,
        y == s.last() & (low_bits_mask(width % 64) as u64),
    ensures
        lv(s.update(s.len() - 1, y)) == lv(s) % pow2(width),
{
    let n = s.len();
    let u = width % 64;
    lemma_num_limbs_bound(width);
    lemma_fundamental_div_mod(width as int, 64);
    assert(width == 64 * (n - 1) + u) by (nonlinear_arith)
        requires
            n == (width + 63) / 64,
            width == 64 * (width / 64) + u,
            0 < u < 64,
    ;
    let x = s.last();
    lemma_u64_low_bits_mask_is_mod(x, u);
    lemma_pow2_pos(u);
    let m = pow2(u);
    lemma_pow2_strictly_increases(u, 64);
    lemma_pow2_64();
    assert(y == x % (pow2(u) as u64));
    let p = bpow((n - 1) as nat);
    lemma_bpow_pow2((n - 1) as nat);
    lemma_pow2_adds(64 * (n - 1) as nat, u);
    assert(pow2(width) == p * m);
    let lo = lv(s.drop_last());
    lemma_lv_bound(s.drop_last());
    assert(lv(s) == lo + x * p);
    let t = s.update(n - 1, y);
    assert(t.drop_last() =~= s.drop_last());
    assert(lv(t) == lo + y * p);
    lemma_bpow_pos((n - 1) as nat);
    lemma_mod_low_plus_scaled(lo, x as nat, p, m);
}

/// For `0 <= lo < p`: `(lo + x * p) % (p * m) == lo + (x % m) * p`.
pub proof fn lemma_mod_low_plus_scaled(lo: nat, x: nat, p: nat, m: nat)
    requires
        lo < p,
        m > 0,
    ensures
        (lo + x * p) % (p * m) == lo + (x % m) * p,
{
    let q = x / m;
    let r = x % m;
    lemma_fundamental_div_mod(x as int, m as int);
    lemma_mod_bound(x as int, m as int);
    assert(lo + x * p == q * (p * m) + (lo + r * p)) by (nonlinear_arith)
        requires
            x == m * q + r,
    ;
    assert(lo + r * p < p * m) by (nonlinear_arith)
        requires
            lo < p,
            r < m,
            r >= 0,
    ;
    assert(p * m > 0) by (nonlinear_arith)
        requires
            lo < p,
            m > 0,
    ;
    lemma_fundamental_div_mod_converse((lo + x * p) as int, (p * m) as int, q as int, (lo + r * p) as int);
}

const BASE128: u128 = 0x1_0000_0000_0000_0000u128;

/// Sum of two limb vectors of any lengths.
pub fn add_limbs(a: &[u64], b: &[u64]) -> (r: Vec<u64>)
    ensures
        lv(r@) == lv(a@) + lv(b@),
        a.len() >= b.len() ==> (r.len() == a.len() || (r.len() == a.len() + 1 && r@.last() == 1)),
        a.len() < b.len() ==> (r.len() == b.len() || (r.len() == b.len() + 1 && r@.last() == 1)),
{
    let n = if a.len() >= b.len() {
        a.len()
    } else {
        b.len()
    };
    let ghost pa = pad(a@, n as nat);
    let ghost pb = pad(b@, n as nat);
    proof {
        lemma_lv_pad(a@, n as nat);
        lemma_lv_pad(b@, n as nat);
    }
    let mut result: Vec<u64> = Vec::new();
    let mut carry: u64 = 0;
    let mut i: usize = 0;
    while i < n
        invariant
            n == a.len() || n == b.len(),
            a.len() <= n,
            b.len() <= n,
            pa == pad(a@, n as nat),
            pb == pad(b@, n as nat),
            pa.len() == n,
            pb.len() == n,
            forall|k: int| 0 <= k < n ==> pa[k] == if k < a.len() { a@[k] } else { 0u64 },
            forall|k: int| 0 <= k < n ==> pb[k] == if k < b.len() { b@[k] } else { 0u64 },
            i <= n,
            result.len() == i,
            carry <= 1,
            lv(result@) + carry * bpow(i as nat) == lv(pa.take(i as int)) + lv(pb.take(i as int)),
        decreases n - i,
    {
        let x = if i < a.len() {
            a[i]
        } else {
            0
        };
        let y = if i < b.len() {
            b[i]
        } else {
            0
        };
        let s: u128 = x as u128 + y as u128 + carry as u128;
        let (out, c2): (u64, u64) = if s >= BASE128 {
            ((s - BASE128) as u64, 1)
        } else {
            (s as u64, 0)
        };
        proof {
            let ghost r0 = result@;
            lemma_lv_push(r0, out);
            lemma_lv_take_next(pa, i as int);
            lemma_lv_take_next(pb, i as int);
            lemma_carry_step(
                lv(r0) as int,
                carry as int,
                out as int,
                c2 as int,
                bpow(i as nat) as int,
                lv(pa.take(i as int)) as int,
                x as int,
                lv(pb.take(i as int)) as int,
                y as int,
            );
            assert(bpow((i + 1) as nat) == base() * bpow(i as nat));
        }
        result.push(out);
        carry = c2;
        i = i + 1;
    }
    proof {
        assert(pa.take(n as int) =~= pa);
        assert(pb.take(n as int) =~= pb);
    }
    if carry != 0 {
        proof {
            lemma_lv_push(result@, carry);
        }
        result.push(carry);
    }
    result
}

/// Removes the zero limbs at the most significant end.
pub fn trim_limbs(limbs: &mut Vec<u64>)
    ensures
        lv(final(limbs)@) == lv(old(limbs)@),
        trimmed(final(limbs)@),
        final(limbs).len() <= old(limbs).len(),
        final(limbs)@ == old(limbs)@.take(final(limbs).len() as int),
        zero_from(old(limbs)@, final(limbs).len() as int),
{
    let ghost s0 = limbs@;
    while limbs.len() > 0 && limbs[limbs.len() - 1] == 0
        invariant
            limbs.len() <= s0.len(),
            limbs@ == s0.take(limbs.len() as int),
            zero_from(s0, limbs.len() as int),
        decreases limbs.len(),
    {
        limbs.pop();
    }
    proof {
        lemma_lv_zero_from(s0, limbs.len() as int);
    }
}

/// Subtracts `b` from `a` in place and trims the result; `a` must not be
/// smaller than `b`.
pub fn sub_limbs(a: &mut Vec<u64>, b: &[u64])
    requires
        lv(old(a)@) >= lv(b@),
    ensures
        lv(final(a)@) == lv(old(a)@) - lv(b@),
        trimmed(final(a)@),
        final(a).len() <= old(a).len(),
{
    let ghost a0 = a@;
    let n = a.len();
    // the limbs of `b` above `n` are zero
    let ghost m: nat = if b.len() > n {
        b.len() as nat
    } else {
        n as nat
    };
    let ghost pb = pad(b@, m);
    proof {
        lemma_lv_pad(b@, m);
        lemma_lv_bound(a0);
        if b.len() > n {
            lemma_lv_small_zero_from(b@, n as int);
        }
        lemma_lv_split(pb, n as int);
        lemma_lv_small_zero_from(pb, n as int);
        lemma_lv_zero_from(pb, n as int);
    }
    let mut borrow: u64 = 0;
    let mut i: usize = 0;
    while i < n
        invariant
            n == a.len(),
            n == a0.len(),
            i <= n,
            pb.len() == m,
            m >= n,
            forall|k: int| 0 <= k < m ==> pb[k] == if k < b.len() { b@[k] } else { 0u64 },
            borrow <= 1,
            forall|k: int| i <= k < n ==> a@[k] == a0[k],
            lv(a@.take(i as int)) - borrow * bpow(i as nat) == lv(a0.take(i as int)) - lv(
                pb.take(i as int),
            ),
        decreases n - i,
    {
        let x = a[i];
        let y = if i < b.len() {
            b[i]
        } else {
            0
        };
        let yb: u128 = y as u128 + borrow as u128;
        let (out, bw2): (u64, u64) = if (x as u128) >= yb {
            ((x as u128 - yb) as u64, 0)
        } else {
            ((x as u128 + BASE128 - yb) as u64, 1)
        };
        proof {
            let ghost s = a@;
            assert(s.update(i as int, out).take(i as int + 1) =~= s.take(i as int).push(out));
            lemma_lv_push(s.take(i as int), out);
            lemma_lv_take_next(a0, i as int);
            lemma_lv_take_next(pb, i as int);
            lemma_borrow_step(
                lv(s.take(i as int)) as int,
                borrow as int,
                out as int,
                bw2 as int,
                bpow(i as nat) as int,
                lv(a0.take(i as int)) as int,
                x as int,
                lv(pb.take(i as int)) as int,
                y as int,
            );
            assert(bpow((i + 1) as nat) == base() * bpow(i as nat));
        }
        a.set(i, out);
        borrow = bw2;
        i = i + 1;
    }
    proof {
        assert(a@.take(n as int) =~= a@);
        assert(a0.take(n as int) =~= a0);
        lemma_lv_bound(a@);
        if borrow == 1 {
            assert(false);
        }
    }
    trim_limbs(a);
}

/// Adds `value * 2^(64 * shift)` to `out` in place; the sum must fit in `out`.
/// An empty `value` leaves `out` as it is, whatever `shift` is.
pub fn add_shifted(out: &mut Vec<u64>, value: &[u64], shift: usize)
    requires
        value.len() == 0 || shift + value.len() <= old(out).len(),
        lv(old(out)@) + lv(value@) * bpow(shift as nat) < bpow(old(out).len() as nat),
    ensures
        final(out).len() == old(out).len(),
        lv(final(out)@) == lv(old(out)@) + lv(value@) * bpow(shift as nat),
        forall|k: int| 0 <= k < shift && k < old(out).len() ==> final(out)@[k] == old(out)@[k],
{
    if value.len() == 0 {
        proof {
            assert(value@ =~= Seq::<u64>::empty());
            assert(lv(value@) == 0);
            lemma_mul_basics(bpow(shift as nat) as int);
        }
        return ;
    }
    let ghost o0 = out@;
    let ghost target = lv(o0) + lv(value@) * bpow(shift as nat);
    let mut carry: u64 = 0;
    let mut i: usize = 0;
    while i < value.len()
        invariant
            out.len() == o0.len(),
            shift + value.len() <= out.len(),
            i <= value.len(),
            carry <= 1,
            forall|k: int| shift + i <= k < out.len() ==> out@[k] == o0[k],
            forall|k: int| 0 <= k < shift ==> out@[k] == o0[k],
            lv(out@) + carry * bpow((shift + i) as nat) == lv(o0) + lv(value@.take(i as int))
                * bpow(shift as nat),
        decreases value.len() - i,
    {
        let index = i + shift;
        let x = out[index];
        let s: u128 = x as u128 + value[i] as u128 + carry as u128;
        let (o, c2): (u64, u64) = if s >= BASE128 {
            ((s - BASE128) as u64, 1)
        } else {
            (s as u64, 0)
        };
        proof {
            let ghost cur = out@;
            lemma_lv_update(cur, index as int, o);
            lemma_lv_take_next(value@, i as int);
            let p = bpow(index as nat) as int;
            let ps = bpow(shift as nat) as int;
            lemma_bpow_add(shift as nat, i as nat);
            assert(bpow((shift + i) as nat) == ps * bpow(i as nat));
            assert(bpow((shift + i + 1) as nat) == base() * p);
            let vt = lv(value@.take(i as int)) as int;
            let vi = value@[i as int] as int;
            assert((vt + vi * bpow(i as nat)) * ps == vt * ps + vi * p) by (nonlinear_arith)
                requires
                    p == ps * bpow(i as nat),
            ;
            assert(o as int + c2 as int * base() == x as int + vi + carry as int);
            assert(o as int * p + c2 as int * (base() * p) == x as int * p + vi * p + carry as int
                * p) by (nonlinear_arith)
                requires
                    o as int + c2 as int * base() == x as int + vi + carry as int,
            ;
        }
        out.set(index, o);
        carry = c2;
        i = i + 1;
    }
    proof {
        assert(value@.take(value.len() as int) =~= value@);
    }
    let mut index = shift + value.len();
    while carry != 0
        invariant
            out.len() == o0.len(),
            shift + value.len() <= index <= out.len(),
            carry <= 1,
            forall|k: int| index <= k < out.len() ==> out@[k] == o0[k],
            forall|k: int| 0 <= k < shift ==> out@[k] == o0[k],
            lv(out@) + carry * bpow(index as nat) == target,
            target < bpow(out.len() as nat),
        decreases out.len() - index,
    {
        if index >= out.len() {
            proof {
                lemma_lv_bound(out@);
                assert(false);
            }
            return ;
        }
        let x = out[index];
        let (o, c2): (u64, u64) = if x == u64::MAX {
            (0, 1)
        } else {
            (x + 1, 0)
        };
        proof {
            lemma_lv_update(out@, index as int, o);
            let p = bpow(index as nat);
            assert(bpow((index + 1) as nat) == base() * p);
            assert(o as int + c2 as int * base() == x as int + 1);
            assert(o as int * p + c2 as int * (base() * p) == x as int * p + p) by (nonlinear_arith)
                requires
                    o as int + c2 as int * base() == x as int + 1,
            ;
        }
        out.set(index, o);
        carry = c2;
        index = index + 1;
    }
}

} // verus!

verus! {

/// All limbs of `s` at index `k` and above are zero.
pub open spec fn zero_above(s: Seq<u64>, k: usize) -> bool {
    zero_from(s, k as int)
}

/// The value of the low `k` limbs of `s`.
pub open spec fn lv_prefix(s: Seq<u64>, k: usize) -> nat {
    lv(s.take(k as int))
}

/// Limb `k - 1` of `s` is not zero.
pub open spec fn top_nonzero(s: Seq<u64>, k: usize) -> bool {
    k > 0 && s[k - 1] != 0
}

/// `a` and `b` agree on the limbs with index in `i .. n`.
pub open spec fn same_between(a: Seq<u64>, b: Seq<u64>, i: usize, n: usize) -> bool {
    forall|j: int| i <= j < n ==> a[j] == b[j]
}

/// Limb `i` of `a` is below limb `i` of `b`.
pub open spec fn limb_lt(a: Seq<u64>, b: Seq<u64>, i: usize) -> bool {
    a[i as int] < b[i as int]
}

pub proof fn lemma_prefix_value(s: Seq<u64>, k: usize)
    requires
        k <= s.len(),
        zero_above(s, k),
    ensures
        lv(s) == lv_prefix(s, k),
{
    lemma_lv_zero_from(s, k as int);
}

pub proof fn lemma_zero_above_step(s: Seq<u64>, k: usize)
    requires
        0 < k <= s.len(),
        zero_above(s, k),
        s[k - 1] == 0,
    ensures
        zero_above(s, (k - 1) as usize),
{
}

pub proof fn lemma_shorter_smaller(a: Seq<u64>, ka: usize, b: Seq<u64>, kb: usize)
    requires
        ka < kb,
        ka <= a.len(),
        kb <= b.len(),
        top_nonzero(b, kb),
    ensures
        lv_prefix(a, ka) < lv_prefix(b, kb),
{
    let bt = b.take(kb as int);
    assert(bt.last() == b[kb - 1]);
    lemma_lv_last_pos(bt);
    lemma_lv_bound(a.take(ka as int));
    lemma_bpow_mono(ka as nat, (kb - 1) as nat);
}

pub proof fn lemma_first_diff(a: Seq<u64>, b: Seq<u64>, n: usize, i: usize)
    requires
        i < n,
        n <= a.len(),
        n <= b.len(),
        limb_lt(a, b, i),
        same_between(a, b, (i + 1) as usize, n),
    ensures
        lv_prefix(a, n) < lv_prefix(b, n),
{
    let at = a.take(n as int);
    let bt = b.take(n as int);
    lemma_lv_lt_at(at, bt, i as int);
}

pub proof fn lemma_all_same(a: Seq<u64>, b: Seq<u64>, n: usize)
    requires
        n <= a.len(),
        n <= b.len(),
        same_between(a, b, 0, n),
    ensures
        lv_prefix(a, n) == lv_prefix(b, n),
{
    assert(a.take(n as int) =~= b.take(n as int));
}

/// Three-way comparison of the values of two limb vectors of any lengths.
pub fn compare_limbs(a: &[u64], b: &[u64]) -> (r: std::cmp::Ordering)
    ensures
        (r == std::cmp::Ordering::Less) == (lv(a@) < lv(b@)),
        (r == std::cmp::Ordering::Equal) == (lv(a@) == lv(b@)),
        (r == std::cmp::Ordering::Greater) == (lv(a@) > lv(b@)),
{
    let mut a_len = a.len();
    let mut b_len = b.len();
    while a_len != 0 && a[a_len - 1] == 0
        invariant
            a_len <= a.len(),
            zero_above(a@, a_len),
        decreases a_len,
    {
        proof {
            lemma_zero_above_step(a@, a_len);
        }
        a_len = a_len - 1;
    }
    while b_len != 0 && b[b_len - 1] == 0
        invariant
            b_len <= b.len(),
            zero_above(b@, b_len),
        decreases b_len,
    {
        proof {
            lemma_zero_above_step(b@, b_len);
        }
        b_len = b_len - 1;
    }
    proof {
        lemma_prefix_value(a@, a_len);
        lemma_prefix_value(b@, b_len);
    }
    if a_len < b_len {
        proof {
            lemma_shorter_smaller(a@, a_len, b@, b_len);
        }
        return std::cmp::Ordering::Less;
    }
    if b_len < a_len {
        proof {
            lemma_shorter_smaller(b@, b_len, a@, a_len);
        }
        return std::cmp::Ordering::Greater;
    }
    let mut i = a_len;
    while i > 0
        invariant
            i <= a_len,
            a_len == b_len,
            a_len <= a.len(),
            b_len <= b.len(),
            lv(a@) == lv_prefix(a@, a_len),
            lv(b@) == lv_prefix(b@, b_len),
            same_between(a@, b@, i, a_len),
        decreases i,
    {
        let j = i - 1;
        if a[j] < b[j] {
            proof {
                lemma_first_diff(a@, b@, a_len, j);
            }
            return std::cmp::Ordering::Less;
        }
        if b[j] < a[j] {
            proof {
                lemma_first_diff(b@, a@, a_len, j);
            }
            return std::cmp::Ordering::Greater;
        }
        i = j;
    }
    proof {
        lemma_all_same(a@, b@, a_len);
    }
    std::cmp::Ordering::Equal
}

} // verus!

verus! {

/// Sum of two limb vectors of equal length, reduced modulo `bpow(n)`.
pub fn add_limbs_mod(a: &[u64], b: &[u64]) -> (r: Vec<u64>)
    requires
        a.len() == b.len(),
    ensures
        r.len() == a.len(),
        lv(r@) == (lv(a@) + lv(b@)) % bpow(a.len() as nat),
{
    let n = a.len();
    let mut result: Vec<u64> = Vec::new();
    let mut carry: u64 = 0;
    let mut i: usize = 0;
    while i < n
        invariant
            n == a.len(),
            n == b.len(),
            i <= n,
            result.len() == i,
            carry <= 1,
            lv(result@) + carry * bpow(i as nat) == lv(a@.take(i as int)) + lv(b@.take(i as int)),
        decreases n - i,
    {
        let x = a[i];
        let y = b[i];
        let s: u128 = x as u128 + y as u128 + carry as u128;
        let (out, c2): (u64, u64) = if s >= BASE128 {
            ((s - BASE128) as u64, 1)
        } else {
            (s as u64, 0)
        };
        proof {
            let ghost r0 = result@;
            lemma_lv_push(r0, out);
            lemma_lv_take_next(a@, i as int);
            lemma_lv_take_next(b@, i as int);
            lemma_carry_step(
                lv(r0) as int,
                carry as int,
                out as int,
                c2 as int,
                bpow(i as nat) as int,
                lv(a@.take(i as int)) as int,
                x as int,
                lv(b@.take(i as int)) as int,
                y as int,
            );
            assert(bpow((i + 1) as nat) == base() * bpow(i as nat));
        }
        result.push(out);
        carry = c2;
        i = i + 1;
    }
    proof {
        assert(a@.take(n as int) =~= a@);
        assert(b@.take(n as int) =~= b@);
        lemma_lv_bound(result@);
        lemma_bpow_pos(n as nat);
        lemma_fundamental_div_mod_converse(
            (lv(a@) + lv(b@)) as int,
            bpow(n as nat) as int,
            carry as int,
            lv(result@) as int,
        );
    }
    result
}

/// Difference of two limb vectors of equal length, reduced modulo `bpow(n)`.
pub fn sub_limbs_mod(a: &[u64], b: &[u64]) -> (r: Vec<u64>)
    requires
        a.len() == b.len(),
    ensures
        r.len() == a.len(),
        lv(r@) == (lv(a@) - lv(b@)) % (bpow(a.len() as nat) as int),
{
    let n = a.len();
    let mut result: Vec<u64> = Vec::new();
    let mut borrow: u64 = 0;
    let mut i: usize = 0;
    while i < n
        invariant
            n == a.len(),
            n == b.len(),
            i <= n,
            result.len() == i,
            borrow <= 1,
            lv(result@) - borrow * bpow(i as nat) == lv(a@.take(i as int)) - lv(b@.take(i as int)),
        decreases n - i,
    {
        let x = a[i];
        let y = b[i];
        let yb: u128 = y as u128 + borrow as u128;
        let (out, bw2): (u64, u64) = if (x as u128) >= yb {
            ((x as u128 - yb) as u64, 0)
        } else {
            ((x as u128 + BASE128 - yb) as u64, 1)
        };
        proof {
            let ghost r0 = result@;
            lemma_lv_push(r0, out);
            lemma_lv_take_next(a@, i as int);
            lemma_lv_take_next(b@, i as int);
            lemma_borrow_step(
                lv(r0) as int,
                borrow as int,
                out as int,
                bw2 as int,
                bpow(i as nat) as int,
                lv(a@.take(i as int)) as int,
                x as int,
                lv(b@.take(i as int)) as int,
                y as int,
            );
            assert(bpow((i + 1) as nat) == base() * bpow(i as nat));
        }
        result.push(out);
        borrow = bw2;
        i = i + 1;
    }
    proof {
        assert(a@.take(n as int) =~= a@);
        assert(b@.take(n as int) =~= b@);
        lemma_lv_bound(result@);
        lemma_bpow_pos(n as nat);
        assert(lv(a@) - lv(b@) == (-(borrow as int)) * (bpow(n as nat) as int) + lv(result@))
            by (nonlinear_arith)
            requires
                lv(result@) - borrow * bpow(n as nat) == lv(a@) - lv(b@),
        ;
        lemma_fundamental_div_mod_converse(
            lv(a@) - lv(b@),
            bpow(n as nat) as int,
            -(borrow as int),
            lv(result@) as int,
        );
    }
    result
}

/// Product of a limb vector and one limb: the limbs of the product below
/// `bpow(n)` and the limb above them.
pub fn mul_small(x: &[u64], d: u64) -> (r: (Vec<u64>, u64))
    ensures
        r.0.len() == x.len(),
        lv(r.0@) + r.1 as nat * bpow(x.len() as nat) == lv(x@) * d,
{
    let n = x.len();
    let mut out: Vec<u64> = Vec::new();
    let mut carry: u64 = 0;
    let mut i: usize = 0;
    proof {
        assert(x@.take(0) =~= Seq::<u64>::empty());
        assert(out@ =~= Seq::<u64>::empty());
        lemma_mul_basics(d as int);
    }
    while i < n
        invariant
            n == x.len(),
            i <= n,
            out.len() == i,
            lv(out@) + carry * bpow(i as nat) == lv(x@.take(i as int)) * d,
        decreases n - i,
    {
        proof {
            lemma_mul_limb_bound(x[i as int], d, carry);
        }
        let t: u128 = x[i] as u128 * d as u128 + carry as u128;
        let lo = t as u64;
        let hi = (t >> 64) as u64;
        proof {
            crate::integral::lemma_split_u128(t);
            lemma_fundamental_div_mod(t as int, base() as int);
            let ghost o0 = out@;
            lemma_lv_push(o0, lo);
            lemma_lv_take_next(x@, i as int);
            let p = bpow(i as nat) as int;
            assert(bpow((i + 1) as nat) == base() * bpow(i as nat));
            let xi = x@[i as int] as int;
            assert(lo as int + hi as int * base() == xi * d + carry);
            assert(lo as int * p + hi as int * (base() * p) == (xi * d) * p + carry as int * p)
                by (nonlinear_arith)
                requires
                    lo as int + hi as int * base() == xi * d + carry,
            ;
            assert((lv(x@.take(i as int)) + xi * p) * d == lv(x@.take(i as int)) * d + (xi * d)
                * p) by (nonlinear_arith);
        }
        out.push(lo);
        carry = hi;
        i = i + 1;
    }
    proof {
        assert(x@.take(n as int) =~= x@);
    }
    (out, carry)
}

pub proof fn lemma_mul_limb_bound(a: u64, b: u64, c: u64)
    ensures
        a as nat * b as nat + c as nat <= u128::MAX,
        a as nat * b as nat + (c as nat) < base() * base(),
{
    assert(a as nat * b as nat <= 0xffff_ffff_ffff_ffff * 0xffff_ffff_ffff_ffff) by (nonlinear_arith)
        requires
            a <= 0xffff_ffff_ffff_ffffu64,
            b <= 0xffff_ffff_ffff_ffffu64,
    ;
}

/// Quotient of a limb vector by one nonzero limb, and the remainder.
pub fn div_small(x: &[u64], d: u64) -> (r: (Vec<u64>, u64))
    requires
        d > 0,
    ensures
        r.0.len() == x.len(),
        lv(x@) == lv(r.0@) * d + r.1,
        r.1 < d,
{
    let n = x.len();
    let mut q: Vec<u64> = crate::integral::zero_limbs(n);
    let mut rem: u64 = 0;
    let mut i: usize = n;
    proof {
        assert(x@.skip(n as int) =~= Seq::<u64>::empty());
        assert(q@.skip(n as int) =~= Seq::<u64>::empty());
        lemma_mul_basics(d as int);
    }
    while i > 0
        invariant
            n == x.len(),
            q.len() == n,
            i <= n,
            d > 0,
            rem < d,
            lv(x@.skip(i as int)) == lv(q@.skip(i as int)) * d + rem,
        decreases i,
    {
        let j = i - 1;
        proof {
            assert(((rem as u128) << 64) == rem as u128 * 0x1_0000_0000_0000_0000u128) by (bit_vector);
        }
        let t: u128 = ((rem as u128) << 64) + x[j] as u128;
        let qd = t / (d as u128);
        let r2 = t % (d as u128);
        proof {
            lemma_fundamental_div_mod(t as int, d as int);
            lemma_mod_bound(t as int, d as int);
            // t < d * base, so the quotient digit fits a limb
            assert(t < d as int * base()) by (nonlinear_arith)
                requires
                    t == rem as int * base() + x@[j as int],
                    rem < d,
                    x@[j as int] < base(),
            ;
            lemma_div_by_multiple_is_strongly_ordered(t as int, (d as int * base()) as int, base() as int, d as int);
            lemma_mul_is_commutative(d as int, base() as int);
            lemma_div_by_multiple(base() as int, d as int);
        }
        let qd64 = qd as u64;
        proof {
            let ghost q0 = q@;
            let q1 = q0.update(j as int, qd64);
            lemma_lv_skip_prev(x@, j as int);
            lemma_lv_skip_prev(q1, j as int);
            assert(q1.skip(j + 1) =~= q0.skip(j + 1));
            let hq = lv(q0.skip(i as int)) as int;
            assert(lv(x@.skip(j as int)) == x@[j as int] + base() * (hq * d + rem));
            assert(t == d as int * qd + r2);
            assert(x@[j as int] + base() * (hq * d + rem) == (qd + base() * hq) * d + r2)
                by (nonlinear_arith)
                requires
                    t == rem as int * base() + x@[j as int],
                    t == d as int * qd + r2,
            ;
        }
        q.set(j, qd64);
        rem = r2 as u64;
        i = j;
    }
    proof {
        assert(x@.skip(0) =~= x@);
        assert(q@.skip(0) =~= q@);
    }
    (q, rem)
}

} // verus!

verus! {

/// Limb-wise AND of two limb vectors of equal length.
pub fn and_limbs(a: &[u64], b: &[u64]) -> (r: Vec<u64>)
    requires
        a.len() == b.len(),
    ensures
        r@ == Seq::new(a.len() as nat, |i: int| a@[i] & b@[i]),
{
    let mut v: Vec<u64> = Vec::new();
    let mut i: usize = 0;
    while i < a.len()
        invariant
            a.len() == b.len(),
            i <= a.len(),
            v@ == Seq::new(i as nat, |k: int| a@[k] & b@[k]),
        decreases a.len() - i,
    {
        v.push(a[i] & b[i]);
        i = i + 1;
        proof {
            assert(v@ =~= Seq::new(i as nat, |k: int| a@[k] & b@[k]));
        }
    }
    v
}

/// Limb-wise OR of two limb vectors of equal length.
pub fn or_limbs(a: &[u64], b: &[u64]) -> (r: Vec<u64>)
    requires
        a.len() == b.len(),
    ensures
        r@ == Seq::new(a.len() as nat, |i: int| a@[i] | b@[i]),
{
    let mut v: Vec<u64> = Vec::new();
    let mut i: usize = 0;
    while i < a.len()
        invariant
            a.len() == b.len(),
            i <= a.len(),
            v@ == Seq::new(i as nat, |k: int| a@[k] | b@[k]),
        decreases a.len() - i,
    {
        v.push(a[i] | b[i]);
        i = i + 1;
        proof {
            assert(v@ =~= Seq::new(i as nat, |k: int| a@[k] | b@[k]));
        }
    }
    v
}

/// Limb-wise XOR of two limb vectors of equal length.
pub fn xor_limbs(a: &[u64], b: &[u64]) -> (r: Vec<u64>)
    requires
        a.len() == b.len(),
    ensures
        r@ == Seq::new(a.len() as nat, |i: int| a@[i] ^ b@[i]),
{
    let mut v: Vec<u64> = Vec::new();
    let mut i: usize = 0;
    while i < a.len()
        invariant
            a.len() == b.len(),
            i <= a.len(),
            v@ == Seq::new(i as nat, |k: int| a@[k] ^ b@[k]),
        decreases a.len() - i,
    {
        v.push(a[i] ^ b[i]);
        i = i + 1;
        proof {
            assert(v@ =~= Seq::new(i as nat, |k: int| a@[k] ^ b@[k]));
        }
    }
    v
}

/// Limb-wise complement of a limb vector: its value is `bpow(n) - 1 - lv(a)`.
pub fn not_limbs(a: &[u64]) -> (r: Vec<u64>)
    ensures
        r@ == Seq::new(a.len() as nat, |i: int| !a@[i]),
        lv(r@) + lv(a@) + 1 == bpow(a.len() as nat),
{
    let mut v: Vec<u64> = Vec::new();
    let mut i: usize = 0;
    proof {
        assert(a@.take(0) =~= Seq::<u64>::empty());
    }
    while i < a.len()
        invariant
            i <= a.len(),
            v@ == Seq::new(i as nat, |k: int| !a@[k]),
            lv(v@) + lv(a@.take(i as int)) + 1 == bpow(i as nat),
        decreases a.len() - i,
    {
        let x = a[i];
        let y = !x;
        proof {
            assert(y == 0xffff_ffff_ffff_ffffu64 - x) by (bit_vector)
                requires
                    y == !x,
            ;
            lemma_lv_push(v@, y);
            lemma_lv_take_next(a@, i as int);
            let p = bpow(i as nat);
            assert(bpow((i + 1) as nat) == base() * p);
            assert(y as nat * p + x as nat * p + p == base() * p) by (nonlinear_arith)
                requires
                    y as nat + x as nat + 1 == base(),
            ;
        }
        v.push(y);
        i = i + 1;
        proof {
            assert(v@ =~= Seq::new(i as nat, |k: int| !a@[k]));
        }
    }
    proof {
        assert(a@.take(a.len() as int) =~= a@);
    }
    v
}

/// Sets the bits `from .. to` of a limb vector whose value is below
/// `2^from`.
pub fn set_bits(limbs: &mut Vec<u64>, from: usize, to: usize)
    requires
        from <= to,
        to <= 64 * old(limbs).len(),
        lv(old(limbs)@) < pow2(from as nat),
    ensures
        final(limbs).len() == old(limbs).len(),
        lv(final(limbs)@) == lv(old(limbs)@) + pow2(to as nat) - pow2(from as nat),
{
    let ghost v0 = lv(limbs@);
    let mut bit = from;
    while bit < to
        invariant
            from <= bit <= to,
            to <= 64 * limbs.len(),
            limbs.len() == old(limbs).len(),
            v0 == lv(old(limbs)@),
            v0 < pow2(from as nat),
            lv(limbs@) == v0 + pow2(bit as nat) - pow2(from as nat),
            lv(limbs@) < pow2(bit as nat),
        decreases to - bit,
    {
        let limb = bit / 64;
        let offset = bit % 64;
        let x = limbs[limb];
        proof {
            lemma_limb_below_bit(limbs@, limb as nat, offset as nat, bit as nat);
            lemma_u64_pow2_no_overflow(offset as nat);
            lemma_u64_shl_is_mul(1, offset as u64);
        }
        let y = x | (1u64 << offset);
        proof {
            lemma_or_high_bit(x, offset as u64);
            lemma_lv_update(limbs@, limb as int, y);
            lemma_bpow_pow2(limb as nat);
            lemma_pow2_adds(64 * limb as nat, offset as nat);
            assert(bit == 64 * limb + offset);
            lemma_pow2_adds(bit as nat, 1);
            lemma2_to64();
            assert(pow2(bit as nat) == bpow(limb as nat) * pow2(offset as nat));
            assert(y as nat * bpow(limb as nat) == x as nat * bpow(limb as nat) + pow2(bit as nat))
                by (nonlinear_arith)
                requires
                    y as nat == x as nat + pow2(offset as nat),
                    pow2(bit as nat) == bpow(limb as nat) * pow2(offset as nat),
            ;
            lemma_pow2_strictly_increases(from as nat, (bit + 1) as nat);
            if from < bit {
                lemma_pow2_strictly_increases(from as nat, bit as nat);
            }
        }
        limbs.set(limb, y);
        bit = bit + 1;
    }
}

/// Below bit `bit = 64 * limb + offset`, the limb `limb` is below
/// `2^offset`.
pub proof fn lemma_limb_below_bit(s: Seq<u64>, limb: nat, offset: nat, bit: nat)
    requires
        bit == 64 * limb + offset,
        offset < 64,
        limb < s.len(),
        lv(s) < pow2(bit),
    ensures
        (s[limb as int] as nat) < pow2(offset),
{
    lemma_lv_split(s, limb as int);
    lemma_lv_skip_prev(s, limb as int);
    lemma_bpow_pow2(limb);
    lemma_pow2_adds(64 * limb, offset);
    let p = bpow(limb);
    lemma_bpow_pos(limb);
    let x = s[limb as int] as nat;
    let rest = lv(s.skip(limb as int + 1));
    assert(p * (x + base() * rest) >= p * x) by (nonlinear_arith)
        requires
            p > 0,
    ;
    if x >= pow2(offset) {
        assert(p * x >= p * pow2(offset)) by (nonlinear_arith)
            requires
                x >= pow2(offset),
                p > 0,
        ;
        lemma_mul_is_commutative(p as int, pow2(offset) as int);
    }
}

/// Setting a bit above all set bits adds its weight.
pub proof fn lemma_or_high_bit(x: u64, offset: u64)
    requires
        offset < 64,
        (x as nat) < pow2(offset as nat),
        (1u64 << offset) as nat == pow2(offset as nat),
    ensures
        (x | (1u64 << offset)) as nat == x as nat + pow2(offset as nat),
{
    let m = 1u64 << offset;
    assert(x < m ==> (x | m) == x + m) by (bit_vector)
        requires
            offset < 64,
            m == 1u64 << offset,
    ;
}

} // verus!

verus! {

/// The first `n` limbs of `s`, padded with zero limbs when `s` is shorter.
pub fn resized_copy(s: &[u64], n: usize) -> (r: Vec<u64>)
    requires
        s.len() <= n,
    ensures
        r@ == pad(s@, n as nat),
        lv(r@) == lv(s@),
{
    let mut v: Vec<u64> = Vec::new();
    let mut i: usize = 0;
    while i < n
        invariant
            i <= n,
            s.len() <= n,
            v.len() == i,
            forall|k: int| 0 <= k < i ==> v@[k] == if k < s.len() { s@[k] } else { 0u64 },
        decreases n - i,
    {
        let x = if i < s.len() {
            s[i]
        } else {
            0
        };
        v.push(x);
        i = i + 1;
    }
    proof {
        lemma_lv_pad(s@, n as nat);
        assert(v@ =~= pad(s@, n as nat));
    }
    v
}

} // verus!

verus! {

/// The limbs of `s` from index `k` on.
pub fn limbs_from(s: &[u64], k: usize) -> (r: Vec<u64>)
    requires
        k <= s.len(),
    ensures
        r@ == s@.skip(k as int),
{
    let mut v: Vec<u64> = Vec::new();
    let mut i: usize = k;
    while i < s.len()
        invariant
            k <= i <= s.len(),
            v@ == s@.subrange(k as int, i as int),
        decreases s.len() - i,
    {
        v.push(s[i]);
        i = i + 1;
        proof {
            assert(v@ =~= s@.subrange(k as int, i as int));
        }
    }
    proof {
        assert(v@ =~= s@.skip(k as int));
    }
    v
}

/// `n` limbs holding `s` moved up by `k` limbs, reduced modulo `bpow(n)`.
pub fn place_at(s: &[u64], k: usize, n: usize) -> (r: Vec<u64>)
    ensures
        r.len() == n,
        lv(r@) == (lv(s@) * bpow(k as nat)) % bpow(n as nat),
{
    let ghost t = zeros(k as nat) + s@;
    let mut v: Vec<u64> = Vec::new();
    let mut i: usize = 0;
    while i < n
        invariant
            i <= n,
            v.len() == i,
            t == zeros(k as nat) + s@,
            forall|j: int| 0 <= j < i ==> v@[j] == if j < t.len() { t[j] } else { 0u64 },
        decreases n - i,
    {
        let x = if i < k {
            0
        } else if i - k < s.len() {
            s[i - k]
        } else {
            0
        };
        v.push(x);
        i = i + 1;
    }
    proof {
        crate::integral::lemma_resize_value(t, v@, n as nat);
        lemma_lv_concat(zeros(k as nat), s@);
        lemma_lv_zeros(k as nat);
        lemma_mul_is_commutative(bpow(k as nat) as int, lv(s@) as int);
    }
    v
}

} // verus!
