//! Long division of limb vectors (Knuth's Algorithm D, base 2^64).
use crate::integral::detail::limbs;
use crate::integral::model::{base, bpow, lv, digit, lemma_bpow_pos, lemma_bpow_add, lemma_pow2_64, lemma_lv_bound, lemma_lv_push, lemma_lv_split, lemma_lv_take_next, lemma_lv_skip_prev, lemma_lv_single, zeros, zero_from, lemma_lv_zero_from, lemma_lv_small_zero_from, lemma_num_limbs_bound};
use crate::integral::{udiv_model, urem_model, wrap, ApInt, IntModel};
use vstd::arithmetic::div_mod::*;
use vstd::arithmetic::mul::*;
use vstd::arithmetic::power2::*;
use vstd::bits::*;
use vstd::prelude::*;
use vstd::std_specs::bits::{axiom_u64_leading_zeros, u64_leading_zeros};

verus! {

const BASE128: u128 = 0x1_0000_0000_0000_0000u128;

/// The `len` limbs of `s` starting at `off`.
pub open spec fn window(s: Seq<u64>, off: int, len: int) -> Seq<u64> {
    s.subrange(off, off + len)
}

/// Limbs outside `off .. off + len` are those of `s0`.
pub open spec fn same_outside(s: Seq<u64>, s0: Seq<u64>, off: int, len: int) -> bool {
    &&& s.len() == s0.len()
    &&& forall|k: int| 0 <= k < s.len() && !(off <= k < off + len) ==> s[k] == s0[k]
}

proof fn lemma_window_push(s: Seq<u64>, off: int, i: int, x: u64)
    requires
        0 <= off,
        0 <= i,
        off + i < s.len(),
    ensures
        window(s.update(off + i, x), off, i + 1) == window(s, off, i).push(x),
{
    assert(window(s.update(off + i, x), off, i + 1) =~= window(s, off, i).push(x));
}

proof fn lemma_window_same(s: Seq<u64>, s0: Seq<u64>, off: int, i: int, n: int)
    requires
        0 <= off,
        0 <= i <= n,
        off + n <= s.len(),
        s.len() == s0.len(),
        forall|k: int| off + i <= k < s.len() ==> s[k] == s0[k],
    ensures
        window(s0, off, n).take(i) == window(s0, off, i),
        forall|k: int| i <= k < n ==> window(s0, off, n)[k] == s[off + k],
{
    assert(window(s0, off, n).take(i) =~= window(s0, off, i));
}

/// Subtracts `qd * v` from the `v.len() + 1` limbs of `w` at `off`; the result
/// is `true` when the difference is negative (then the window holds it plus
/// `bpow(v.len() + 1)`).
#[verifier::spinoff_prover]
pub fn sub_mul_at(w: &mut Vec<u64>, off: usize, v: &[u64], qd: u64) -> (borrow: bool)
    requires
        off + v.len() + 1 <= old(w).len(),
    ensures
        same_outside(final(w)@, old(w)@, off as int, v.len() + 1),
        lv(window(final(w)@, off as int, v.len() + 1)) + qd * lv(v@) == lv(
            window(old(w)@, off as int, v.len() + 1),
        ) + if borrow {
            bpow((v.len() + 1) as nat)
        } else {
            0
        },
{
    let n = v.len();
    let ghost w0 = w@;
    let ghost ow = window(w0, off as int, n + 1);
    let mut borrow: u64 = 0;
    let mut carry_mul: u64 = 0;
    let mut i: usize = 0;
    proof {
        assert(window(w@, off as int, 0) =~= Seq::<u64>::empty());
        assert(v@.take(0) =~= Seq::<u64>::empty());
        assert(ow.take(0) =~= Seq::<u64>::empty());
        lemma_mul_basics(qd as int);
    }
    while i < n
        invariant
            n == v.len(),
            off + n + 1 <= w.len(),
            w.len() == w0.len(),
            ow == window(w0, off as int, n + 1),
            i <= n,
            borrow <= 1,
            forall|k: int| 0 <= k < w.len() && !(off <= k < off + i) ==> w@[k] == w0[k],
            lv(window(w@, off as int, i as int)) + qd * lv(v@.take(i as int)) == lv(ow.take(i as int))
                + carry_mul * bpow(i as nat) + borrow * bpow(i as nat),
        decreases n - i,
    {
        proof {
            lemma_mul_limb_fits(v[i as int], qd, carry_mul);
        }
        let product: u128 = v[i] as u128 * qd as u128 + carry_mul as u128;
        let plo = product as u64;
        let phi = (product >> 64) as u64;
        let x = w[off + i];
        let sub: u128 = plo as u128 + borrow as u128;
        let (out, b2): (u64, u64) = if (x as u128) >= sub {
            ((x as u128 - sub) as u64, 0)
        } else {
            ((x as u128 + BASE128 - sub) as u64, 1)
        };
        proof {
            crate::integral::lemma_split_u128(product);
            lemma_fundamental_div_mod(product as int, base() as int);
            lemma_window_push(w@, off as int, i as int, out);
            lemma_lv_push(window(w@, off as int, i as int), out);
            lemma_lv_take_next(v@, i as int);
            lemma_window_same(w@, w0, off as int, i as int, n as int + 1);
            lemma_lv_take_next(ow, i as int);
            let p = bpow(i as nat) as int;
            assert(bpow((i + 1) as nat) == base() * bpow(i as nat));
            lemma_sub_mul_step(
                lv(window(w@, off as int, i as int)) as int,
                qd as int,
                lv(v@.take(i as int)) as int,
                lv(ow.take(i as int)) as int,
                carry_mul as int,
                borrow as int,
                p,
                out as int,
                b2 as int,
                x as int,
                v@[i as int] as int,
                plo as int,
                phi as int,
            );
        }
        w.set(off + i, out);
        borrow = b2;
        carry_mul = phi;
        i = i + 1;
    }
    let x = w[off + n];
    let sub: u128 = carry_mul as u128 + borrow as u128;
    let (out, b2): (u64, u64) = if (x as u128) >= sub {
        ((x as u128 - sub) as u64, 0)
    } else {
        ((x as u128 + BASE128 - sub) as u64, 1)
    };
    proof {
        assert(v@.take(n as int) =~= v@);
        lemma_window_push(w@, off as int, n as int, out);
        lemma_lv_push(window(w@, off as int, n as int), out);
        lemma_window_same(w@, w0, off as int, n as int, n as int + 1);
        lemma_lv_take_next(ow, n as int);
        assert(ow.take(n as int + 1) =~= ow);
        let p = bpow(n as nat) as int;
        assert(bpow((n + 1) as nat) == base() * bpow(n as nat));
        assert(out as int * p - b2 as int * (base() * p) == x as int * p - carry_mul as int * p
            - borrow as int * p) by (nonlinear_arith)
            requires
                out as int - b2 as int * base() == x as int - carry_mul as int - borrow as int,
        ;
    }
    w.set(off + n, out);
    b2 == 1
}

proof fn lemma_mul_limb_fits(a: u64, b: u64, c: u64)
    ensures
        a as nat * b as nat + c as nat <= u128::MAX,
{
    assert(a as nat * b as nat <= 0xffff_ffff_ffff_ffff * 0xffff_ffff_ffff_ffff) by (nonlinear_arith)
        requires
            a <= 0xffff_ffff_ffff_ffffu64,
            b <= 0xffff_ffff_ffff_ffffu64,
    ;
}

proof fn lemma_sub_mul_step(
    pw: int,
    qd: int,
    vt: int,
    ot: int,
    cm: int,
    bw: int,
    p: int,
    out: int,
    b2: int,
    x: int,
    vi: int,
    plo: int,
    phi: int,
)
    requires
        pw + qd * vt == ot + cm * p + bw * p,
        plo + phi * base() == vi * qd + cm,
        out - b2 * base() == x - plo - bw,
    ensures
        (pw + out * p) + qd * (vt + vi * p) == (ot + x * p) + phi * (base() * p) + b2 * (base() * p),
{
    assert(out * p - b2 * (base() * p) == x * p - plo * p - bw * p) by (nonlinear_arith)
        requires
            out - b2 * base() == x - plo - bw,
    ;
    assert(plo * p + phi * (base() * p) == vi * qd * p + cm * p) by (nonlinear_arith)
        requires
            plo + phi * base() == vi * qd + cm,
    ;
    assert(qd * (vt + vi * p) == qd * vt + vi * qd * p) by (nonlinear_arith);
}

/// Adds `v` to the `v.len() + 1` limbs of `w` at `off`; the result is the
/// carry out of the window.
pub fn add_at(w: &mut Vec<u64>, off: usize, v: &[u64]) -> (carry: bool)
    requires
        off + v.len() + 1 <= old(w).len(),
    ensures
        same_outside(final(w)@, old(w)@, off as int, v.len() + 1),
        lv(window(final(w)@, off as int, v.len() + 1)) + if carry {
            bpow((v.len() + 1) as nat)
        } else {
            0
        } == lv(window(old(w)@, off as int, v.len() + 1)) + lv(v@),
{
    let n = v.len();
    let ghost w0 = w@;
    let ghost ow = window(w0, off as int, n + 1);
    let mut carry: u64 = 0;
    let mut i: usize = 0;
    proof {
        assert(window(w@, off as int, 0) =~= Seq::<u64>::empty());
        assert(v@.take(0) =~= Seq::<u64>::empty());
        assert(ow.take(0) =~= Seq::<u64>::empty());
    }
    while i < n
        invariant
            n == v.len(),
            off + n + 1 <= w.len(),
            w.len() == w0.len(),
            ow == window(w0, off as int, n + 1),
            i <= n,
            carry <= 1,
            forall|k: int| 0 <= k < w.len() && !(off <= k < off + i) ==> w@[k] == w0[k],
            lv(window(w@, off as int, i as int)) + carry * bpow(i as nat) == lv(ow.take(i as int))
                + lv(v@.take(i as int)),
        decreases n - i,
    {
        let x = w[off + i];
        let s: u128 = x as u128 + v[i] as u128 + carry as u128;
        let (out, c2): (u64, u64) = if s >= BASE128 {
            ((s - BASE128) as u64, 1)
        } else {
            (s as u64, 0)
        };
        proof {
            lemma_window_push(w@, off as int, i as int, out);
            lemma_lv_push(window(w@, off as int, i as int), out);
            lemma_lv_take_next(v@, i as int);
            lemma_window_same(w@, w0, off as int, i as int, n as int + 1);
            lemma_lv_take_next(ow, i as int);
            let p = bpow(i as nat) as int;
            assert(bpow((i + 1) as nat) == base() * bpow(i as nat));
            let vi = v@[i as int] as int;
            assert(out as int * p + c2 as int * (base() * p) == x as int * p + vi * p + carry as int
                * p) by (nonlinear_arith)
                requires
                    out as int + c2 as int * base() == x as int + vi + carry as int,
            ;
        }
        w.set(off + i, out);
        carry = c2;
        i = i + 1;
    }
    let x = w[off + n];
    let (out, c2): (u64, u64) = if x == u64::MAX && carry == 1 {
        (0, 1)
    } else {
        (x + carry, 0)
    };
    proof {
        assert(v@.take(n as int) =~= v@);
        lemma_window_push(w@, off as int, n as int, out);
        lemma_lv_push(window(w@, off as int, n as int), out);
        lemma_window_same(w@, w0, off as int, n as int, n as int + 1);
        lemma_lv_take_next(ow, n as int);
        assert(ow.take(n as int + 1) =~= ow);
        let p = bpow(n as nat) as int;
        assert(bpow((n + 1) as nat) == base() * bpow(n as nat));
        assert(out as int * p + c2 as int * (base() * p) == x as int * p + carry as int * p)
            by (nonlinear_arith)
            requires
                out as int + c2 as int * base() == x as int + carry as int,
        ;
    }
    w.set(off + n, out);
    c2 == 1
}

} // verus!

verus! {

/// A vector of at least two limbs read as its top two limbs times a power of
/// the base plus the rest.
proof fn lemma_top_two(s: Seq<u64>)
    requires
        s.len() >= 2,
    ensures
        lv(s) == (s[s.len() - 1] * base() + s[s.len() - 2]) * bpow((s.len() - 2) as nat) + lv(
            s.take(s.len() - 2),
        ),
        lv(s) == s[s.len() - 1] * bpow((s.len() - 1) as nat) + lv(s.take(s.len() - 1)),
        lv(s.take(s.len() - 2)) < bpow((s.len() - 2) as nat),
        lv(s.take(s.len() - 1)) < bpow((s.len() - 1) as nat),
{
    let l = s.len() as int;
    lemma_lv_split(s, l - 2);
    lemma_lv_skip_prev(s, l - 2);
    lemma_lv_skip_prev(s, l - 1);
    assert(s.skip(l) =~= Seq::<u64>::empty());
    lemma_lv_split(s, l - 1);
    lemma_lv_bound(s.take(l - 2));
    lemma_lv_bound(s.take(l - 1));
    assert(s.take(l - 2).len() == l - 2);
    assert(s.take(l - 1).len() == l - 1);
    let p = bpow((l - 2) as nat) as int;
    assert(bpow((l - 1) as nat) == base() * bpow((l - 2) as nat));
    let a = s[l - 1] as int;
    let b = s[l - 2] as int;
    assert(p * (b + base() * (a + base() * 0)) == (a * base() + b) * p) by (nonlinear_arith);
    assert(lv(s.skip(l - 1)) == a);
    lemma_mul_is_commutative(bpow((l - 1) as nat) as int, a);
}

/// Facts about the quotient digit `W / V` for a window `W` below `B * V`.
proof fn lemma_digit_estimate(win: Seq<u64>, vn: Seq<u64>, qh: int, rh: int)
    requires
        vn.len() >= 2,
        win.len() == vn.len() + 1,
        vn[vn.len() - 1] > 0,
        lv(win) < base() * lv(vn),
        qh >= 0,
        qh * vn[vn.len() - 1] + rh == win[vn.len() as int] * base() + win[vn.len() - 1],
    ensures
        lv(vn) > 0,
        lv(win) / lv(vn) < base(),
        (win[vn.len() as int] * base() + win[vn.len() - 1]) / (vn[vn.len() - 1] as int) >= lv(win)
            / lv(vn),
        qh * vn[vn.len() - 2] > rh * base() + win[vn.len() - 2] ==> qh > lv(win) / lv(vn),
{
    let n = vn.len() as int;
    lemma_top_two(win);
    lemma_top_two(vn);
    let w = lv(win) as int;
    let v = lv(vn) as int;
    let vtop = vn[n - 1] as int;
    let vnext = vn[n - 2] as int;
    let num = win[n] * base() + win[n - 1];
    let n3 = num * base() + win[n - 2];
    let p1 = bpow((n - 1) as nat) as int;
    let p2 = bpow((n - 2) as nat) as int;
    lemma_bpow_pos((n - 1) as nat);
    lemma_bpow_pos((n - 2) as nat);
    assert(p1 == base() * p2);
    assert(v >= vtop * p1);
    assert(v > 0) by (nonlinear_arith)
        requires
            v >= vtop * p1,
            vtop > 0,
            p1 > 0,
    ;
    let q = w / v;
    lemma_fundamental_div_mod(w, v);
    lemma_mod_bound(w, v);
    assert(q * v <= w);
    assert(q >= 0) by (nonlinear_arith)
        requires
            w >= 0,
            v > 0,
            q == w / v,
    ;
    // the digit fits a limb
    assert(q < base()) by (nonlinear_arith)
        requires
            q * v <= w,
            w < base() * v,
            v > 0,
    ;
    // the two-limb estimate is not below the digit
    assert(w < (num + 1) * p1) by (nonlinear_arith)
        requires
            w == num * p1 + lv(win.take(n - 1)),
            lv(win.take(n - 1)) < p1,
    ;
    assert(q * vtop <= num) by (nonlinear_arith)
        requires
            q * v <= w,
            w < (num + 1) * p1,
            v >= vtop * p1,
            q >= 0,
            p1 > 0,
    ;
    lemma_fundamental_div_mod(num, vtop);
    lemma_mod_bound(num, vtop);
    assert(num / vtop >= q) by (nonlinear_arith)
        requires
            q * vtop <= num,
            num == vtop * (num / vtop) + num % vtop,
            num % vtop < vtop,
            vtop > 0,
    ;
    // the refinement test only fires when the estimate is too large
    if qh * vnext > rh * base() + win[n - 2] {
        let t = vtop * base() + vnext;
        assert(qh * t > n3) by (nonlinear_arith)
            requires
                qh * vtop + rh == num,
                qh * vnext > rh * base() + win[n - 2],
                t == vtop * base() + vnext,
                n3 == num * base() + win[n - 2],
        ;
        assert(v >= t * p2) by (nonlinear_arith)
            requires
                v == (vtop * base() + vnext) * p2 + lv(vn.take(n - 2)),
                t == vtop * base() + vnext,
                lv(vn.take(n - 2)) >= 0,
        ;
        lemma_lv_take_next(win, n - 2);
        lemma_lv_bound(win.take(n - 2));
        assert(win.take(n - 2).len() == n - 2);
        assert(w == n3 * p2 + lv(win.take(n - 2))) by (nonlinear_arith)
            requires
                w == num * p1 + lv(win.take(n - 1)),
                lv(win.take(n - 1)) == lv(win.take(n - 2)) + win[n - 2] * p2,
                p1 == base() * p2,
                n3 == num * base() + win[n - 2],
        ;
        assert(w < (n3 + 1) * p2) by (nonlinear_arith)
            requires
                w == n3 * p2 + lv(win.take(n - 2)),
                lv(win.take(n - 2)) < p2,
        ;
        assert(qh * v > q * v) by (nonlinear_arith)
            requires
                qh * t > n3,
                v >= t * p2,
                w < (n3 + 1) * p2,
                q * v <= w,
                qh >= 0,
                p2 > 0,
        ;
        assert(qh > q) by (nonlinear_arith)
            requires
                qh * v > q * v,
                v > 0,
        ;
    }
}

/// One step of the long division: replaces the window of `vn.len() + 1` limbs
/// at `j` by its remainder modulo `lv(vn)` and returns the quotient digit.
pub fn divrem_step(w: &mut Vec<u64>, j: usize, vn: &[u64]) -> (qd: u64)
    requires
        vn.len() >= 2,
        vn@[vn.len() - 1] != 0,
        j + vn.len() + 1 <= old(w).len(),
        lv(window(old(w)@, j as int, vn.len() + 1)) < base() * lv(vn@),
    ensures
        same_outside(final(w)@, old(w)@, j as int, vn.len() + 1),
        lv(window(final(w)@, j as int, vn.len() + 1)) + qd * lv(vn@) == lv(
            window(old(w)@, j as int, vn.len() + 1),
        ),
        lv(window(final(w)@, j as int, vn.len() + 1)) < lv(vn@),
{
    let n = vn.len();
    let ghost w0 = w@;
    let ghost win = window(w0, j as int, n + 1);
    let ghost big_w = lv(win) as int;
    let ghost v = lv(vn@) as int;
    let vtop = vn[n - 1];
    let vnext = vn[n - 2];
    let num: u128 = w[j + n] as u128 * BASE128 + w[j + n - 1] as u128;
    let mut qhat: u128 = num / (vtop as u128);
    let mut rhat: u128 = num % (vtop as u128);
    proof {
        lemma_fundamental_div_mod(num as int, vtop as int);
        lemma_mod_bound(num as int, vtop as int);
        assert(win[n as int] == w0[j + n]);
        assert(win[n - 1] == w0[j + n - 1]);
        assert(win[n - 2] == w0[j + n - 2]);
        lemma_mul_is_commutative(vtop as int, qhat as int);
        lemma_digit_estimate(win, vn@, qhat as int, rhat as int);
    }
    let ghost q = big_w / v;
    proof {
        lemma_mul_is_commutative(vtop as int, (num / (vtop as u128)) as int);
    }
    if qhat >= BASE128 {
        qhat = BASE128 - 1;
        proof {
            assert(num as int >= qhat * vtop) by (nonlinear_arith)
                requires
                    num as int == vtop as int * (num as int / vtop as int) + num as int % vtop as int,
                    num as int / vtop as int >= BASE128,
                    num as int % vtop as int >= 0,
                    qhat == BASE128 - 1,
            ;
        }
        rhat = num - qhat * (vtop as u128);
    }
    proof {
        assert(qhat as int * vnext as int <= (BASE128 - 1) as int * 0xffff_ffff_ffff_ffff)
            by (nonlinear_arith)
            requires
                qhat < BASE128,
                vnext <= 0xffff_ffff_ffff_ffffu64,
        ;
    }
    while rhat < BASE128 && qhat * (vnext as u128) > rhat * BASE128 + w[j + n - 2] as u128
        invariant
            n == vn.len(),
            n >= 2,
            vtop == vn@[n - 1],
            vnext == vn@[n - 2],
            vtop > 0,
            w@ == w0,
            j + n + 1 <= w.len(),
            win == window(w0, j as int, n + 1),
            big_w == lv(win),
            v == lv(vn@),
            big_w < base() * v,
            q == big_w / v,
            num == win[n as int] * base() + win[n - 1],
            win[n - 2] == w0[j + n - 2],
            qhat * vtop + rhat == num,
            q <= qhat < BASE128,
            qhat as int * vnext as int <= (BASE128 - 1) as int * 0xffff_ffff_ffff_ffff,
        decreases qhat,
    {
        proof {
            lemma_digit_estimate(win, vn@, qhat as int, rhat as int);
        }
        let ghost q0 = qhat;
        qhat = qhat - 1;
        rhat = rhat + vtop as u128;
        proof {
            assert(qhat * vtop + rhat == num) by (nonlinear_arith)
                requires
                    q0 * vtop + (rhat - vtop) == num,
                    qhat == q0 - 1,
            ;
            assert(qhat as int * vnext as int <= (BASE128 - 1) as int * 0xffff_ffff_ffff_ffff)
                by (nonlinear_arith)
                requires
                    q0 as int * vnext as int <= (BASE128 - 1) as int * 0xffff_ffff_ffff_ffff,
                    qhat == q0 - 1,
                    vnext >= 0,
            ;
        }
    }
    let mut qd = qhat as u64;
    let mut negative = sub_mul_at(w, j, vn, qd);
    while negative
        invariant
            n == vn.len(),
            j + n + 1 <= w.len(),
            same_outside(w@, w0, j as int, n + 1),
            win == window(w0, j as int, n + 1),
            big_w == lv(win),
            v == lv(vn@),
            v > 0,
            q == big_w / v,
            q <= qd,
            lv(window(w@, j as int, n + 1)) + qd * v == big_w + if negative {
                bpow((n + 1) as nat)
            } else {
                0
            },
        decreases qd,
    {
        proof {
            lemma_lv_bound(window(w@, j as int, n + 1));
            lemma_fundamental_div_mod(big_w, v);
            assert(q < qd) by (nonlinear_arith)
                requires
                    lv(window(w@, j as int, n + 1)) + qd * v == big_w + bpow((n + 1) as nat),
                    lv(window(w@, j as int, n + 1)) < bpow((n + 1) as nat),
                    big_w == v * q + big_w % v,
                    big_w % v >= 0,
                    v > 0,
            ;
        }
        let ghost x0 = lv(window(w@, j as int, n + 1)) as int;
        let ghost qd0 = qd as int;
        let ghost wbefore = w@;
        qd = qd - 1;
        let carry = add_at(w, j, vn);
        negative = !carry;
        proof {
            assert(same_outside(w@, w0, j as int, n + 1));
            let x1 = lv(window(w@, j as int, n + 1)) as int;
            let bb = bpow((n + 1) as nat) as int;
            assert(x1 + qd * v == big_w + if negative { bb } else { 0 }) by (nonlinear_arith)
                requires
                    x0 + qd0 * v == big_w + bb,
                    x1 + (if carry { bb } else { 0 }) == x0 + v,
                    qd == qd0 - 1,
                    negative == !carry,
            ;
        }
    }
    proof {
        lemma_fundamental_div_mod(big_w, v);
        lemma_mod_bound(big_w, v);
        assert(lv(window(w@, j as int, n + 1)) < v) by (nonlinear_arith)
            requires
                lv(window(w@, j as int, n + 1)) + qd * v == big_w,
                big_w == v * q + big_w % v,
                big_w % v < v,
                q <= qd,
                v > 0,
        ;
    }
    qd
}

} // verus!

verus! {

/// A value below `bpow(n)` with a nonzero top limb is at least `bpow(n - 1)`;
/// the converse bound as well.
proof fn lemma_top_nonzero_iff(s: Seq<u64>)
    requires
        s.len() >= 1,
    ensures
        (s[s.len() - 1] != 0) == (lv(s) >= bpow((s.len() - 1) as nat)),
{
    let l = s.len() as int;
    assert(s.drop_last() =~= s.take(l - 1));
    lemma_lv_bound(s.take(l - 1));
    let p = bpow((l - 1) as nat) as int;
    let x = s[l - 1] as int;
    assert(lv(s) == lv(s.take(l - 1)) + x * p);
    if x != 0 {
        assert(x * p >= p) by (nonlinear_arith)
            requires
                x >= 1,
                p >= 0,
        ;
    } else {
        lemma_mul_basics(p);
    }
}

/// The window of `n + 1` limbs at `j` holds all of `s` from `j` on when the
/// limbs above it are zero.
proof fn lemma_skip_is_window(s: Seq<u64>, j: int, n: int)
    requires
        0 <= j,
        0 <= n,
        j + n + 1 <= s.len(),
        zero_from(s, j + n + 1),
    ensures
        lv(s.skip(j)) == lv(window(s, j, n + 1)),
{
    let t = s.skip(j);
    lemma_lv_zero_from(t, n + 1);
    assert(t.take(n + 1) =~= window(s, j, n + 1));
}

/// Bookkeeping of one step of the long division.
proof fn lemma_step_bookkeeping(
    w0: Seq<u64>,
    w1: Seq<u64>,
    q0: Seq<u64>,
    q1: Seq<u64>,
    j: int,
    n: int,
    qd: u64,
    v: int,
    u: int,
)
    requires
        n >= 1,
        0 <= j,
        j + n + 1 <= w0.len(),
        j < q0.len(),
        q1 == q0.update(j, qd),
        same_outside(w1, w0, j, n + 1),
        zero_from(w0, j + n + 1),
        lv(window(w1, j, n + 1)) + qd * v == lv(window(w0, j, n + 1)),
        lv(window(w1, j, n + 1)) < v,
        v > 0,
        v < bpow(n as nat),
        lv(w0) + lv(q0.skip(j + 1)) * v * bpow((j + 1) as nat) == u,
    ensures
        lv(w1) + lv(q1.skip(j)) * v * bpow(j as nat) == u,
        zero_from(w1, j + n),
        lv(w1.skip(j)) < v,
{
    let x = lv(window(w1, j, n + 1)) as int;
    let big_w = lv(window(w0, j, n + 1)) as int;
    assert(zero_from(w1, j + n + 1));
    lemma_skip_is_window(w1, j, n);
    lemma_skip_is_window(w0, j, n);
    lemma_lv_small_zero_from(window(w1, j, n + 1), n);
    assert(zero_from(w1, j + n)) by {
        assert forall|k: int| j + n <= k < w1.len() implies w1[k] == 0 by {
            if k == j + n {
                assert(window(w1, j, n + 1)[n] == w1[k]);
            }
        }
    }
    lemma_lv_split(w0, j);
    lemma_lv_split(w1, j);
    assert(w1.take(j) =~= w0.take(j));
    let pj = bpow(j as nat) as int;
    lemma_lv_skip_prev(q1, j);
    assert(q1.skip(j + 1) =~= q0.skip(j + 1));
    assert(bpow((j + 1) as nat) == base() * bpow(j as nat));
    let qk = lv(q0.skip(j + 1)) as int;
    assert(lv(w1) + (qd + base() * qk) * v * pj == lv(w0) + qk * v * (base() * pj)) by (nonlinear_arith)
        requires
            lv(w1) == lv(w1.take(j)) + pj * x,
            lv(w0) == lv(w1.take(j)) + pj * big_w,
            x + qd * v == big_w,
    ;
}

/// Quotient and remainder of long division of `u` by `v`, where `v` has at
/// least two limbs and a nonzero top limb, and `u` has at least as many
/// limbs as `v`.
pub fn divrem_limbs(u: &[u64], v: &[u64]) -> (r: (Vec<u64>, Vec<u64>))
    requires
        v.len() >= 2,
        v@[v.len() - 1] != 0,
        u.len() >= v.len(),
        u.len() < usize::MAX,
    ensures
        r.0.len() == u.len() - v.len() + 1,
        r.1.len() == v.len(),
        lv(u@) == lv(r.0@) * lv(v@) + lv(r.1@),
        lv(r.1@) < lv(v@),
{
    let n = v.len();
    let ul = u.len();
    let top = v[n - 1];
    let shift = top.leading_zeros();
    proof {
        lemma_normalize_fits(top, shift);
        lemma_pow2_pos(shift as nat);
    }
    let d: u64 = 1u64 << shift;
    let (vn, vcarry) = limbs::mul_small(v, d);
    let (mut w, ucarry) = limbs::mul_small(u, d);
    proof {
        lemma_lv_push(w@, ucarry);
    }
    w.push(ucarry);
    let ghost big_u = lv(w@) as int;
    let ghost big_v = lv(vn@) as int;
    proof {
        lemma_normalized_divisor(v@, vn@, d, vcarry);
        lemma_lv_bound(u@);
        lemma_lv_bound(vn@);
        lemma_top_nonzero_iff(vn@);
    }
    let m = ul - n;
    let mut q = crate::integral::zero_limbs(m + 1);
    let mut k = m + 1;
    proof {
        assert(q@.skip((m + 1) as int) =~= Seq::<u64>::empty());
        lemma_mul_basics(big_v);
        lemma_mul_basics(bpow((m + 1) as nat) as int);
        lemma_first_window(u@, v@, w@, d, m as int, n as int);
    }
    while k > 0
        invariant
            n == vn.len(),
            n >= 2,
            vn@[n - 1] != 0,
            w.len() == ul + 1,
            ul == m + n,
            q.len() == m + 1,
            k <= m + 1,
            big_v == lv(vn@),
            big_v > 0,
            big_v < bpow(n as nat),
            lv(w@) + lv(q@.skip(k as int)) * big_v * bpow(k as nat) == big_u,
            zero_from(w@, (k + n) as int),
            lv(w@.skip(k as int)) < big_v,
        decreases k,
    {
        let j = k - 1;
        proof {
            lemma_skip_is_window(w@, j as int, n as int);
            lemma_lv_skip_prev(w@, j as int);
            assert(lv(w@.skip(j as int)) < base() * big_v) by (nonlinear_arith)
                requires
                    lv(w@.skip(j as int)) == w@[j as int] + base() * lv(w@.skip(k as int)),
                    lv(w@.skip(k as int)) < big_v,
                    w@[j as int] < base(),
            ;
        }
        let ghost w_before = w@;
        let ghost q_before = q@;
        let qd = divrem_step(&mut w, j, &vn);
        q.set(j, qd);
        proof {
            lemma_step_bookkeeping(
                w_before,
                w@,
                q_before,
                q@,
                j as int,
                n as int,
                qd,
                big_v,
                big_u,
            );
        }
        k = j;
    }
    proof {
        assert(q@.skip(0) =~= q@);
        assert(w@.skip(0) =~= w@);
        assert(bpow(0) == 1);
        lemma_lv_zero_from(w@, n as int);
        lemma_mul_basics(lv(q@) * big_v);
        assert(lv(w@) + lv(q@) * big_v == big_u);
    }
    w.truncate(n);
    let (r, rem) = limbs::div_small(&w, d);
    proof {
        lemma_unnormalize(lv(u@) as int, lv(v@) as int, lv(q@) as int, lv(r@) as int, rem as int, d as int, big_u, big_v, lv(w@) as int);
    }
    (q, r)
}

/// Shifting the top limb left by its leading zeros keeps it below `2^64`.
proof fn lemma_normalize_fits(top: u64, shift: u32)
    requires
        top != 0,
        shift as int == u64_leading_zeros(top),
    ensures
        shift < 64,
        (1u64 << shift) as nat == pow2(shift as nat),
        (top as nat + 1) * pow2(shift as nat) <= base(),
{
    axiom_u64_leading_zeros(top);
    lemma_u64_pow2_no_overflow(shift as nat);
    lemma_u64_shl_is_mul(1, shift as u64);
    if shift == 0 {
        lemma2_to64();
    } else {
        let e = (64 - shift) as u64;
        assert(top >> e == 0);
        lemma_u64_shr_is_div(top, e);
        lemma_pow2_pos(e as nat);
        lemma_fundamental_div_mod(top as int, pow2(e as nat) as int);
        lemma_mod_bound(top as int, pow2(e as nat) as int);
        assert((top as nat) < pow2(e as nat));
        lemma_pow2_adds(e as nat, shift as nat);
        lemma_pow2_64();
        lemma_mul_inequality(top as int + 1, pow2(e as nat) as int, pow2(shift as nat) as int);
    }
}

/// The normalized divisor fits its limbs and keeps a nonzero top limb.
proof fn lemma_normalized_divisor(v: Seq<u64>, vn: Seq<u64>, d: u64, vcarry: u64)
    requires
        v.len() >= 2,
        v[v.len() - 1] != 0,
        vn.len() == v.len(),
        lv(vn) + vcarry as nat * bpow(v.len() as nat) == lv(v) * d,
        (v[v.len() - 1] as nat + 1) * d as nat <= base(),
        d >= 1,
    ensures
        vcarry == 0,
        lv(vn) == lv(v) * d,
        lv(vn) >= bpow((v.len() - 1) as nat),
{
    let n = v.len() as int;
    let p = bpow((n - 1) as nat) as int;
    assert(v.drop_last() =~= v.take(n - 1));
    lemma_lv_bound(v.take(n - 1));
    let top = v[n - 1] as int;
    assert(lv(v) == lv(v.take(n - 1)) + top * p);
    assert(bpow(n as nat) == base() * bpow((n - 1) as nat));
    lemma_bpow_pos((n - 1) as nat);
    assert(lv(v) * d < bpow(n as nat)) by (nonlinear_arith)
        requires
            lv(v) == lv(v.take(n - 1)) + top * p,
            lv(v.take(n - 1)) < p,
            (top + 1) * d <= base(),
            bpow(n as nat) == base() * p,
            d >= 1,
            p > 0,
    ;
    if vcarry > 0 {
        assert(vcarry as nat * bpow(n as nat) >= bpow(n as nat)) by (nonlinear_arith)
            requires
                vcarry > 0,
        ;
    }
    assert(lv(v) * d >= p) by (nonlinear_arith)
        requires
            lv(v) == lv(v.take(n - 1)) + top * p,
            lv(v.take(n - 1)) >= 0,
            top >= 1,
            d >= 1,
            p > 0,
    ;
}

/// The top `n` limbs of the normalized dividend are below the normalized
/// divisor.
proof fn lemma_first_window(u: Seq<u64>, v: Seq<u64>, w: Seq<u64>, d: u64, m: int, n: int)
    requires
        n >= 2,
        m >= 0,
        u.len() == m + n,
        w.len() == m + n + 1,
        lv(w) == lv(u) * d,
        v.len() == n,
        v[n - 1] != 0,
        d >= 1,
    ensures
        lv(w.skip(m + 1)) < lv(v) * d,
        zero_from(w, m + 1 + n),
{
    lemma_lv_bound(u);
    lemma_lv_split(w, m + 1);
    lemma_top_nonzero_iff(v);
    lemma_bpow_add((m + 1) as nat, (n - 1) as nat);
    lemma_bpow_pos((m + 1) as nat);
    let pm = bpow((m + 1) as nat) as int;
    let pn = bpow((n - 1) as nat) as int;
    assert(u.len() == (m + 1) as nat + (n - 1) as nat);
    assert(lv(u) < pm * pn);
    let hi = lv(w.skip(m + 1)) as int;
    assert(hi * pm <= lv(w)) by (nonlinear_arith)
        requires
            lv(w) == lv(w.take(m + 1)) + pm * hi,
            lv(w.take(m + 1)) >= 0,
    ;
    assert(hi < pn * d) by (nonlinear_arith)
        requires
            hi * pm <= lv(u) * d,
            lv(u) < pm * pn,
            d >= 1,
            pm > 0,
    ;
    assert(pn * d <= lv(v) * d) by (nonlinear_arith)
        requires
            lv(v) >= pn,
            d >= 1,
    ;
}

/// Undoing the normalization of the remainder.
proof fn lemma_unnormalize(u: int, v: int, q: int, r: int, rem: int, d: int, bu: int, bv: int, rn: int)
    requires
        d >= 1,
        bu == u * d,
        bv == v * d,
        rn + q * bv == bu,
        rn < bv,
        rn == r * d + rem,
        0 <= rem < d,
        r >= 0,
        q >= 0,
    ensures
        u == q * v + r,
        r < v,
{
    assert((u - q * v - r) * d == rem) by (nonlinear_arith)
        requires
            bu == u * d,
            bv == v * d,
            rn + q * bv == bu,
            rn == r * d + rem,
    ;
    if u - q * v - r > 0 {
        assert((u - q * v - r) * d >= d) by (nonlinear_arith)
            requires
                u - q * v - r >= 1,
                d >= 1,
        ;
    }
    if u - q * v - r < 0 {
        assert((u - q * v - r) * d <= -d) by (nonlinear_arith)
            requires
                u - q * v - r <= -1,
                d >= 1,
        ;
    }
    assert(r * d < v * d);
    assert(r < v) by (nonlinear_arith)
        requires
            r * d < v * d,
            d >= 1,
    ;
}

} // verus!

verus! {

/// The quotient and remainder of `u` by a nonzero single limb, as integers of
/// the given width.
fn single_limb_divrem(width: usize, u: &Vec<u64>, d: u64, Ghost(a): Ghost<nat>) -> (r: (ApInt, ApInt))
    requires
        width > 0,
        d > 0,
        lv(u@) == a,
        a < pow2(width as nat),
    ensures
        r.0@ == (IntModel { width: width as nat, value: a / (d as nat) }),
        r.1@ == (IntModel { width: width as nat, value: a % (d as nat) }),
{
    let (q, rem) = limbs::div_small(u, d);
    let mut rv: Vec<u64> = Vec::new();
    rv.push(rem);
    proof {
        lemma_lv_single(rem);
        assert(rv@ =~= seq![rem]);
        lemma_fundamental_div_mod_converse(a as int, d as int, lv(q@) as int, rem as int);
        lemma_div_is_ordered_by_denominator(a as int, 1, d as int);
        lemma_pow2_pos(width as nat);
        lemma_small_mod(lv(q@), pow2(width as nat));
        lemma_small_mod(rem as nat, pow2(width as nat));
    }
    (ApInt::from_limbs(width, q), ApInt::from_limbs(width, rv))
}

/// The number of limbs up to and including the most significant nonzero one.
fn significant_len(s: &Vec<u64>) -> (k: usize)
    ensures
        k <= s.len(),
        zero_from(s@, k as int),
        k > 0 ==> s@[k - 1] != 0,
{
    let mut k = s.len();
    while k > 0 && s[k - 1] == 0
        invariant
            k <= s.len(),
            zero_from(s@, k as int),
        decreases k,
    {
        k = k - 1;
    }
    k
}

impl ApInt {
    /// Unsigned quotient and remainder by Knuth's Algorithm D, with fast paths
    /// for a zero dividend, a dividend below the divisor, and a single-limb
    /// divisor.
    pub(crate) fn _udivrem_knuthd_impl(&self, rhs: &Self) -> (r: (Self, Self))
        requires
            self@.width == rhs@.width,
            self@.width > 0,
            self@.value < pow2(self@.width),
            rhs@.value != 0,
        ensures
            r.0@ == udiv_model(self@, rhs@),
            r.1@ == urem_model(self@, rhs@),
    {
        let width = self.width();
        let ghost a = self@.value;
        let ghost b = rhs@.value;
        if self.is_zero() {
            proof {
                lemma_basic_div(0, b as int);
                lemma_small_mod(0, b);
            }
            return (ApInt::zero(width), ApInt::zero(width));
        }
        if self.ult(rhs) {
            proof {
                lemma_basic_div(a as int, b as int);
                lemma_small_mod(a, b);
            }
            return (ApInt::zero(width), self.clone());
        }
        let u = self.get_limbs();
        let v = rhs.get_limbs();
        let n = u.len();
        proof {
            lemma_num_limbs_bound(width as nat);
        }
        let divisor_len = significant_len(v);
        proof {
            lemma_lv_zero_from(v@, divisor_len as int);
            if divisor_len == 0 {
                assert(v@.take(0) =~= Seq::<u64>::empty());
            }
        }
        if divisor_len == 1 {
            proof {
                assert(v@.take(1) =~= seq![v@[0]]);
                lemma_lv_single(v@[0]);
            }
            return single_limb_divrem(width, u, v[0], Ghost(a));
        }
        let vs = vstd::slice::slice_subrange(v.as_slice(), 0, divisor_len);
        proof {
            assert(vs@ =~= v@.take(divisor_len as int));
        }
        let (q, r) = divrem_limbs(u.as_slice(), vs);
        proof {
            lemma_fundamental_div_mod_converse(a as int, b as int, lv(q@) as int, lv(r@) as int);
            lemma_div_is_ordered_by_denominator(a as int, 1, b as int);
            lemma_pow2_pos(width as nat);
            lemma_small_mod(lv(q@), pow2(width as nat));
            lemma_small_mod(lv(r@), pow2(width as nat));
        }
        (ApInt::from_limbs(width, q), ApInt::from_limbs(width, r))
    }

    /// Unsigned quotient by Knuth's Algorithm D.
    pub(crate) fn _udiv_knuthd_impl(&self, rhs: &Self) -> (r: Self)
        requires
            self@.width == rhs@.width,
            self@.width > 0,
            self@.value < pow2(self@.width),
            rhs@.value != 0,
        ensures
            r@ == udiv_model(self@, rhs@),
    {
        self._udivrem_knuthd_impl(rhs).0
    }

    /// Unsigned remainder by Knuth's Algorithm D.
    pub(crate) fn _urem_knuthd_impl(&self, rhs: &Self) -> (r: Self)
        requires
            self@.width == rhs@.width,
            self@.width > 0,
            self@.value < pow2(self@.width),
            rhs@.value != 0,
        ensures
            r@ == urem_model(self@, rhs@),
    {
        self._udivrem_knuthd_impl(rhs).1
    }
}

} // verus!
