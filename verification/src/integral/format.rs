//! Hexadecimal text of an `ApInt`.
use crate::integral::model::{digit, limbs_of, num_limbs_spec};
use crate::integral::ApInt;
use vstd::prelude::*;

verus! {

/// The ASCII byte of a hexadecimal digit (lower case).
pub open spec fn hex_byte(d: nat) -> u8 {
    if d < 10 {
        (48 + d) as u8
    } else {
        (87 + d) as u8
    }
}

/// The `k` least significant hexadecimal digits of `x`, most significant first.
pub open spec fn hex_fixed(x: nat, k: nat) -> Seq<u8>
    decreases k,
{
    if k == 0 {
        Seq::empty()
    } else {
        hex_fixed(x / 16, (k - 1) as nat).push(hex_byte(x % 16))
    }
}

/// The hexadecimal digits of `x` without leading zeros (`0` for zero).
pub open spec fn hex_min(x: nat) -> Seq<u8>
    decreases x,
{
    if x < 16 {
        seq![hex_byte(x)]
    } else {
        hex_min(x / 16).push(hex_byte(x % 16))
    }
}

/// The decimal digits of `x` without leading zeros (`0` for zero).
pub open spec fn dec_min(x: nat) -> Seq<u8>
    decreases x,
{
    if x < 10 {
        seq![(48 + x) as u8]
    } else {
        dec_min(x / 10).push((48 + x % 10) as u8)
    }
}

/// The limbs of `t` from the most significant down, each as 16 hexadecimal
/// digits preceded by `sep`.
pub open spec fn lower_hex(t: Seq<u64>, sep: Seq<u8>) -> Seq<u8>
    decreases t.len(),
{
    if t.len() == 0 {
        Seq::empty()
    } else {
        sep + hex_fixed(t.last() as nat, 16) + lower_hex(t.drop_last(), sep)
    }
}

/// Limbs as hexadecimal: the top limb without leading zeros, the others as 16
/// digits each, with `sep` between limbs.
pub open spec fn hex_body(s: Seq<u64>, sep: Seq<u8>) -> Seq<u8> {
    if s.len() == 0 {
        Seq::empty()
    } else {
        hex_min(s.last() as nat) + lower_hex(s.drop_last(), sep)
    }
}

/// The text `0x` followed by the limbs of `s` in hexadecimal.
pub open spec fn display_bytes(s: Seq<u64>) -> Seq<u8> {
    seq![48u8, 120u8] + hex_body(s, Seq::empty())
}

/// The text `ApInt(<width> bits: <limbs>)`, limbs in hexadecimal separated by
/// underscores.
pub open spec fn debug_bytes(width: nat, s: Seq<u64>) -> Seq<u8> {
    seq![65u8, 112u8, 73u8, 110u8, 116u8, 40u8] + dec_min(width) + seq![
        32u8,
        98u8,
        105u8,
        116u8,
        115u8,
        58u8,
        32u8,
    ] + hex_body(s, seq![95u8]) + seq![41u8]
}

/// The characters of ASCII bytes.
pub open spec fn ascii_chars(b: Seq<u8>) -> Seq<char> {
    b.map(|i: int, x: u8| x as char)
}

pub open spec fn is_ascii_bytes(b: Seq<u8>) -> bool {
    forall|i: int| 0 <= i < b.len() ==> b[i] < 128
}

/// Text from ASCII bytes, by `String::from_utf8_lossy`, which keeps valid
/// UTF-8 (and so ASCII) unchanged: the result has one character per byte,
/// with the byte's code.
#[verifier::external_body]
fn ascii_string(bytes: &[u8]) -> (s: String)
    requires
        is_ascii_bytes(bytes@),
    ensures
        s@ == ascii_chars(bytes@),
{
    String::from_utf8_lossy(bytes).into_owned()
}

fn hex_digit_byte(d: u64) -> (b: u8)
    requires
        d < 16,
    ensures
        b == hex_byte(d as nat),
        b < 128,
{
    if d < 10 {
        48 + d as u8
    } else {
        87 + d as u8
    }
}

fn push_hex_fixed(out: &mut Vec<u8>, x: u64, k: usize)
    ensures
        final(out)@ == old(out)@ + hex_fixed(x as nat, k as nat),
    decreases k,
{
    if k == 0 {
        proof {
            assert(old(out)@ + Seq::<u8>::empty() =~= old(out)@);
        }
        return ;
    }
    push_hex_fixed(out, x / 16, k - 1);
    let b = hex_digit_byte(x % 16);
    out.push(b);
    proof {
        assert(old(out)@ + hex_fixed(x as nat, k as nat) =~= old(out)@ + hex_fixed(
            (x / 16) as nat,
            (k - 1) as nat,
        ) + seq![b]);
    }
}

fn push_hex_min(out: &mut Vec<u8>, x: u64)
    ensures
        final(out)@ == old(out)@ + hex_min(x as nat),
    decreases x,
{
    if x < 16 {
        let b = hex_digit_byte(x);
        out.push(b);
        proof {
            assert(old(out)@.push(b) =~= old(out)@ + seq![b]);
        }
        return ;
    }
    push_hex_min(out, x / 16);
    let b = hex_digit_byte(x % 16);
    out.push(b);
    proof {
        assert(old(out)@ + hex_min(x as nat) =~= old(out)@ + hex_min((x / 16) as nat) + seq![b]);
    }
}

fn push_dec_min(out: &mut Vec<u8>, x: usize)
    ensures
        final(out)@ == old(out)@ + dec_min(x as nat),
    decreases x,
{
    if x < 10 {
        let b = 48 + x as u8;
        out.push(b);
        proof {
            assert(old(out)@.push(b) =~= old(out)@ + seq![b]);
        }
        return ;
    }
    push_dec_min(out, x / 10);
    let b = 48 + (x % 10) as u8;
    out.push(b);
    proof {
        assert(old(out)@ + dec_min(x as nat) =~= old(out)@ + dec_min((x / 10) as nat) + seq![b]);
    }
}

proof fn lemma_hex_fixed_ascii(x: nat, k: nat)
    ensures
        is_ascii_bytes(hex_fixed(x, k)),
    decreases k,
{
    if k > 0 {
        lemma_hex_fixed_ascii(x / 16, (k - 1) as nat);
    }
}

proof fn lemma_hex_min_ascii(x: nat)
    ensures
        is_ascii_bytes(hex_min(x)),
    decreases x,
{
    if x >= 16 {
        lemma_hex_min_ascii(x / 16);
    }
}

proof fn lemma_dec_min_ascii(x: nat)
    ensures
        is_ascii_bytes(dec_min(x)),
    decreases x,
{
    if x >= 10 {
        lemma_dec_min_ascii(x / 10);
    }
}

proof fn lemma_lower_hex_ascii(t: Seq<u64>, sep: Seq<u8>)
    requires
        is_ascii_bytes(sep),
    ensures
        is_ascii_bytes(lower_hex(t, sep)),
    decreases t.len(),
{
    if t.len() > 0 {
        lemma_hex_fixed_ascii(t.last() as nat, 16);
        lemma_lower_hex_ascii(t.drop_last(), sep);
    }
}

/// Appends the limbs in hexadecimal (see `hex_body`).
fn push_hex_body(out: &mut Vec<u8>, s: &Vec<u64>, sep: &[u8])
    requires
        s.len() > 0,
        is_ascii_bytes(old(out)@),
        is_ascii_bytes(sep@),
    ensures
        final(out)@ == old(out)@ + hex_body(s@, sep@),
        is_ascii_bytes(final(out)@),
{
    let n = s.len();
    let ghost full = old(out)@ + hex_body(s@, sep@);
    push_hex_min(out, s[n - 1]);
    proof {
        assert(s@.drop_last() =~= s@.take(n - 1));
        assert(full =~= out@ + lower_hex(s@.take(n - 1), sep@));
        lemma_hex_min_ascii(s@[n - 1] as nat);
        lemma_lower_hex_ascii(s@, sep@);
    }
    let mut i = n - 1;
    while i > 0
        invariant
            i < n,
            n == s.len(),
            full == out@ + lower_hex(s@.take(i as int), sep@),
            is_ascii_bytes(out@),
            is_ascii_bytes(sep@),
        decreases i,
    {
        let ghost before = out@;
        let mut k: usize = 0;
        while k < sep.len()
            invariant
                k <= sep.len(),
                out@ == before + sep@.take(k as int),
            decreases sep.len() - k,
        {
            out.push(sep[k]);
            k = k + 1;
            proof {
                assert(out@ =~= before + sep@.take(k as int));
            }
        }
        push_hex_fixed(out, s[i - 1], 16);
        proof {
            let t = s@.take(i as int);
            assert(t.last() == s@[i - 1]);
            assert(t.drop_last() =~= s@.take(i - 1));
            assert(sep@.take(sep.len() as int) =~= sep@);
            assert(full =~= out@ + lower_hex(s@.take(i - 1), sep@));
            lemma_hex_fixed_ascii(s@[i - 1] as nat, 16);
        }
        i = i - 1;
    }
    proof {
        assert(s@.take(0) =~= Seq::<u64>::empty());
        assert(full =~= out@);
    }
}

impl ApInt {
    /// The value as `0x` followed by the limbs in hexadecimal, most significant
    /// first: the top limb without leading zeros, the others as 16 digits.
    pub fn display_string(&self) -> (r: String)
        ensures
            r@ == ascii_chars(display_bytes(limbs_of(self@.value, num_limbs_spec(self@.width)))),
    {
        let limbs = self.get_limbs();
        let mut out: Vec<u8> = Vec::new();
        out.push(48);
        out.push(120);
        let sep: Vec<u8> = Vec::new();
        proof {
            assert(out@ =~= seq![48u8, 120u8]);
            assert(sep@ =~= Seq::<u8>::empty());
        }
        push_hex_body(&mut out, limbs, sep.as_slice());
        proof {
            assert(out@ =~= display_bytes(limbs@));
        }
        ascii_string(&out)
    }

    /// The text `ApInt(<width> bits: <limbs>)`, the limbs in hexadecimal as in
    /// `display_string`, separated by underscores.
    pub fn debug_string(&self) -> (r: String)
        ensures
            r@ == ascii_chars(debug_bytes(self@.width, limbs_of(self@.value, num_limbs_spec(self@.width)))),
    {
        let limbs = self.get_limbs();
        let mut out: Vec<u8> = Vec::new();
        out.push(65);
        out.push(112);
        out.push(73);
        out.push(110);
        out.push(116);
        out.push(40);
        let ghost head = out@;
        proof {
            assert(head =~= seq![65u8, 112u8, 73u8, 110u8, 116u8, 40u8]);
        }
        push_dec_min(&mut out, self.width());
        let ghost mid = out@;
        out.push(32);
        out.push(98);
        out.push(105);
        out.push(116);
        out.push(115);
        out.push(58);
        out.push(32);
        let mut sep: Vec<u8> = Vec::new();
        sep.push(95);
        proof {
            lemma_dec_min_ascii(self@.width);
            assert(out@ =~= head + dec_min(self@.width) + seq![32u8, 98u8, 105u8, 116u8, 115u8, 58u8, 32u8]);
            assert(sep@ =~= seq![95u8]);
        }
        let ghost before_body = out@;
        push_hex_body(&mut out, limbs, sep.as_slice());
        let ghost after_body = out@;
        out.push(41);
        proof {
            assert(out@ =~= after_body + seq![41u8]);
            assert(out@ =~= debug_bytes(self@.width, limbs@));
        }
        ascii_string(&out)
    }
}

} // verus!
