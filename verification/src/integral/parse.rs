//! Reading an `ApInt` from text.
//!
//! The text is trimmed of white space, may carry a sign and a radix prefix
//! (`0x`, `0o`, `0b`), and its digits may be separated by underscores. The
//! grammar and its errors are stated as spec functions over the characters
//! and bytes of the text; the parsers are proved to compute them.
use crate::integral::model::{base, bpow, lv, digit, num_limbs_spec};
use crate::integral::{wrap, ApInt, IntModel};
use vstd::arithmetic::div_mod::*;
use vstd::arithmetic::mul::*;
use vstd::arithmetic::power2::*;
use vstd::bits::*;
use vstd::prelude::*;
use vstd::string::StringSliceAdditionalSpecFns;
use vstd::utf8::encode_utf8;

verus! {

/// Why a text is not an integer.
#[derive(Debug, Clone, Copy, PartialEq, Eq)]
pub enum ParseError {
    /// Nothing but white space.
    Empty,
    /// A sign with nothing after it.
    MissingDigitsAfterSign,
    /// A radix prefix with nothing after it.
    MissingDigitsAfterPrefix,
    /// A byte that is neither an ASCII digit nor an ASCII letter.
    InvalidDigit(u8),
    /// A digit or letter whose value is not below the radix (the byte and the
    /// radix).
    DigitOutOfRange(u8, u32),
    /// A byte other than `0` and `1` in a binary number.
    InvalidBinaryDigit(u8),
    /// A byte other than `0` to `7` in an octal number.
    InvalidOctalDigit(u8),
    /// A byte that is not a hexadecimal digit in a hexadecimal number.
    InvalidHexDigit(u8),
    /// The number does not fit: in binary and hexadecimal, its value is
    /// `2^width` or more; in the other radices, it outgrows the limbs that
    /// hold the width.
    TooLarge,
}

// ---------------------------------------------------------------------------
// White space and the front of the text
// ---------------------------------------------------------------------------

/// The characters with the Unicode property `White_Space`.
pub open spec fn is_white_space(c: char) -> bool {
    let u = c as u32;
    ||| 0x9 <= u <= 0xd
    ||| u == 0x20
    ||| u == 0x85
    ||| u == 0xa0
    ||| u == 0x1680
    ||| 0x2000 <= u <= 0x200a
    ||| u == 0x2028
    ||| u == 0x2029
    ||| u == 0x202f
    ||| u == 0x205f
    ||| u == 0x3000
}

/// `s` without its leading white space.
pub open spec fn trim_start_chars(s: Seq<char>) -> Seq<char>
    decreases s.len(),
{
    if s.len() > 0 && is_white_space(s[0]) {
        trim_start_chars(s.skip(1))
    } else {
        s
    }
}

/// `s` without its trailing white space.
pub open spec fn trim_end_chars(s: Seq<char>) -> Seq<char>
    decreases s.len(),
{
    if s.len() > 0 && is_white_space(s.last()) {
        trim_end_chars(s.drop_last())
    } else {
        s
    }
}

/// `s` without its leading and trailing white space.
pub open spec fn trim_chars(s: Seq<char>) -> Seq<char> {
    trim_end_chars(trim_start_chars(s))
}

/// A leading `-` or `+`: whether the number is negated, and the rest.
pub open spec fn sign_split(t: Seq<char>) -> (bool, Seq<char>) {
    if t.len() > 0 && t[0] == '-' {
        (true, t.skip(1))
    } else if t.len() > 0 && t[0] == '+' {
        (false, t.skip(1))
    } else {
        (false, t)
    }
}

/// A leading radix prefix (`0x`, `0o`, `0b`, either case) overrides `radix`:
/// the radix in force and the digits after the prefix.
pub open spec fn prefix_split(s: Seq<char>, radix: nat) -> (nat, Seq<char>) {
    if s.len() >= 2 && s[0] == '0' {
        if s[1] == 'x' || s[1] == 'X' {
            (16, s.skip(2))
        } else if s[1] == 'o' || s[1] == 'O' {
            (8, s.skip(2))
        } else if s[1] == 'b' || s[1] == 'B' {
            (2, s.skip(2))
        } else {
            (radix, s)
        }
    } else {
        (radix, s)
    }
}

/// The bytes of `s` without the underscores.
pub open spec fn strip_underscores_spec(s: Seq<u8>) -> Seq<u8>
    decreases s.len(),
{
    if s.len() == 0 {
        s
    } else if s.last() == 95 {
        strip_underscores_spec(s.drop_last())
    } else {
        strip_underscores_spec(s.drop_last()).push(s.last())
    }
}

// ---------------------------------------------------------------------------
// Digits
// ---------------------------------------------------------------------------

/// The value of an ASCII digit (`0`-`9`) or letter (`a`-`z`, `A`-`Z`, from
/// 10 on).
pub open spec fn alnum_value(b: u8) -> Option<nat> {
    if 48 <= b <= 57 {
        Some((b - 48) as nat)
    } else if 97 <= b <= 122 {
        Some((b - 87) as nat)
    } else if 65 <= b <= 90 {
        Some((b - 55) as nat)
    } else {
        None
    }
}

/// The value of an ASCII hexadecimal digit.
pub open spec fn hex_value(b: u8) -> Option<nat> {
    if 48 <= b <= 57 {
        Some((b - 48) as nat)
    } else if 97 <= b <= 102 {
        Some((b - 87) as nat)
    } else if 65 <= b <= 70 {
        Some((b - 55) as nat)
    } else {
        None
    }
}

/// The numbers that the limbs of a `width`-bit integer can hold lie below
/// this bound.
pub open spec fn limb_capacity(width: nat) -> nat {
    bpow(num_limbs_spec(width))
}

/// The first `i` bytes of `s` read as digits in `radix`, left to right; a
/// number that outgrows the limbs of `width` bits is refused.
pub open spec fn radix_prefix(width: nat, s: Seq<u8>, radix: nat, i: nat) -> Result<nat, ParseError>
    decreases i,
{
    if i == 0 {
        Ok(0)
    } else {
        match radix_prefix(width, s, radix, (i - 1) as nat) {
            Err(e) => Err(e),
            Ok(acc) => {
                let b = s[i - 1];
                match alnum_value(b) {
                    None => Err(ParseError::InvalidDigit(b)),
                    Some(d) => if d >= radix {
                        Err(ParseError::DigitOutOfRange(b, radix as u32))
                    } else if acc * radix + d >= limb_capacity(width) {
                        Err(ParseError::TooLarge)
                    } else {
                        Ok(acc * radix + d)
                    },
                }
            },
        }
    }
}

/// The first `i` bytes of `s` read as octal digits, left to right; a number
/// that outgrows the limbs of `width` bits is refused.
pub open spec fn octal_prefix(width: nat, s: Seq<u8>, i: nat) -> Result<nat, ParseError>
    decreases i,
{
    if i == 0 {
        Ok(0)
    } else {
        match octal_prefix(width, s, (i - 1) as nat) {
            Err(e) => Err(e),
            Ok(acc) => {
                let b = s[i - 1];
                if 48 <= b <= 55 {
                    let v = acc * 8 + (b - 48);
                    if v >= limb_capacity(width) {
                        Err(ParseError::TooLarge)
                    } else {
                        Ok(v as nat)
                    }
                } else {
                    Err(ParseError::InvalidOctalDigit(b))
                }
            },
        }
    }
}

/// The first `i` bytes of `s` read as binary digits, left to right; a `1`
/// whose place value (counted from the end of `s`) is `2^width` or more is
/// refused.
pub open spec fn binary_prefix(width: nat, s: Seq<u8>, i: nat) -> Result<nat, ParseError>
    decreases i,
{
    if i == 0 {
        Ok(0)
    } else {
        match binary_prefix(width, s, (i - 1) as nat) {
            Err(e) => Err(e),
            Ok(acc) => {
                let b = s[i - 1];
                if b == 48 {
                    Ok(2 * acc)
                } else if b == 49 {
                    if s.len() - i >= width {
                        Err(ParseError::TooLarge)
                    } else {
                        Ok(2 * acc + 1)
                    }
                } else {
                    Err(ParseError::InvalidBinaryDigit(b))
                }
            },
        }
    }
}

/// The bytes of `s` from `start` to `i` read as hexadecimal digits, left to
/// right.
pub open spec fn hex_prefix(s: Seq<u8>, start: nat, i: nat) -> Result<nat, ParseError>
    decreases i,
{
    if i <= start {
        Ok(0)
    } else {
        match hex_prefix(s, start, (i - 1) as nat) {
            Err(e) => Err(e),
            Ok(acc) => {
                let b = s[i - 1];
                match hex_value(b) {
                    None => Err(ParseError::InvalidHexDigit(b)),
                    Some(d) => Ok(16 * acc + d),
                }
            },
        }
    }
}

/// How many leading hexadecimal digits lie wholly above `width` bits; they
/// must be zero.
pub open spec fn hex_skip(width: nat, len: nat) -> nat {
    if 4 * len > width {
        (len - (width + 3) / 4) as nat
    } else {
        0
    }
}

/// A hexadecimal number of `width` bits: the digits wholly above the width
/// must be `0`, the others are read, and their value must lie below
/// `2^width`.
pub open spec fn hex_digits(width: nat, s: Seq<u8>) -> Result<nat, ParseError> {
    let k = hex_skip(width, s.len());
    if exists|j: int| 0 <= j < k && s[j] != 48 {
        Err(ParseError::TooLarge)
    } else {
        match hex_prefix(s, k, s.len()) {
            Err(e) => Err(e),
            Ok(v) => if v < pow2(width) {
                Ok(v)
            } else {
                Err(ParseError::TooLarge)
            },
        }
    }
}

/// A result reduced modulo `2^width`.
pub open spec fn masked(r: Result<nat, ParseError>, width: nat) -> Result<nat, ParseError> {
    match r {
        Err(e) => Err(e),
        Ok(v) => Ok(v % pow2(width)),
    }
}

/// The value of the digits `s` (underscores already removed) in `radix`, as a
/// `width`-bit integer.
pub open spec fn digits_value(width: nat, s: Seq<u8>, radix: nat) -> Result<nat, ParseError> {
    if radix == 2 {
        masked(binary_prefix(width, s, s.len()), width)
    } else if radix == 8 {
        masked(octal_prefix(width, s, s.len()), width)
    } else if radix == 16 {
        hex_digits(width, s)
    } else {
        masked(radix_prefix(width, s, radix, s.len()), width)
    }
}

/// The `width`-bit value of a result, negated when `negative`.
pub open spec fn signed_result(r: Result<nat, ParseError>, negative: bool, width: nat) -> Result<
    nat,
    ParseError,
> {
    match r {
        Err(e) => Err(e),
        Ok(v) => Ok(
            if negative {
                wrap(width, -(v as int))
            } else {
                v
            },
        ),
    }
}

/// What `from_str_radix` makes of the text `s`: trimmed, an optional sign, an
/// optional radix prefix that overrides `radix`, then digits with underscores
/// allowed between them.
pub open spec fn radix_text_value(width: nat, s: Seq<char>, radix: nat) -> Result<nat, ParseError> {
    let t = trim_chars(s);
    if t.len() == 0 {
        Err(ParseError::Empty)
    } else {
        let (negative, body) = sign_split(t);
        if body.len() == 0 {
            Err(ParseError::MissingDigitsAfterSign)
        } else {
            let (r, digits) = prefix_split(body, radix);
            if digits.len() == 0 {
                Err(ParseError::MissingDigitsAfterPrefix)
            } else {
                signed_result(
                    digits_value(width, strip_underscores_spec(encode_utf8(digits)), r),
                    negative,
                    width,
                )
            }
        }
    }
}

/// The part of `parse` before the digits are read: the sign, the radix that
/// the prefix selects (decimal without one), and the rest of the text.
pub open spec fn text_front(s: Seq<char>) -> Result<(bool, nat, Seq<char>), ParseError> {
    let t = trim_chars(s);
    if t.len() == 0 {
        Err(ParseError::Empty)
    } else {
        let (negative, body) = sign_split(t);
        if body.len() == 0 {
            Err(ParseError::MissingDigitsAfterSign)
        } else {
            let (r, digits) = prefix_split(body, 10);
            if digits.len() == 0 {
                Err(ParseError::MissingDigitsAfterPrefix)
            } else {
                Ok((negative, r, digits))
            }
        }
    }
}

/// What `parse` makes of the text `s`: the radix comes from the prefix
/// (decimal without one), and the rest is read as digits in that radix.
pub open spec fn text_value(width: nat, s: Seq<char>) -> Result<nat, ParseError> {
    match text_front(s) {
        Err(e) => Err(e),
        Ok((negative, r, digits)) => signed_result(
            digits_value(width, strip_underscores_spec(encode_utf8(digits)), r),
            negative,
            width,
        ),
    }
}

/// A parse result agrees with a spec result.
pub open spec fn parse_agrees(r: Result<ApInt, ParseError>, width: nat, v: Result<nat, ParseError>) -> bool {
    match r {
        Ok(x) => x@.width == width && v == Ok::<nat, ParseError>(x@.value),
        Err(e) => v == Err::<nat, ParseError>(e),
    }
}

/// A limb result agrees with a spec result.
pub open spec fn limbs_agree(r: Result<Vec<u64>, ParseError>, width: nat, v: Result<nat, ParseError>) -> bool {
    match r {
        Ok(l) => l.len() == num_limbs_spec(width) && v == Ok::<nat, ParseError>(lv(l@)),
        Err(e) => v == Err::<nat, ParseError>(e),
    }
}

// ---------------------------------------------------------------------------
// Once a prefix is refused, the whole text is refused with the same error
// ---------------------------------------------------------------------------

proof fn lemma_radix_err(width: nat, s: Seq<u8>, radix: nat, i: nat, j: nat)
    requires
        i <= j,
        radix_prefix(width, s, radix, i) is Err,
    ensures
        radix_prefix(width, s, radix, j) == radix_prefix(width, s, radix, i),
    decreases j,
{
    if j > i {
        lemma_radix_err(width, s, radix, i, (j - 1) as nat);
    }
}

proof fn lemma_octal_err(width: nat, s: Seq<u8>, i: nat, j: nat)
    requires
        i <= j,
        octal_prefix(width, s, i) is Err,
    ensures
        octal_prefix(width, s, j) == octal_prefix(width, s, i),
    decreases j,
{
    if j > i {
        lemma_octal_err(width, s, i, (j - 1) as nat);
    }
}

proof fn lemma_binary_err(width: nat, s: Seq<u8>, i: nat, j: nat)
    requires
        i <= j,
        binary_prefix(width, s, i) is Err,
    ensures
        binary_prefix(width, s, j) == binary_prefix(width, s, i),
    decreases j,
{
    if j > i {
        lemma_binary_err(width, s, i, (j - 1) as nat);
    }
}

proof fn lemma_hex_err(s: Seq<u8>, start: nat, i: nat, j: nat)
    requires
        start < i <= j,
        hex_prefix(s, start, i) is Err,
    ensures
        hex_prefix(s, start, j) == hex_prefix(s, start, i),
    decreases j,
{
    if j > i {
        lemma_hex_err(s, start, i, (j - 1) as nat);
    }
}

/// Multiplies the limbs by `m` and adds `a`, in place; returns the limb that
/// carries out of the most significant limb.
fn mul_add_limb(limbs: &mut Vec<u64>, m: u64, a: u64) -> (carry: u64)
    ensures
        final(limbs).len() == old(limbs).len(),
        lv(final(limbs)@) + carry as nat * bpow(old(limbs).len() as nat) == lv(old(limbs)@) * m
            + a,
{
    let ghost s0 = limbs@;
    let n = limbs.len();
    let mut carry = a;
    let mut i: usize = 0;
    proof {
        assert(limbs@.take(0) =~= Seq::<u64>::empty());
        assert(s0.take(0) =~= Seq::<u64>::empty());
        crate::integral::model::lemma_lv_empty();
        assert(bpow(0) == 1);
        lemma_mul_basics(m as int);
    }
    while i < n
        invariant
            n == limbs.len(),
            n == s0.len(),
            i <= n,
            forall|j: int| i <= j < n ==> limbs@[j] == s0[j],
            lv(limbs@.take(i as int)) + carry * bpow(i as nat) == lv(s0.take(i as int)) * m + a,
        decreases n - i,
    {
        let x = limbs[i];
        proof {
            crate::integral::detail::limbs::lemma_mul_limb_bound(x, m, carry);
        }
        let t: u128 = x as u128 * m as u128 + carry as u128;
        let lo = t as u64;
        let hi = (t >> 64) as u64;
        let ghost before = limbs@;
        proof {
            crate::integral::lemma_split_u128(t);
            lemma_fundamental_div_mod(t as int, base() as int);
        }
        limbs.set(i, lo);
        proof {
            assert(limbs@.take(i + 1) =~= before.take(i as int).push(lo));
            crate::integral::model::lemma_lv_push(before.take(i as int), lo);
            crate::integral::model::lemma_lv_take_next(s0, i as int);
            let p = bpow(i as nat) as int;
            assert(bpow((i + 1) as nat) == base() * bpow(i as nat));
            let xi = x as int;
            assert(lo as int + hi as int * base() == xi * m + carry);
            assert(lo as int * p + hi as int * (base() * p) == (xi * m) * p + carry as int * p)
                by (nonlinear_arith)
                requires
                    lo as int + hi as int * base() == xi * m + carry,
            ;
            assert((lv(s0.take(i as int)) + xi * p) * m == lv(s0.take(i as int)) * m + (xi * m)
                * p) by (nonlinear_arith);
        }
        carry = hi;
        i = i + 1;
    }
    proof {
        assert(limbs@.take(n as int) =~= limbs@);
        assert(s0.take(n as int) =~= s0);
    }
    carry
}

/// In a value that is a multiple of `2^(64 * limb + off + bits)`, the bits
/// `off .. off + bits` of limb `limb` are clear.
proof fn lemma_field_clear(s: Seq<u64>, limb: nat, off: nat, bits: nat)
    requires
        limb < s.len(),
        off + bits <= 64,
        lv(s) % pow2(64 * limb + off + bits) == 0,
    ensures
        (s[limb as int] as nat / pow2(off)) % pow2(bits) == 0,
{
    let p = bpow(limb) as int;
    let q = pow2(off + bits) as int;
    crate::integral::model::lemma_bpow_pow2(limb);
    crate::integral::model::lemma_bpow_pos(limb);
    lemma_pow2_adds(64 * limb, off + bits);
    assert(64 * limb + (off + bits) == 64 * limb + off + bits);
    lemma_pow2_pos(off + bits);
    crate::integral::model::lemma_lv_split(s, limb as int);
    crate::integral::model::lemma_lv_skip_prev(s, limb as int);
    crate::integral::model::lemma_lv_bound(s.take(limb as int));
    let lo = lv(s.take(limb as int)) as int;
    let hi = lv(s.skip(limb as int)) as int;
    let x = s[limb as int] as int;
    let rest = lv(s.skip(limb as int + 1)) as int;
    assert(p * q > 0) by (nonlinear_arith)
        requires
            p > 0,
            q > 0,
    ;
    let k = lv(s) as int / (p * q);
    lemma_fundamental_div_mod(lv(s) as int, p * q);
    assert(lo + p * hi == p * (q * k)) by (nonlinear_arith)
        requires
            lo + p * hi == lv(s),
            lv(s) == (p * q) * k,
    ;
    let t = q * k - hi;
    assert(lo == p * t) by (nonlinear_arith)
        requires
            lo + p * hi == p * (q * k),
            t == q * k - hi,
    ;
    if t > 0 {
        assert(p * t >= p) by (nonlinear_arith)
            requires
                t > 0,
                p > 0,
        ;
    }
    if t < 0 {
        assert(p * t < 0) by (nonlinear_arith)
            requires
                t < 0,
                p > 0,
        ;
    }
    assert(t == 0);
    let r = pow2((64 - off - bits) as nat) as int;
    lemma_pow2_adds(off + bits, (64 - off - bits) as nat);
    crate::integral::model::lemma_pow2_64();
    assert(base() == q * r);
    let j = k - r * rest;
    assert(x == q * j) by (nonlinear_arith)
        requires
            hi == x + (q * r) * rest,
            hi == q * k,
            j == k - r * rest,
    ;
    let e = pow2(off) as int;
    let f = pow2(bits) as int;
    lemma_pow2_adds(off, bits);
    lemma_pow2_pos(off);
    lemma_pow2_pos(bits);
    assert(x == e * (f * j)) by (nonlinear_arith)
        requires
            x == q * j,
            q == e * f,
    ;
    lemma_div_multiples_vanish(f * j, e);
    lemma_mod_multiples_basic(j, f);
    lemma_mul_is_commutative(f, j);
}

/// OR-ing a field of `bits` bits into bits of `x` that are clear adds it.
proof fn lemma_or_field_bits(x: u64, d: u64, off: u64, bits: u64)
    requires
        off + bits <= 64,
        1 <= bits <= 4,
        (d as nat) < pow2(bits as nat),
        (x as nat / pow2(off as nat)) % pow2(bits as nat) == 0,
    ensures
        (x | (d << off)) as nat == x as nat + d as nat * pow2(off as nat),
{
    lemma_u64_shr_is_div(x, off);
    lemma_pow2_pos(bits as nat);
    lemma2_to64();
    if bits < 4 {
        lemma_pow2_strictly_increases(bits as nat, 4);
    }
    lemma_u64_shl_is_mul(1, bits);
    let m = 1u64 << bits;
    assert((x >> off) % m == 0);
    lemma_pow2_adds(off as nat, bits as nat);
    lemma_pow2_pos(off as nat);
    assert(d as nat * pow2(off as nat) < pow2(bits as nat) * pow2(off as nat)) by (nonlinear_arith)
        requires
            (d as nat) < pow2(bits as nat),
            pow2(off as nat) > 0,
    ;
    lemma_mul_is_commutative(pow2(bits as nat) as int, pow2(off as nat) as int);
    if off + bits < 64 {
        lemma_pow2_strictly_increases((off + bits) as nat, 64);
    }
    crate::integral::model::lemma_pow2_64();
    lemma_u64_shl_is_mul(d, off);
    let z = d << off;
    assert((x | z) == x + z) by (bit_vector)
        requires
            off + bits <= 64,
            1 <= bits <= 4,
            d < m,
            m == 1u64 << bits,
            z == d << off,
            (x >> off) % m == 0,
    ;
}

/// Writes the `bits`-bit field `d` at bit `pos` of limbs whose value is a
/// multiple of `2^(pos + bits)`.
fn or_field(limbs: &mut Vec<u64>, pos: usize, d: u64, bits: usize)
    requires
        pos / 64 < old(limbs).len(),
        1 <= bits <= 4,
        pos % 64 + bits <= 64,
        (d as nat) < pow2(bits as nat),
        lv(old(limbs)@) % pow2((pos + bits) as nat) == 0,
    ensures
        final(limbs).len() == old(limbs).len(),
        lv(final(limbs)@) == lv(old(limbs)@) + d as nat * pow2(pos as nat),
{
    let limb = pos / 64;
    let off = pos % 64;
    let x = limbs[limb];
    proof {
        assert(pos == 64 * limb + off);
        assert((pos + bits) as nat == 64 * (limb as nat) + off as nat + bits as nat);
        lemma_field_clear(limbs@, limb as nat, off as nat, bits as nat);
        lemma_or_field_bits(x, d, off as u64, bits as u64);
    }
    let y = x | (d << (off as u64));
    proof {
        crate::integral::model::lemma_lv_update(limbs@, limb as int, y);
        crate::integral::model::lemma_bpow_pow2(limb as nat);
        lemma_pow2_adds(64 * limb as nat, off as nat);
        let p = bpow(limb as nat);
        assert(y as nat * p == x as nat * p + d as nat * (pow2(off as nat) * p)) by (nonlinear_arith)
            requires
                y as nat == x as nat + d as nat * pow2(off as nat),
        ;
        lemma_mul_is_commutative(pow2(off as nat) as int, p as int);
    }
    limbs.set(limb, y);
}

impl ApInt {
    /// Reads binary digits; the bits are set in place, most significant
    /// first.
    fn parse_binary_limbs(width: usize, digits: &[u8]) -> (r: Result<Vec<u64>, ParseError>)
        requires
            width > 0,
        ensures
            limbs_agree(r, width as nat, masked(binary_prefix(width as nat, digits@, digits@.len()), width as nat)),
    {
        let num_limbs = Self::num_limbs(width);
        let mut limbs = crate::integral::zero_limbs(num_limbs);
        let len = digits.len();
        let ghost mut p: nat = 0;
        proof {
            crate::integral::model::lemma_lv_zeros(num_limbs as nat);
            crate::integral::model::lemma_num_limbs_bound(width as nat);
        }
        let mut i: usize = 0;
        while i < len
            invariant
                width > 0,
                len == digits.len(),
                i <= len,
                limbs.len() == num_limbs,
                num_limbs == num_limbs_spec(width as nat),
                width <= 64 * num_limbs,
                binary_prefix(width as nat, digits@, i as nat) == Ok::<nat, ParseError>(p),
                lv(limbs@) == p * pow2((len - i) as nat),
            decreases len - i,
        {
            let byte = digits[i];
            if byte == 48 {
                proof {
                    lemma_pow2_adds(1, (len - i - 1) as nat);
                    lemma2_to64();
                    lemma_mul_is_associative(p as int, 2, pow2((len - i - 1) as nat) as int);
                    lemma_mul_is_commutative(p as int, 2);
                    p = 2 * p;
                }
            } else if byte == 49 {
                let bit_pos = len - 1 - i;
                if bit_pos >= width {
                    proof {
                        lemma_binary_err(width as nat, digits@, (i + 1) as nat, len as nat);
                    }
                    return Err(ParseError::TooLarge);
                }
                proof {
                    lemma_pow2_pos((bit_pos + 1) as nat);
                    lemma_mod_multiples_basic(p as int, pow2((bit_pos + 1) as nat) as int);
                    lemma2_to64();
                }
                or_field(&mut limbs, bit_pos, 1, 1);
                proof {
                    lemma_pow2_adds(1, bit_pos as nat);
                    lemma_mul_is_associative(p as int, 2, pow2(bit_pos as nat) as int);
                    lemma_mul_is_distributive_add_other_way(pow2(bit_pos as nat) as int, 2 * p as int, 1);
                    lemma_mul_is_commutative(p as int, 2);
                    p = 2 * p + 1;
                }
            } else {
                proof {
                    lemma_binary_err(width as nat, digits@, (i + 1) as nat, len as nat);
                }
                return Err(ParseError::InvalidBinaryDigit(byte));
            }
            i = i + 1;
        }
        proof {
            lemma2_to64();
            assert(i == len);
            assert(pow2((len - i) as nat) == 1);
            lemma_mul_basics(p as int);
            assert(lv(limbs@) == p);
            assert(binary_prefix(width as nat, digits@, digits@.len()) == Ok::<nat, ParseError>(p));
        }
        crate::integral::detail::limbs::clear_high_bits(&mut limbs, width);
        Ok(limbs)
    }

    /// Reads octal digits, refusing a number that outgrows the limbs.
    fn parse_octal_limbs(width: usize, digits: &[u8]) -> (r: Result<Vec<u64>, ParseError>)
        requires
            width > 0,
        ensures
            limbs_agree(r, width as nat, masked(octal_prefix(width as nat, digits@, digits@.len()), width as nat)),
    {
        let num_limbs = Self::num_limbs(width);
        let mut limbs = crate::integral::zero_limbs(num_limbs);
        proof {
            crate::integral::model::lemma_lv_zeros(num_limbs as nat);
        }
        let mut i: usize = 0;
        while i < digits.len()
            invariant
                width > 0,
                i <= digits.len(),
                limbs.len() == num_limbs,
                num_limbs == num_limbs_spec(width as nat),
                octal_prefix(width as nat, digits@, i as nat) == Ok::<nat, ParseError>(lv(limbs@)),
            decreases digits.len() - i,
        {
            let byte = digits[i];
            if byte < 48 || byte > 55 {
                proof {
                    lemma_octal_err(width as nat, digits@, (i + 1) as nat, digits@.len());
                }
                return Err(ParseError::InvalidOctalDigit(byte));
            }
            let d = (byte - 48) as u64;
            let ghost before = lv(limbs@);
            let carry = mul_add_limb(&mut limbs, 8, d);
            proof {
                crate::integral::model::lemma_lv_bound(limbs@);
            }
            if carry > 0 {
                proof {
                    let cap = bpow(num_limbs as nat);
                    assert(carry as nat * cap >= cap) by (nonlinear_arith)
                        requires
                            carry > 0,
                    ;
                    assert(octal_prefix(width as nat, digits@, (i + 1) as nat) == Err::<nat, ParseError>(ParseError::TooLarge));
                    lemma_octal_err(width as nat, digits@, (i + 1) as nat, digits@.len());
                }
                return Err(ParseError::TooLarge);
            }
            i = i + 1;
        }
        crate::integral::detail::limbs::clear_high_bits(&mut limbs, width);
        Ok(limbs)
    }

    /// Reads hexadecimal digits. The digits that lie wholly above the width
    /// must be zero; each other digit is written in place at its bit position.
    fn parse_hex_limbs(width: usize, digits: &[u8]) -> (r: Result<Vec<u64>, ParseError>)
        requires
            width > 0,
        ensures
            limbs_agree(r, width as nat, hex_digits(width as nat, digits@)),
    {
        let num_limbs = Self::num_limbs(width);
        let mut limbs = crate::integral::zero_limbs(num_limbs);
        let len = digits.len();
        proof {
            crate::integral::model::lemma_lv_zeros(num_limbs as nat);
            crate::integral::model::lemma_num_limbs_bound(width as nat);
        }
        let leading = width / 4 + if width % 4 != 0 {
            1
        } else {
            0
        };
        let start = if len > width / 4 {
            len - leading
        } else {
            0
        };
        assert(start == hex_skip(width as nat, len as nat));
        let mut j: usize = 0;
        while j < start
            invariant
                start <= len,
                len == digits.len(),
                start == hex_skip(width as nat, len as nat),
                forall|k: int| 0 <= k < j ==> digits@[k] == 48,
            decreases start - j,
        {
            if digits[j] != 48 {
                proof {
                    assert(digits@[j as int] != 48);
                    assert(exists|k: int| 0 <= k < start && digits@[k] != 48);
                }
                return Err(ParseError::TooLarge);
            }
            j = j + 1;
        }
        let ghost mut v: nat = 0;
        let mut i: usize = start;
        while i < len
            invariant
                width > 0,
                len == digits.len(),
                start <= i <= len,
                start == hex_skip(width as nat, len as nat),
                limbs.len() == num_limbs,
                num_limbs == num_limbs_spec(width as nat),
                width <= 64 * num_limbs,
                4 * (len - start) < width + 4,
                forall|k: int| 0 <= k < start ==> digits@[k] == 48,
                hex_prefix(digits@, start as nat, i as nat) == Ok::<nat, ParseError>(v),
                lv(limbs@) == v * pow2((4 * (len - i)) as nat),
            decreases len - i,
        {
            let byte = digits[i];
            let d: u64 = if 48 <= byte && byte <= 57 {
                (byte - 48) as u64
            } else if 97 <= byte && byte <= 102 {
                (byte - 87) as u64
            } else if 65 <= byte && byte <= 70 {
                (byte - 55) as u64
            } else {
                proof {
                    lemma_hex_err(digits@, start as nat, (i + 1) as nat, len as nat);
                }
                return Err(ParseError::InvalidHexDigit(byte));
            };
            let bit_pos = 4 * (len - 1 - i);
            proof {
                assert(bit_pos < width);
                assert(bit_pos % 64 + 4 <= 64);
                lemma_pow2_pos((bit_pos + 4) as nat);
                lemma_mod_multiples_basic(v as int, pow2((bit_pos + 4) as nat) as int);
                lemma2_to64();
            }
            or_field(&mut limbs, bit_pos, d, 4);
            proof {
                lemma_pow2_adds(4, bit_pos as nat);
                lemma_mul_is_associative(v as int, 16, pow2(bit_pos as nat) as int);
                lemma_mul_is_distributive_add_other_way(pow2(bit_pos as nat) as int, 16 * v as int, d as int);
                lemma_mul_is_commutative(v as int, 16);
                v = 16 * v + d as nat;
            }
            i = i + 1;
        }
        proof {
            lemma2_to64();
            assert(i == len);
            assert(pow2((4 * (len - i)) as nat) == 1);
            lemma_mul_basics(v as int);
            assert(lv(limbs@) == v);
            assert(!(exists|k: int| 0 <= k < start && digits@[k] != 48));
            assert(hex_prefix(digits@, start as nat, digits@.len()) == Ok::<nat, ParseError>(v));
            crate::integral::lemma_top_limb_bound(limbs@, width as nat);
        }
        // The digits fit when the top limb stays within the bits of the width
        // that it holds.
        let used = width % 64;
        if used != 0 {
            proof {
                lemma_u64_pow2_no_overflow(used as nat);
                lemma_u64_shl_is_mul(1, used as u64);
                assert(crate::integral::top_bits(width as nat) == used);
            }
            if limbs[num_limbs - 1] >= (1u64 << (used as u64)) {
                return Err(ParseError::TooLarge);
            }
        } else {
            proof {
                assert(crate::integral::top_bits(width as nat) == 64);
                crate::integral::model::lemma_pow2_64();
            }
        }
        Ok(limbs)
    }

    /// Reads digits in `radix` into the limbs of a `width`-bit integer; radices
    /// 2, 8 and 16 have parsers of their own.
    fn parse_limbs_from_digits(width: usize, digits: &[u8], radix: u32) -> (r: Result<Vec<u64>, ParseError>)
        requires
            width > 0,
            2 <= radix <= 36,
        ensures
            limbs_agree(r, width as nat, digits_value(width as nat, digits@, radix as nat)),
    {
        if radix == 2 {
            return Self::parse_binary_limbs(width, digits);
        } else if radix == 8 {
            return Self::parse_octal_limbs(width, digits);
        } else if radix == 16 {
            return Self::parse_hex_limbs(width, digits);
        }
        let num_limbs = Self::num_limbs(width);
        let mut limbs = crate::integral::zero_limbs(num_limbs);
        let radix_limb = radix as u64;
        proof {
            crate::integral::model::lemma_lv_zeros(num_limbs as nat);
        }
        let mut i: usize = 0;
        while i < digits.len()
            invariant
                width > 0,
                2 <= radix <= 36,
                radix != 2 && radix != 8 && radix != 16,
                radix_limb == radix,
                i <= digits.len(),
                limbs.len() == num_limbs,
                num_limbs == num_limbs_spec(width as nat),
                radix_prefix(width as nat, digits@, radix as nat, i as nat) == Ok::<nat, ParseError>(lv(limbs@)),
            decreases digits.len() - i,
        {
            let byte = digits[i];
            let digit: u64 = if 48 <= byte && byte <= 57 {
                (byte - 48) as u64
            } else if 97 <= byte && byte <= 122 {
                (byte - 87) as u64
            } else if 65 <= byte && byte <= 90 {
                (byte - 55) as u64
            } else {
                proof {
                    assert(alnum_value(byte) is None);
                    assert(radix_prefix(width as nat, digits@, radix as nat, (i + 1) as nat) == Err::<nat, ParseError>(ParseError::InvalidDigit(byte)));
                    lemma_radix_err(width as nat, digits@, radix as nat, (i + 1) as nat, digits@.len());
                }
                return Err(ParseError::InvalidDigit(byte));
            };
            if digit >= radix_limb {
                proof {
                    lemma_radix_err(width as nat, digits@, radix as nat, (i + 1) as nat, digits@.len());
                }
                return Err(ParseError::DigitOutOfRange(byte, radix));
            }
            let carry = mul_add_limb(&mut limbs, radix_limb, digit);
            proof {
                crate::integral::model::lemma_lv_bound(limbs@);
            }
            if carry > 0 {
                proof {
                    let cap = bpow(num_limbs as nat);
                    assert(carry as nat * cap >= cap) by (nonlinear_arith)
                        requires
                            carry > 0,
                    ;
                    assert(radix_prefix(width as nat, digits@, radix as nat, (i + 1) as nat) == Err::<nat, ParseError>(ParseError::TooLarge));
                    lemma_radix_err(width as nat, digits@, radix as nat, (i + 1) as nat, digits@.len());
                }
                return Err(ParseError::TooLarge);
            }
            i = i + 1;
        }
        crate::integral::detail::limbs::clear_high_bits(&mut limbs, width);
        Ok(limbs)
    }
}

/// The text without its leading and trailing white space: `str::trim`, which
/// removes the characters of the Unicode property `White_Space` from both
/// ends.
#[verifier::external_body]
fn trim_white_space(s: &str) -> (r: &str)
    ensures
        r@ == trim_chars(s@),
{
    s.trim()
}

/// The bytes without the underscores.
fn strip_underscores(s: &[u8]) -> (r: Vec<u8>)
    ensures
        r@ == strip_underscores_spec(s@),
{
    let mut out: Vec<u8> = Vec::new();
    let mut i: usize = 0;
    proof {
        assert(s@.take(0) =~= Seq::<u8>::empty());
    }
    while i < s.len()
        invariant
            i <= s.len(),
            out@ == strip_underscores_spec(s@.take(i as int)),
        decreases s.len() - i,
    {
        let b = s[i];
        proof {
            assert(s@.take(i + 1).drop_last() =~= s@.take(i as int));
            assert(s@.take(i + 1).last() == b);
        }
        if b != 95 {
            out.push(b);
        }
        i = i + 1;
    }
    proof {
        assert(s@.take(s.len() as int) =~= s@);
    }
    out
}

/// A leading sign of a nonempty text: whether it is `-`, and how many
/// characters it takes.
fn split_sign(t: &str) -> (r: (bool, usize))
    requires
        t@.len() > 0,
    ensures
        sign_split(t@) == (r.0, t@.skip(r.1 as int)),
        r.1 <= 1,
{
    let first = t.get_char(0);
    if first == '-' {
        (true, 1)
    } else if first == '+' {
        (false, 1)
    } else {
        proof {
            assert(t@.skip(0) =~= t@);
        }
        (false, 0)
    }
}

/// A leading radix prefix of a text of `len` characters: the radix in force
/// and how many characters the prefix takes.
fn split_prefix(s: &str, len: usize, radix: u32) -> (r: (u32, usize))
    requires
        len == s@.len(),
    ensures
        prefix_split(s@, radix as nat) == (r.0 as nat, s@.skip(r.1 as int)),
        r.1 <= len,
        2 <= radix <= 36 ==> 2 <= r.0 <= 36,
{
    proof {
        assert(s@.skip(0) =~= s@);
    }
    if len >= 2 && s.get_char(0) == '0' {
        let second = s.get_char(1);
        if second == 'x' || second == 'X' {
            (16, 2)
        } else if second == 'o' || second == 'O' {
            (8, 2)
        } else if second == 'b' || second == 'B' {
            (2, 2)
        } else {
            (radix, 0)
        }
    } else {
        (radix, 0)
    }
}

impl ApInt {
    /// Two's-complement negation of limbs, as a `width`-bit integer.
    fn negate_limbs(width: usize, limbs: Vec<u64>) -> (r: Self)
        requires
            width > 0,
            limbs.len() == num_limbs_spec(width as nat),
        ensures
            r@ == (IntModel { width: width as nat, value: wrap(width as nat, -(lv(limbs@) as int)) }),
    {
        let n = limbs.len();
        let ghost v = lv(limbs@);
        let mut limbs = crate::integral::detail::limbs::not_limbs(&limbs);
        let ghost nv = lv(limbs@);
        let mut carry = true;
        let mut i: usize = 0;
        proof {
            assert(bpow(0) == 1);
        }
        while i < n && carry
            invariant
                i <= n,
                limbs.len() == n,
                nv + v + 1 == bpow(n as nat),
                carry ==> lv(limbs@) + bpow(i as nat) == nv + 1,
                !carry ==> lv(limbs@) == nv + 1,
            decreases n - i,
        {
            let x = limbs[i];
            proof {
                crate::integral::model::lemma_lv_update(limbs@, i as int, 0);
                crate::integral::model::lemma_lv_update(limbs@, i as int, (x + 1) as u64);
                assert(bpow((i + 1) as nat) == base() * bpow(i as nat));
            }
            if x == u64::MAX {
                proof {
                    assert(lv(limbs@.update(i as int, 0)) + bpow((i + 1) as nat) == nv + 1) by (nonlinear_arith)
                        requires
                            lv(limbs@.update(i as int, 0)) + x as nat * bpow(i as nat) == lv(limbs@) + 0 * bpow(i as nat),
                            x == 0xffff_ffff_ffff_ffffu64,
                            bpow((i + 1) as nat) == base() * bpow(i as nat),
                            base() == 0x1_0000_0000_0000_0000nat,
                            lv(limbs@) + bpow(i as nat) == nv + 1,
                    ;
                }
                limbs.set(i, 0);
            } else {
                proof {
                    assert(lv(limbs@.update(i as int, (x + 1) as u64)) == nv + 1) by (nonlinear_arith)
                        requires
                            lv(limbs@.update(i as int, (x + 1) as u64)) + x as nat * bpow(i as nat) == lv(limbs@) + (x + 1) as nat * bpow(i as nat),
                            lv(limbs@) + bpow(i as nat) == nv + 1,
                    ;
                }
                limbs.set(i, x + 1);
                carry = false;
            }
            i = i + 1;
        }
        let ghost neg = lv(limbs@);
        proof {
            // `neg` is `-v` modulo `bpow(n)`: either `bpow(n) - v`, or `0` when
            // `v` is zero and the carry ran out of the top.
            crate::integral::model::lemma_lv_bound(limbs@);
            let t: int = if carry { 0 } else { 1 };
            assert(neg as int == -(v as int) + bpow(n as nat) * t);
            crate::integral::model::lemma_num_limbs_bound(width as nat);
            crate::integral::model::lemma_bpow_pow2(n as nat);
            let m = pow2(width as nat) as int;
            let k = pow2((64 * n - width) as nat) as int;
            lemma_pow2_adds(width as nat, (64 * n - width) as nat);
            lemma_pow2_pos(width as nat);
            assert(neg as int == m * (k * t) + -(v as int)) by (nonlinear_arith)
                requires
                    neg as int == -(v as int) + bpow(n as nat) * t,
                    bpow(n as nat) == m * k,
            ;
            lemma_mod_multiples_vanish(k * t, -(v as int), m);
        }
        crate::integral::detail::limbs::clear_high_bits(&mut limbs, width);
        proof {
            let m = pow2(width as nat);
            lemma_mod_bound(neg as int, m as int);
            lemma_small_mod(lv(limbs@), m);
        }
        Self::from_limbs(width, limbs)
    }

    /// Reads the digits after the sign and the prefix in `radix`, negating
    /// the value modulo `2^width` when `negative`.
    fn read_digits(width: usize, digits: &str, radix: u32, negative: bool) -> (r: Result<Self, ParseError>)
        requires
            width > 0,
            2 <= radix <= 36,
        ensures
            parse_agrees(
                r,
                width as nat,
                signed_result(
                    digits_value(width as nat, strip_underscores_spec(encode_utf8(digits@)), radix as nat),
                    negative,
                    width as nat,
                ),
            ),
    {
        let stripped = strip_underscores(digits.as_bytes());
        let limbs = match Self::parse_limbs_from_digits(width, stripped.as_slice(), radix) {
            Ok(limbs) => limbs,
            Err(e) => {
                return Err(e);
            },
        };
        if negative {
            Ok(Self::negate_limbs(width, limbs))
        } else {
            proof {
                let v = lv(limbs@);
                lemma_digits_value_bound(width as nat, stripped@, radix as nat);
                lemma_small_mod(v, pow2(width as nat));
            }
            Ok(Self::from_limbs(width, limbs))
        }
    }

    /// Creates an `ApInt` from a string in the given radix.
    ///
    /// The text is trimmed of white space and may start with `-` or `+`. A
    /// prefix `0x`, `0o` or `0b` (either case) overrides `radix`. The digits
    /// are `0-9`, then `a-z` or `A-Z` for the values from 10, and may be
    /// separated by underscores. A negative number is taken modulo
    /// `2^width`. The errors are those of `ParseError`. Binary and
    /// hexadecimal refuse a number that does not fit in `width` bits. The
    /// other radices refuse a number that outgrows the limbs of `width` bits
    /// and keep the value modulo `2^width`.
    #[verifier::spinoff_prover]
    #[verifier::rlimit(40)]
    pub fn from_str_radix(width: usize, s: &str, radix: u32) -> (r: Result<Self, ParseError>)
        requires
            width > 0,
            2 <= radix <= 36,
        ensures
            parse_agrees(r, width as nat, radix_text_value(width as nat, s@, radix as nat)),
    {
        let t = trim_white_space(s);
        if t.is_empty() {
            return Err(ParseError::Empty);
        }
        let len = t.unicode_len();
        let (negative, start) = split_sign(t);
        let body = t.substring_char(start, len);
        proof {
            assert(body@ =~= t@.skip(start as int));
        }
        if body.is_empty() {
            return Err(ParseError::MissingDigitsAfterSign);
        }
        let body_len = len - start;
        let (actual_radix, skip) = split_prefix(body, body_len, radix);
        let digits = body.substring_char(skip, body_len);
        proof {
            assert(digits@ =~= body@.skip(skip as int));
        }
        if digits.is_empty() {
            return Err(ParseError::MissingDigitsAfterPrefix);
        }
        Self::read_digits(width, digits, actual_radix, negative)
    }

    /// Parses a string with the radix taken from its prefix: `0x`/`0X`
    /// hexadecimal, `0o`/`0O` octal, `0b`/`0B` binary, decimal otherwise. The
    /// text is trimmed of white space and may start with `-` or `+`; after the
    /// sign and the prefix come the digits in that radix, as
    /// `from_str_radix` reads them.
    #[verifier::spinoff_prover]
    #[verifier::rlimit(40)]
    pub fn parse(width: usize, s: &str) -> (r: Result<Self, ParseError>)
        requires
            width > 0 || text_front(s@) is Err,
        ensures
            parse_agrees(r, width as nat, text_value(width as nat, s@)),
    {
        let t = trim_white_space(s);
        if t.is_empty() {
            return Err(ParseError::Empty);
        }
        let len = t.unicode_len();
        let (negative, start) = split_sign(t);
        let body = t.substring_char(start, len);
        proof {
            assert(body@ =~= t@.skip(start as int));
        }
        if body.is_empty() {
            return Err(ParseError::MissingDigitsAfterSign);
        }
        let body_len = len - start;
        let (radix, skip) = split_prefix(body, body_len, 10);
        let digits = body.substring_char(skip, body_len);
        proof {
            assert(digits@ =~= body@.skip(skip as int));
        }
        if digits.is_empty() {
            return Err(ParseError::MissingDigitsAfterPrefix);
        }
        proof {
            assert(text_front(s@) == Ok::<(bool, nat, Seq<char>), ParseError>((negative, radix as nat, digits@)));
        }
        Self::read_digits(width, digits, radix, negative)
    }
}

/// The value of digits read as a `width`-bit integer lies below `2^width`.
pub(crate) proof fn lemma_digits_value_bound(width: nat, s: Seq<u8>, radix: nat)
    ensures
        digits_value(width, s, radix) is Ok ==> digits_value(width, s, radix)->Ok_0 < pow2(width),
{
    lemma_pow2_pos(width);
    if digits_value(width, s, radix) is Ok && radix != 16 {
        let v = if radix == 2 {
            binary_prefix(width, s, s.len())->Ok_0
        } else if radix == 8 {
            octal_prefix(width, s, s.len())->Ok_0
        } else {
            radix_prefix(width, s, radix, s.len())->Ok_0
        };
        lemma_mod_bound(v as int, pow2(width) as int);
    }
}

} // verus!
