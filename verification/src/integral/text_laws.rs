//! Laws of reading integers from text: the sign, the prefix and the digits,
//! stated against the positional value of the digits.
use crate::integral::format::ascii_chars;
use crate::integral::model::{bpow, num_limbs_spec};
use crate::integral::parse::{
    alnum_value, binary_prefix, hex_digits, hex_prefix, hex_skip, hex_value, limb_capacity, octal_prefix, radix_prefix, digits_value, is_white_space, masked, prefix_split, radix_text_value, sign_split,
    signed_result, strip_underscores_spec, text_front, text_value, trim_chars, trim_end_chars,
    trim_start_chars, ParseError,
};
use crate::integral::wrap;
use vstd::arithmetic::div_mod::*;
use vstd::arithmetic::mul::*;
use vstd::arithmetic::power::{lemma_pow_positive, pow};
use vstd::arithmetic::power2::*;
use vstd::prelude::*;
use vstd::utf8::encode_utf8;

verus! {

// ---------------------------------------------------------------------------
// White space around a text
// ---------------------------------------------------------------------------

/// Trailing white space is trimmed from the end of `h` only, when the text
/// before it ends in something else.
proof fn lemma_trim_end_concat(p: Seq<char>, h: Seq<char>)
    requires
        p.len() > 0,
        !is_white_space(p.last()),
    ensures
        trim_end_chars(p + h) == p + trim_end_chars(h),
    decreases h.len(),
{
    if h.len() == 0 {
        assert(p + h =~= p);
        assert(p + trim_end_chars(h) =~= p);
    } else {
        assert((p + h).last() == h.last());
        if is_white_space(h.last()) {
            assert((p + h).drop_last() =~= p + h.drop_last());
            lemma_trim_end_concat(p, h.drop_last());
        }
    }
}

/// A text that starts with `p`, whose first and last characters are not
/// white space, is trimmed after `p`.
proof fn lemma_trim_concat(p: Seq<char>, h: Seq<char>)
    requires
        p.len() > 0,
        !is_white_space(p[0]),
        !is_white_space(p.last()),
    ensures
        trim_chars(p + h) == p + trim_end_chars(h),
        trim_chars(p + h).len() >= p.len(),
        trim_chars(p + h).take(p.len() as int) == p,
        trim_chars(p + h).skip(p.len() as int) == trim_end_chars(h),
{
    assert((p + h)[0] == p[0]);
    assert(trim_start_chars(p + h) == p + h);
    lemma_trim_end_concat(p, h);
    assert((p + trim_end_chars(h)).take(p.len() as int) =~= p);
    assert((p + trim_end_chars(h)).skip(p.len() as int) =~= trim_end_chars(h));
}

// ---------------------------------------------------------------------------
// The prefix
// ---------------------------------------------------------------------------

/// The radix prefix is read the same in upper and lower case.
pub proof fn law_prefix_case_insensitive(w: nat, h: Seq<char>, radix: nat)
    ensures
        text_value(w, seq!['0', 'X'] + h) == text_value(w, seq!['0', 'x'] + h),
        text_value(w, seq!['0', 'O'] + h) == text_value(w, seq!['0', 'o'] + h),
        text_value(w, seq!['0', 'B'] + h) == text_value(w, seq!['0', 'b'] + h),
        radix_text_value(w, seq!['0', 'X'] + h, radix) == radix_text_value(w, seq!['0', 'x'] + h, radix),
        radix_text_value(w, seq!['0', 'O'] + h, radix) == radix_text_value(w, seq!['0', 'o'] + h, radix),
        radix_text_value(w, seq!['0', 'B'] + h, radix) == radix_text_value(w, seq!['0', 'b'] + h, radix),
{
    lemma_prefix_pair(w, h, radix, 'X', 'x', 16);
    lemma_prefix_pair(w, h, radix, 'O', 'o', 8);
    lemma_prefix_pair(w, h, radix, 'B', 'b', 2);
}

proof fn lemma_prefix_pair(w: nat, h: Seq<char>, radix: nat, upper: char, lower: char, r: nat)
    requires
        (upper == 'X' && lower == 'x' && r == 16) || (upper == 'O' && lower == 'o' && r == 8) || (
        upper == 'B' && lower == 'b' && r == 2),
    ensures
        text_value(w, seq!['0', upper] + h) == text_value(w, seq!['0', lower] + h),
        radix_text_value(w, seq!['0', upper] + h, radix) == radix_text_value(w, seq!['0', lower] + h, radix),
        prefix_split(trim_chars(seq!['0', lower] + h), radix) == (r, trim_end_chars(h)),
        prefix_split(trim_chars(seq!['0', lower] + h), 10) == (r, trim_end_chars(h)),
{
    let pu = seq!['0', upper];
    let pl = seq!['0', lower];
    lemma_trim_concat(pu, h);
    lemma_trim_concat(pl, h);
    let h2 = trim_end_chars(h);
    let tu = trim_chars(pu + h);
    let tl = trim_chars(pl + h);
    assert(tu[0] == '0' && tu[1] == upper) by {
        assert(tu[0] == tu.take(2)[0]);
        assert(tu[1] == tu.take(2)[1]);
    }
    assert(tl[0] == '0' && tl[1] == lower) by {
        assert(tl[0] == tl.take(2)[0]);
        assert(tl[1] == tl.take(2)[1]);
    }
    assert(sign_split(tu) == (false, tu));
    assert(sign_split(tl) == (false, tl));
    assert(tu.skip(2) == h2);
    assert(tl.skip(2) == h2);
    assert(prefix_split(tu, radix) == (r, h2));
    assert(prefix_split(tl, radix) == (r, h2));
    assert(prefix_split(tu, 10) == (r, h2));
    assert(prefix_split(tl, 10) == (r, h2));
}

// ---------------------------------------------------------------------------
// The sign
// ---------------------------------------------------------------------------

/// A `-` before a text that reads as `v` reads as `2^w - v` modulo `2^w`; a
/// `+` changes nothing. This holds for `parse` and for `from_str_radix` in
/// every radix, whatever the prefix.
pub proof fn law_sign_negates(w: nat, s: Seq<char>, radix: nat)
    requires
        s.len() > 0,
        !is_white_space(s[0]),
        s[0] != '-',
        s[0] != '+',
    ensures
        text_value(w, seq!['-'] + s) == match text_value(w, s) {
            Ok(v) => Ok(((pow2(w) - v) % (pow2(w) as int)) as nat),
            Err(e) => Err::<nat, ParseError>(e),
        },
        radix_text_value(w, seq!['-'] + s, radix) == match radix_text_value(w, s, radix) {
            Ok(v) => Ok(((pow2(w) - v) % (pow2(w) as int)) as nat),
            Err(e) => Err::<nat, ParseError>(e),
        },
        text_value(w, seq!['+'] + s) == text_value(w, s),
        radix_text_value(w, seq!['+'] + s, radix) == radix_text_value(w, s, radix),
{
    // The trimmed text of `s` starts with `s[0]`.
    let e = seq!['-'];
    let p = seq!['+'];
    assert(!is_white_space('-'));
    assert(!is_white_space('+'));
    lemma_trim_concat(e, s);
    lemma_trim_concat(p, s);
    let first = seq![s[0]];
    let rest = s.skip(1);
    assert(s =~= first + rest);
    lemma_trim_concat(first, rest);
    let t = trim_chars(s);
    assert(trim_start_chars(s) == s);
    assert(t == trim_end_chars(s));
    assert(t[0] == s[0]) by {
        assert(t[0] == t.take(1)[0]);
    }
    assert(sign_split(t) == (false, t));
    let tm = trim_chars(e + s);
    let tp = trim_chars(p + s);
    assert(tm[0] == '-') by {
        assert(tm[0] == tm.take(1)[0]);
    }
    assert(tp[0] == '+') by {
        assert(tp[0] == tp.take(1)[0]);
    }
    assert(tm.skip(1) == t);
    assert(tp.skip(1) == t);
    assert(sign_split(tm) == (true, t));
    assert(sign_split(tp) == (false, t));
    lemma_text_value_below(w, s, radix);
    let m = pow2(w) as int;
    lemma_pow2_pos(w);
    if text_value(w, s) is Ok {
        let v = text_value(w, s)->Ok_0;
        lemma_mod_add_multiples_vanish(-(v as int), m);
    }
    if radix_text_value(w, s, radix) is Ok {
        let v = radix_text_value(w, s, radix)->Ok_0;
        lemma_mod_add_multiples_vanish(-(v as int), m);
    }
}

/// What a text reads as lies below `2^w`.
proof fn lemma_text_value_below(w: nat, s: Seq<char>, radix: nat)
    ensures
        text_value(w, s) is Ok ==> text_value(w, s)->Ok_0 < pow2(w),
        radix_text_value(w, s, radix) is Ok ==> radix_text_value(w, s, radix)->Ok_0 < pow2(w),
{
    lemma_pow2_pos(w);
    match text_front(s) {
        Ok((negative, r, digits)) => {
            let b = strip_underscores_spec(encode_utf8(digits));
            crate::integral::parse::lemma_digits_value_bound(w, b, r);
        },
        Err(_) => {},
    }
    let t = trim_chars(s);
    if t.len() > 0 {
        let (negative, body) = sign_split(t);
        if body.len() > 0 {
            let (r, digits) = prefix_split(body, radix);
            let b = strip_underscores_spec(encode_utf8(digits));
            crate::integral::parse::lemma_digits_value_bound(w, b, r);
        }
    }
}

// ---------------------------------------------------------------------------
// Binary digits
// ---------------------------------------------------------------------------

/// A nonempty text of the digits `0` and `1`.
pub open spec fn is_binary_text(s: Seq<char>) -> bool {
    s.len() > 0 && forall|i: int| 0 <= i < s.len() ==> s[i] == '0' || s[i] == '1'
}

/// The sum of the place values `2^(len - 1 - j)` of the `1`s among the first
/// `i` digits of `s`.
pub open spec fn binary_places(s: Seq<char>, i: nat) -> nat
    decreases i,
{
    if i == 0 {
        0
    } else {
        binary_places(s, (i - 1) as nat) + if s[i - 1] == '1' {
            pow2((s.len() - i) as nat)
        } else {
            0
        }
    }
}

/// The value of binary digits: the sum of the place values of its `1`s.
pub open spec fn binary_value(s: Seq<char>) -> nat {
    binary_places(s, s.len())
}

/// Binary digits, left to right, as a running value.
spec fn bin_horner(b: Seq<u8>, i: nat) -> nat
    decreases i,
{
    if i == 0 {
        0
    } else {
        2 * bin_horner(b, (i - 1) as nat) + if b[i - 1] == 49 {
            1nat
        } else {
            0
        }
    }
}

/// A `1` among the first `i` bytes whose place value is `2^w` or more.
spec fn has_high_one(b: Seq<u8>, i: nat, w: nat) -> bool {
    exists|j: int| 0 <= j < i && b[j] == 49 && b.len() - 1 - j >= w
}

proof fn lemma_binary_prefix(w: nat, b: Seq<u8>, i: nat)
    requires
        i <= b.len(),
        forall|j: int| 0 <= j < b.len() ==> b[j] == 48 || b[j] == 49,
    ensures
        binary_prefix(w, b, i) == if has_high_one(b, i, w) {
            Err::<nat, ParseError>(ParseError::TooLarge)
        } else {
            Ok::<nat, ParseError>(bin_horner(b, i))
        },
    decreases i,
{
    if i > 0 {
        let k = (i - 1) as nat;
        lemma_binary_prefix(w, b, k);
        if has_high_one(b, k, w) {
            let j = choose|j: int| 0 <= j < k && b[j] == 49 && b.len() - 1 - j >= w;
            assert(0 <= j < i && b[j] == 49 && b.len() - 1 - j >= w);
        } else if b[k as int] == 49 && b.len() - i >= w {
            assert(0 <= k < i && b[k as int] == 49 && b.len() - 1 - k >= w);
        } else {
            assert forall|j: int| 0 <= j < i && b[j] == 49 implies b.len() - 1 - j < w by {
                if j < k {
                    assert(!(0 <= j < k && b[j] == 49 && b.len() - 1 - j >= w));
                }
            }
        }
    }
}

/// The place values of the first `i` digits are the running value scaled to
/// the places that remain.
proof fn lemma_places_horner(s: Seq<char>, b: Seq<u8>, i: nat)
    requires
        i <= s.len(),
        b.len() == s.len(),
        forall|j: int| 0 <= j < s.len() ==> (s[j] == '1') == (b[j] == 49),
    ensures
        binary_places(s, i) == bin_horner(b, i) * pow2((s.len() - i) as nat),
    decreases i,
{
    if i == 0 {
        lemma_mul_basics(pow2(s.len()) as int);
    } else {
        let k = (i - 1) as nat;
        lemma_places_horner(s, b, k);
        let q = pow2((s.len() - i) as nat) as int;
        lemma_pow2_adds(1, (s.len() - i) as nat);
        lemma2_to64();
        assert(pow2((s.len() - k) as nat) == 2 * q);
        let h = bin_horner(b, k) as int;
        assert(h * (2 * q) == (2 * h) * q) by (nonlinear_arith);
        lemma_mul_is_distributive_add_other_way(q, 2 * h, 1);
    }
}

/// The place values of digits from `k` on, all below `2^(len - k)`.
proof fn lemma_places_below(s: Seq<char>, k: nat, i: nat)
    requires
        k <= i <= s.len(),
    ensures
        binary_places(s, i) - binary_places(s, k) <= pow2((s.len() - k) as nat) - pow2(
            (s.len() - i) as nat,
        ),
        binary_places(s, k) <= binary_places(s, i),
    decreases i,
{
    if i > k {
        let j = (i - 1) as nat;
        lemma_places_below(s, k, j);
        lemma_pow2_adds(1, (s.len() - i) as nat);
        lemma2_to64();
    }
}

/// Each `1` adds its place value.
proof fn lemma_places_at_least(s: Seq<char>, j: nat, i: nat)
    requires
        j < i <= s.len(),
        s[j as int] == '1',
    ensures
        binary_places(s, i) >= pow2((s.len() - 1 - j) as nat),
    decreases i,
{
    if i > j + 1 {
        lemma_places_at_least(s, j, (i - 1) as nat);
    }
}

/// Leading zeros add nothing.
proof fn lemma_places_zeros(s: Seq<char>, k: nat)
    requires
        k <= s.len(),
        forall|j: int| 0 <= j < k ==> s[j] == '0',
    ensures
        binary_places(s, k) == 0,
    decreases k,
{
    if k > 0 {
        lemma_places_zeros(s, (k - 1) as nat);
    }
}

/// A binary text with no `1` at a place of `2^w` or more has a value below
/// `2^w`; one with such a `1` has a value of `2^w` or more.
proof fn lemma_binary_fits(w: nat, s: Seq<char>)
    requires
        is_binary_text(s),
    ensures
        (binary_value(s) < pow2(w)) == !(exists|j: int| 0 <= j < s.len() && s[j] == '1' && s.len() - 1 - j >= w),
{
    let n = s.len();
    if exists|j: int| 0 <= j < s.len() && s[j] == '1' && s.len() - 1 - j >= w {
        let j = choose|j: int| 0 <= j < s.len() && s[j] == '1' && s.len() - 1 - j >= w;
        lemma_places_at_least(s, j as nat, n);
        if (n - 1 - j) as nat > w {
            lemma_pow2_strictly_increases(w, (n - 1 - j) as nat);
        }
    } else {
        let k: nat = if n > w { (n - w) as nat } else { 0 };
        assert forall|j: int| 0 <= j < k implies s[j] == '0' by {
            assert(s[j] == '0' || s[j] == '1');
        }
        lemma_places_zeros(s, k);
        lemma_places_below(s, k, n);
        lemma_pow2_pos((n - k) as nat);
        lemma2_to64();
        if n - k < w {
            lemma_pow2_strictly_increases((n - k) as nat, w);
        }
    }
}

/// The bytes of an ASCII text are its characters.
proof fn lemma_ascii_bytes(s: Seq<char>)
    requires
        forall|i: int| 0 <= i < s.len() ==> '\0' <= #[trigger] s[i] <= '\u{7f}',
    ensures
        encode_utf8(s).len() == s.len(),
        forall|i: int| 0 <= i < s.len() ==> encode_utf8(s)[i] == s[i] as u8,
{
    assert(vstd::utf8::is_ascii_chars(s));
    vstd::utf8::is_ascii_chars_encode_utf8(s);
}

/// The value of binary digits as `digits_value` reads them in radix 2.
proof fn lemma_binary_digits(w: nat, s: Seq<char>)
    requires
        is_binary_text(s),
    ensures
        digits_value(w, strip_underscores_spec(encode_utf8(s)), 2) == if binary_value(s) < pow2(w) {
            Ok::<nat, ParseError>(binary_value(s))
        } else {
            Err::<nat, ParseError>(ParseError::TooLarge)
        },
{
    assert forall|i: int| 0 <= i < s.len() implies '\0' <= #[trigger] s[i] <= '\u{7f}' by {
        assert(s[i] == '0' || s[i] == '1');
    }
    lemma_ascii_bytes(s);
    let b = encode_utf8(s);
    assert forall|j: int| 0 <= j < b.len() implies b[j] != 95 && (b[j] == 48 || b[j] == 49) && ((s[j] == '1')
        == (b[j] == 49)) by {
        assert(s[j] == '0' || s[j] == '1');
        assert(b[j] == s[j] as u8);
    }
    crate::integral::laws::lemma_strip_no_underscore(b);
    lemma_binary_prefix(w, b, b.len());
    lemma_places_horner(s, b, s.len());
    lemma2_to64();
    lemma_mul_basics(bin_horner(b, b.len()) as int);
    lemma_binary_fits(w, s);
    if has_high_one(b, b.len(), w) {
        let j = choose|j: int| 0 <= j < b.len() && b[j] == 49 && b.len() - 1 - j >= w;
        assert(0 <= j < s.len() && s[j] == '1' && s.len() - 1 - j >= w);
    } else {
        assert forall|j: int| 0 <= j < s.len() && s[j] == '1' implies s.len() - 1 - j < w by {
            assert(!(0 <= j < b.len() && b[j] == 49 && b.len() - 1 - j >= w));
        }
        lemma_small_mod(binary_value(s), pow2(w));
    }
}

/// Binary digits read in radix 2 give their value, or `TooLarge` when that
/// value is `2^w` or more.
pub proof fn law_binary_text(w: nat, s: Seq<char>)
    requires
        is_binary_text(s),
    ensures
        radix_text_value(w, s, 2) == if binary_value(s) < pow2(w) {
            Ok::<nat, ParseError>(binary_value(s))
        } else {
            Err::<nat, ParseError>(ParseError::TooLarge)
        },
        text_value(w, seq!['0', 'b'] + s) == radix_text_value(w, s, 2),
{
    // No white space, sign or prefix: the text is its digits.
    let first = seq![s[0]];
    let rest = s.skip(1);
    assert(s[0] == '0' || s[0] == '1');
    assert(s.last() == '0' || s.last() == '1');
    assert(s =~= first + rest);
    lemma_trim_concat(first, rest);
    assert(trim_end_chars(rest) == rest) by {
        if rest.len() > 0 {
            assert(rest.last() == s.last());
        }
    }
    assert(trim_chars(s) =~= s);
    assert(sign_split(s) == (false, s));
    if s.len() >= 2 {
        assert(s[1] == '0' || s[1] == '1');
    }
    assert(prefix_split(s, 2) == (2nat, s));
    lemma_binary_digits(w, s);
    // With a `0b` prefix, `parse` reads the same digits.
    lemma_prefix_pair(w, s, 2, 'B', 'b', 2);
    lemma_trim_end_concat(first, rest);
    assert(trim_end_chars(s) == s);
    let tl = trim_chars(seq!['0', 'b'] + s);
    assert(tl[0] == '0') by {
        lemma_trim_concat(seq!['0', 'b'], s);
        assert(tl[0] == tl.take(2)[0]);
    }
    assert(sign_split(tl) == (false, tl));
    assert(tl.len() >= 2 && tl.skip(2) == s) by {
        lemma_trim_concat(seq!['0', 'b'], s);
    }
    assert(text_front(seq!['0', 'b'] + s) == Ok::<(bool, nat, Seq<char>), ParseError>((false, 2nat, s)));
}

// ---------------------------------------------------------------------------
// Decimal digits in other radices
// ---------------------------------------------------------------------------

/// Nonempty ASCII decimal digits, each below `radix`.
pub open spec fn is_digit_bytes(b: Seq<u8>, radix: nat) -> bool {
    b.len() > 0 && forall|i: int| 0 <= i < b.len() ==> 48 <= #[trigger] b[i] <= 57 && b[i] - 48 < radix
}

/// The sum of the place values `digit * radix^(len - 1 - j)` of the first
/// `i` digits of `b`.
pub open spec fn digit_places(b: Seq<u8>, radix: nat, i: nat) -> nat
    decreases i,
{
    if i == 0 {
        0
    } else {
        digit_places(b, radix, (i - 1) as nat) + ((b[i - 1] - 48) * pow(radix as int, (b.len() - i) as nat)) as nat
    }
}

/// The number that the digits `b` denote in `radix`.
pub open spec fn digits_number(b: Seq<u8>, radix: nat) -> nat {
    digit_places(b, radix, b.len())
}

/// Digits in `radix`, left to right, as a running value.
spec fn radix_horner(b: Seq<u8>, radix: nat, i: nat) -> nat
    decreases i,
{
    if i == 0 {
        0
    } else {
        radix * radix_horner(b, radix, (i - 1) as nat) + (b[i - 1] - 48) as nat
    }
}

proof fn lemma_digit_places_horner(b: Seq<u8>, radix: nat, i: nat)
    requires
        radix >= 2,
        i <= b.len(),
        is_digit_bytes(b, radix),
    ensures
        digit_places(b, radix, i) == radix_horner(b, radix, i) * pow(radix as int, (b.len() - i) as nat),
    decreases i,
{
    if i == 0 {
        lemma_mul_basics(pow(radix as int, b.len()) as int);
    } else {
        let k = (i - 1) as nat;
        lemma_digit_places_horner(b, radix, k);
        lemma_pow_positive(radix as int, (b.len() - i) as nat);
        let e = (b.len() - i) as nat;
        let q = pow(radix as int, e);
        assert((b.len() - k) as nat == e + 1);
        assert(pow(radix as int, e + 1) == radix * q) by {
            reveal(pow);
        }
        let h = radix_horner(b, radix, k) as int;
        let d = (b[k as int] - 48) as int;
        assert(h * (radix * q) + d * q == (radix * h + d) * q) by (nonlinear_arith);
        assert(0 <= d);
        lemma_pow_positive(radix as int, (b.len() - i) as nat);
    }
}

proof fn lemma_radix_horner_grows(b: Seq<u8>, radix: nat, i: nat)
    requires
        0 < i <= b.len(),
        radix >= 2,
        is_digit_bytes(b, radix),
    ensures
        radix_horner(b, radix, (i - 1) as nat) <= radix_horner(b, radix, i),
{
    let h = radix_horner(b, radix, (i - 1) as nat);
    assert(h <= radix * h) by (nonlinear_arith)
        requires
            radix >= 2,
    ;
}

proof fn lemma_radix_prefix_digits(w: nat, b: Seq<u8>, radix: nat, i: nat)
    requires
        i <= b.len(),
        2 <= radix,
        is_digit_bytes(b, radix),
    ensures
        radix_prefix(w, b, radix, i) == if radix_horner(b, radix, i) >= limb_capacity(w) {
            Err::<nat, ParseError>(ParseError::TooLarge)
        } else {
            Ok::<nat, ParseError>(radix_horner(b, radix, i))
        },
        radix == 8 ==> octal_prefix(w, b, i) == radix_prefix(w, b, radix, i),
    decreases i,
{
    crate::integral::model::lemma_bpow_pos(num_limbs_spec(w));
    if i > 0 {
        let k = (i - 1) as nat;
        lemma_radix_prefix_digits(w, b, radix, k);
        lemma_radix_horner_grows(b, radix, i);
        let c = b[k as int];
        assert(48 <= c <= 57 && c - 48 < radix);
        assert(alnum_value(c) == Some((c - 48) as nat));
        let h = radix_horner(b, radix, k);
        lemma_mul_is_commutative(h as int, radix as int);
        assert(radix_horner(b, radix, i) == radix * h + (c - 48) as nat);
    }
}

/// The text of nonempty digits has no white space, sign or prefix.
proof fn lemma_plain_digits_text(b: Seq<u8>, radix: nat)
    requires
        is_digit_bytes(b, 10),
    ensures
        trim_chars(ascii_chars(b)) == ascii_chars(b),
        sign_split(ascii_chars(b)) == (false, ascii_chars(b)),
        prefix_split(ascii_chars(b), radix) == (radix, ascii_chars(b)),
        strip_underscores_spec(encode_utf8(ascii_chars(b))) == b,
{
    let s = ascii_chars(b);
    assert forall|i: int| 0 <= i < s.len() implies '\0' <= #[trigger] s[i] <= '\u{7f}' && s[i] == b[i] as char
        && !is_white_space(s[i]) && s[i] != '-' && s[i] != '+' && s[i] != 'x' && s[i] != 'X' && s[i] != 'o'
        && s[i] != 'O' && s[i] != 'b' && s[i] != 'B' by {
        assert(48 <= b[i] <= 57);
    }
    let first = seq![s[0]];
    let rest = s.skip(1);
    assert(s =~= first + rest);
    lemma_trim_concat(first, rest);
    assert(trim_end_chars(rest) == rest) by {
        if rest.len() > 0 {
            assert(rest.last() == s[s.len() - 1]);
        }
    }
    assert(trim_chars(s) =~= s);
    if s.len() >= 2 {
        assert(s[1] != 'x');
    }
    lemma_ascii_bytes(s);
    assert(encode_utf8(s) =~= b);
    assert forall|j: int| 0 <= j < b.len() implies b[j] != 95 by {
        assert(48 <= b[j] <= 57);
    }
    crate::integral::laws::lemma_strip_no_underscore(b);
}

/// Decimal digits read in a radix other than 2 and 16 give their number in
/// that radix modulo `2^w`, or `TooLarge` when the number outgrows the limbs
/// of `w` bits; `parse` reads them in decimal.
pub proof fn law_radix_digits_text(w: nat, b: Seq<u8>, radix: nat)
    requires
        2 < radix <= 36,
        radix != 16,
        is_digit_bytes(b, radix),
    ensures
        radix_text_value(w, ascii_chars(b), radix) == if digits_number(b, radix) < bpow(num_limbs_spec(w)) {
            Ok::<nat, ParseError>(digits_number(b, radix) % pow2(w))
        } else {
            Err::<nat, ParseError>(ParseError::TooLarge)
        },
        radix == 10 ==> text_value(w, ascii_chars(b)) == radix_text_value(w, ascii_chars(b), 10),
        radix == 8 ==> text_value(w, seq!['0', 'o'] + ascii_chars(b)) == radix_text_value(
            w,
            ascii_chars(b),
            8,
        ),
{
    assert(is_digit_bytes(b, 10)) by {
        assert forall|i: int| 0 <= i < b.len() implies 48 <= #[trigger] b[i] <= 57 && b[i] - 48 < 10 by {
            assert(48 <= b[i] <= 57);
        }
    }
    lemma_plain_digits_text(b, radix);
    lemma_plain_digits_text(b, 10);
    lemma_radix_prefix_digits(w, b, radix, b.len());
    lemma_digit_places_horner(b, radix, b.len());
    vstd::arithmetic::power::lemma_pow0(radix as int);
    lemma_mul_basics(radix_horner(b, radix, b.len()) as int);
    let s = ascii_chars(b);
    assert(text_front(s) == Ok::<(bool, nat, Seq<char>), ParseError>((false, 10nat, s)));
    // With a `0o` prefix, `parse` reads the same digits in octal.
    lemma_prefix_pair(w, s, 10, 'O', 'o', 8);
    let first = seq![s[0]];
    let rest = s.skip(1);
    assert(s =~= first + rest);
    assert(!is_white_space(s[0]) && !is_white_space(s[s.len() - 1])) by {
        assert(48 <= b[0] <= 57);
        assert(48 <= b[b.len() - 1] <= 57);
    }
    lemma_trim_end_concat(first, rest);
    assert(trim_end_chars(rest) == rest) by {
        if rest.len() > 0 {
            assert(rest.last() == s[s.len() - 1]);
        }
    }
    assert(trim_end_chars(s) == s);
    let t = trim_chars(seq!['0', 'o'] + s);
    assert(t[0] == '0') by {
        lemma_trim_concat(seq!['0', 'o'], s);
        assert(t[0] == t.take(2)[0]);
    }
    assert(sign_split(t) == (false, t));
    assert(text_front(seq!['0', 'o'] + s) == Ok::<(bool, nat, Seq<char>), ParseError>((false, 8nat, s)));
}

// ---------------------------------------------------------------------------
// Hexadecimal digits
// ---------------------------------------------------------------------------

/// Nonempty ASCII hexadecimal digits.
pub open spec fn is_hex_digit_bytes(b: Seq<u8>) -> bool {
    b.len() > 0 && forall|i: int| 0 <= i < b.len() ==> #[trigger] hex_value(b[i]) is Some
}

/// The value of one hexadecimal digit (zero for other bytes).
pub open spec fn hex_digit_of(c: u8) -> nat {
    match hex_value(c) {
        Some(d) => d,
        None => 0,
    }
}

/// The sum of the place values `digit * 16^(len - 1 - j)` of the first `i`
/// hexadecimal digits of `b`.
pub open spec fn hex_places(b: Seq<u8>, i: nat) -> nat
    decreases i,
{
    if i == 0 {
        0
    } else {
        hex_places(b, (i - 1) as nat) + hex_digit_of(b[i - 1]) * pow2((4 * (b.len() - i)) as nat)
    }
}

/// The number that hexadecimal digits denote.
pub open spec fn hex_number(b: Seq<u8>) -> nat {
    hex_places(b, b.len())
}

/// Hexadecimal digits from `k` to `i`, left to right, as a running value.
spec fn hex_horner(b: Seq<u8>, k: nat, i: nat) -> nat
    decreases i,
{
    if i <= k {
        0
    } else {
        16 * hex_horner(b, k, (i - 1) as nat) + hex_digit_of(b[i - 1])
    }
}

proof fn lemma_hex_prefix_from(b: Seq<u8>, k: nat, i: nat)
    requires
        k <= i <= b.len(),
        is_hex_digit_bytes(b),
    ensures
        hex_prefix(b, k, i) == Ok::<nat, ParseError>(hex_horner(b, k, i)),
    decreases i,
{
    if i > k {
        lemma_hex_prefix_from(b, k, (i - 1) as nat);
        assert(hex_value(b[i - 1]) is Some);
    }
}

proof fn lemma_hex_places_horner(b: Seq<u8>, k: nat, i: nat)
    requires
        k <= i <= b.len(),
    ensures
        hex_places(b, i) == hex_places(b, k) + hex_horner(b, k, i) * pow2((4 * (b.len() - i)) as nat),
    decreases i,
{
    if i == k {
        lemma_mul_basics(pow2((4 * (b.len() - i)) as nat) as int);
    } else {
        let j = (i - 1) as nat;
        lemma_hex_places_horner(b, k, j);
        let q = pow2((4 * (b.len() - i)) as nat) as int;
        lemma_pow2_adds(4, (4 * (b.len() - i)) as nat);
        lemma2_to64();
        assert(4 + 4 * (b.len() - i) == 4 * (b.len() - j));
        let h = hex_horner(b, k, j) as int;
        let d = hex_digit_of(b[j as int]) as int;
        assert(h * (16 * q) + d * q == (16 * h + d) * q) by (nonlinear_arith);
    }
}

proof fn lemma_hex_places_zeros(b: Seq<u8>, k: nat)
    requires
        k <= b.len(),
        forall|j: int| 0 <= j < k ==> b[j] == 48,
    ensures
        hex_places(b, k) == 0,
    decreases k,
{
    if k > 0 {
        lemma_hex_places_zeros(b, (k - 1) as nat);
        assert(hex_digit_of(b[k - 1]) == 0);
    }
}

proof fn lemma_hex_places_at_least(b: Seq<u8>, j: nat, i: nat)
    requires
        j < i <= b.len(),
    ensures
        hex_places(b, i) >= hex_digit_of(b[j as int]) * pow2((4 * (b.len() - 1 - j)) as nat),
    decreases i,
{
    if i > j + 1 {
        lemma_hex_places_at_least(b, j, (i - 1) as nat);
    }
}

/// Hexadecimal digits as a `w`-bit number: their value, or `TooLarge` when it
/// is `2^w` or more.
proof fn lemma_hex_digits_value(w: nat, b: Seq<u8>)
    requires
        is_hex_digit_bytes(b),
    ensures
        hex_digits(w, b) == if hex_number(b) < pow2(w) {
            Ok::<nat, ParseError>(hex_number(b))
        } else {
            Err::<nat, ParseError>(ParseError::TooLarge)
        },
{
    let n = b.len();
    let k = hex_skip(w, n);
    if exists|j: int| 0 <= j < k && b[j] != 48 {
        let j = choose|j: int| 0 <= j < k && b[j] != 48;
        assert(hex_value(b[j]) is Some);
        assert(hex_digit_of(b[j]) >= 1);
        lemma_hex_places_at_least(b, j as nat, n);
        let e = (4 * (n - 1 - j)) as nat;
        assert(e >= w);
        lemma_pow2_pos(e);
        if e > w {
            lemma_pow2_strictly_increases(w, e);
        }
        assert(hex_digit_of(b[j]) * pow2(e) >= pow2(e)) by (nonlinear_arith)
            requires
                hex_digit_of(b[j]) >= 1,
        ;
    } else {
        lemma_hex_prefix_from(b, k, n);
        lemma_hex_places_horner(b, k, n);
        assert forall|j: int| 0 <= j < k implies b[j] == 48 by {
            assert(!(0 <= j < k && b[j] != 48));
        }
        lemma_hex_places_zeros(b, k);
        lemma2_to64();
        lemma_mul_basics(hex_horner(b, k, n) as int);
    }
}

/// `0x` or `0X` and hexadecimal digits read as their number, or `TooLarge`
/// when it is `2^w` or more, by `parse` and by `from_str_radix` in every
/// radix.
pub proof fn law_hex_text(w: nat, b: Seq<u8>, radix: nat)
    requires
        is_hex_digit_bytes(b),
    ensures
        text_value(w, ascii_chars(seq![48u8, 120u8] + b)) == if hex_number(b) < pow2(w) {
            Ok::<nat, ParseError>(hex_number(b))
        } else {
            Err::<nat, ParseError>(ParseError::TooLarge)
        },
        text_value(w, ascii_chars(seq![48u8, 88u8] + b)) == text_value(w, ascii_chars(seq![48u8, 120u8] + b)),
        radix_text_value(w, ascii_chars(seq![48u8, 120u8] + b), radix) == text_value(
            w,
            ascii_chars(seq![48u8, 120u8] + b),
        ),
{
    let h = ascii_chars(b);
    assert forall|i: int| 0 <= i < h.len() implies '\0' <= #[trigger] h[i] <= '\u{7f}' && h[i] == b[i] as char
        && !is_white_space(h[i]) by {
        assert(hex_value(b[i]) is Some);
    }
    assert(ascii_chars(seq![48u8, 120u8] + b) =~= seq!['0', 'x'] + h);
    assert(ascii_chars(seq![48u8, 88u8] + b) =~= seq!['0', 'X'] + h);
    lemma_prefix_pair(w, h, radix, 'X', 'x', 16);
    lemma_prefix_pair(w, h, 10, 'X', 'x', 16);
    // The digits are not trimmed.
    let first = seq![h[0]];
    let rest = h.skip(1);
    assert(h =~= first + rest);
    lemma_trim_end_concat(first, rest);
    assert(trim_end_chars(rest) == rest) by {
        if rest.len() > 0 {
            assert(rest.last() == h[h.len() - 1]);
        }
    }
    assert(trim_end_chars(h) == h);
    let t = trim_chars(seq!['0', 'x'] + h);
    assert(t[0] == '0') by {
        lemma_trim_concat(seq!['0', 'x'], h);
        assert(t[0] == t.take(2)[0]);
    }
    assert(t.len() > 0);
    assert(sign_split(t) == (false, t));
    // The digits as bytes.
    lemma_ascii_bytes(h);
    assert(encode_utf8(h) =~= b);
    assert forall|j: int| 0 <= j < b.len() implies b[j] != 95 by {
        assert(hex_value(b[j]) is Some);
    }
    crate::integral::laws::lemma_strip_no_underscore(b);
    lemma_hex_digits_value(w, b);
    assert(text_front(seq!['0', 'x'] + h) == Ok::<(bool, nat, Seq<char>), ParseError>((false, 16nat, h)));
}

// ---------------------------------------------------------------------------
// Underscores
// ---------------------------------------------------------------------------

proof fn lemma_strip_concat(x: Seq<u8>, y: Seq<u8>)
    ensures
        strip_underscores_spec(x + y) == strip_underscores_spec(x) + strip_underscores_spec(y),
    decreases y.len(),
{
    if y.len() == 0 {
        assert(x + y =~= x);
        assert(strip_underscores_spec(x) + strip_underscores_spec(y) =~= strip_underscores_spec(x));
    } else {
        assert((x + y).drop_last() =~= x + y.drop_last());
        assert((x + y).last() == y.last());
        lemma_strip_concat(x, y.drop_last());
        if y.last() != 95 {
            assert(strip_underscores_spec(x) + strip_underscores_spec(y.drop_last()).push(y.last()) =~= (
            strip_underscores_spec(x) + strip_underscores_spec(y.drop_last())).push(y.last()));
        }
    }
}

/// An underscore between decimal digits changes nothing, in any radix.
pub proof fn law_underscore_ignored(w: nat, a: Seq<u8>, c: Seq<u8>, radix: nat)
    requires
        is_digit_bytes(a, 10),
        is_digit_bytes(c, 10),
    ensures
        radix_text_value(w, ascii_chars(a + seq![95u8] + c), radix) == radix_text_value(
            w,
            ascii_chars(a + c),
            radix,
        ),
        text_value(w, ascii_chars(a + seq![95u8] + c)) == text_value(w, ascii_chars(a + c)),
{
    let u = a + seq![95u8] + c;
    let v = a + c;
    assert(is_digit_bytes(v, 10)) by {
        assert forall|i: int| 0 <= i < v.len() implies 48 <= #[trigger] v[i] <= 57 && v[i] - 48 < 10 by {
            if i < a.len() {
                assert(v[i] == a[i]);
            } else {
                assert(v[i] == c[i - a.len()]);
            }
        }
    }
    lemma_plain_digits_text(v, radix);
    lemma_plain_digits_text(v, 10);
    // The text with the underscore: no white space, sign or prefix either.
    let s = ascii_chars(u);
    assert forall|i: int| 0 <= i < s.len() implies '\0' <= #[trigger] s[i] <= '\u{7f}' && s[i] == u[i] as char
        && s[i] != 'x' && s[i] != 'X' && s[i] != 'o' && s[i] != 'O' && s[i] != 'b' && s[i] != 'B' by {
        if i < a.len() {
            assert(u[i] == a[i]);
            assert(48 <= a[i] <= 57);
        } else if i == a.len() {
            assert(u[i] == 95);
        } else {
            assert(u[i] == c[i - a.len() - 1]);
            assert(48 <= c[i - a.len() - 1] <= 57);
        }
    }
    assert(u[0] == a[0] && 48 <= a[0] <= 57);
    assert(u[u.len() - 1] == c[c.len() - 1] && 48 <= c[c.len() - 1] <= 57);
    assert(!is_white_space(s[0]) && s[0] != '-' && s[0] != '+');
    assert(!is_white_space(s[s.len() - 1]));
    let first = seq![s[0]];
    let rest = s.skip(1);
    assert(s =~= first + rest);
    lemma_trim_concat(first, rest);
    assert(trim_end_chars(rest) == rest) by {
        assert(rest.last() == s[s.len() - 1]);
    }
    assert(trim_chars(s) =~= s);
    assert(sign_split(s) == (false, s));
    assert(prefix_split(s, radix) == (radix, s));
    assert(prefix_split(s, 10) == (10nat, s));
    lemma_ascii_bytes(s);
    assert(encode_utf8(s) =~= u);
    lemma_strip_concat(a + seq![95u8], c);
    lemma_strip_concat(a, seq![95u8]);
    lemma_strip_concat(a, c);
    assert(strip_underscores_spec(seq![95u8]) =~= Seq::<u8>::empty()) by {
        let one = seq![95u8];
        assert(one.len() == 1 && one.last() == 95);
        assert(one.drop_last() =~= Seq::<u8>::empty());
        assert(strip_underscores_spec(Seq::<u8>::empty()) == Seq::<u8>::empty());
    }
    assert forall|j: int| 0 <= j < a.len() implies a[j] != 95 by {
        assert(48 <= a[j] <= 57);
    }
    assert forall|j: int| 0 <= j < c.len() implies c[j] != 95 by {
        assert(48 <= c[j] <= 57);
    }
    crate::integral::laws::lemma_strip_no_underscore(a);
    crate::integral::laws::lemma_strip_no_underscore(c);
    assert(strip_underscores_spec(encode_utf8(s)) == v);
    assert(strip_underscores_spec(a) + Seq::<u8>::empty() =~= strip_underscores_spec(a));
    assert(text_front(s) == Ok::<(bool, nat, Seq<char>), ParseError>((false, 10nat, s)));
    assert(text_front(ascii_chars(v)) == Ok::<(bool, nat, Seq<char>), ParseError>((false, 10nat, ascii_chars(v))));
}

// ---------------------------------------------------------------------------
// White space at either end
// ---------------------------------------------------------------------------

proof fn lemma_trim_append_space(s: Seq<char>, c: char)
    requires
        is_white_space(c),
    ensures
        trim_chars(s.push(c)) == trim_chars(s),
    decreases s.len(),
{
    if s.len() == 0 {
        assert(seq![c].skip(1) =~= Seq::<char>::empty());
        assert(s.push(c) =~= seq![c]);
        assert(trim_start_chars(s.push(c)) == trim_start_chars(Seq::<char>::empty()));
    } else if is_white_space(s[0]) {
        assert(s.push(c).skip(1) =~= s.skip(1).push(c));
        assert(s.push(c)[0] == s[0]);
        lemma_trim_append_space(s.skip(1), c);
    } else {
        assert(s.push(c)[0] == s[0]);
        assert(trim_start_chars(s.push(c)) == s.push(c));
        assert(s.push(c).drop_last() =~= s);
    }
}

/// White space before or after a text changes nothing, for `parse` and for
/// `from_str_radix` in every radix.
pub proof fn law_white_space_ignored(w: nat, s: Seq<char>, c: char, radix: nat)
    requires
        is_white_space(c),
    ensures
        text_value(w, seq![c] + s) == text_value(w, s),
        text_value(w, s.push(c)) == text_value(w, s),
        radix_text_value(w, seq![c] + s, radix) == radix_text_value(w, s, radix),
        radix_text_value(w, s.push(c), radix) == radix_text_value(w, s, radix),
{
    assert((seq![c] + s)[0] == c);
    assert((seq![c] + s).skip(1) =~= s);
    assert(trim_start_chars(seq![c] + s) == trim_start_chars(s));
    lemma_trim_append_space(s, c);
}

/// Hexadecimal digits read by `from_str_radix` in radix 16 give their
/// number, or `TooLarge` when it is `2^w` or more (unless they start with
/// `0b` or `0B`, which is a binary prefix).
pub proof fn law_hex_digits_text(w: nat, b: Seq<u8>)
    requires
        is_hex_digit_bytes(b),
        !(b.len() >= 2 && b[0] == 48 && (b[1] == 98 || b[1] == 66)),
    ensures
        radix_text_value(w, ascii_chars(b), 16) == if hex_number(b) < pow2(w) {
            Ok::<nat, ParseError>(hex_number(b))
        } else {
            Err::<nat, ParseError>(ParseError::TooLarge)
        },
{
    let h = ascii_chars(b);
    assert forall|i: int| 0 <= i < h.len() implies '\0' <= #[trigger] h[i] <= '\u{7f}' && h[i] == b[i] as char
        && !is_white_space(h[i]) && h[i] != '-' && h[i] != '+' && h[i] != 'x' && h[i] != 'X' && h[i] != 'o'
        && h[i] != 'O' by {
        assert(hex_value(b[i]) is Some);
    }
    let first = seq![h[0]];
    let rest = h.skip(1);
    assert(h =~= first + rest);
    lemma_trim_concat(first, rest);
    assert(trim_end_chars(rest) == rest) by {
        if rest.len() > 0 {
            assert(rest.last() == h[h.len() - 1]);
        }
    }
    assert(trim_chars(h) =~= h);
    assert(sign_split(h) == (false, h));
    if h.len() >= 2 && h[0] == '0' {
        assert(b[0] == 48);
        assert(b[1] != 98 && b[1] != 66);
        assert(h[1] != 'b' && h[1] != 'B');
    }
    assert(prefix_split(h, 16) == (16nat, h));
    lemma_ascii_bytes(h);
    assert(encode_utf8(h) =~= b);
    assert forall|j: int| 0 <= j < b.len() implies b[j] != 95 by {
        assert(hex_value(b[j]) is Some);
    }
    crate::integral::laws::lemma_strip_no_underscore(b);
    lemma_hex_digits_value(w, b);
}

} // verus!
