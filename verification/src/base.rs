//! The numeral codec: parsing a textual numeral into a `u64` and formatting
//! a `u64` back into text, in hexadecimal, decimal or binary.

use vstd::prelude::*;
use crate::chars::digit_val;
use crate::chars::is_digit;
use crate::chars::all_digits;
use crate::chars::seq_val;
use crate::chars::digit_char;
use crate::chars::lower_seq;
use crate::chars::trim;
use crate::chars::without_underscores;
use crate::chars::strip_suffix_u;
use crate::chars::strip_radix_prefix;
use crate::chars::digit_of;
use crate::chars::digit_char_of;
use crate::chars::str_to_chars;
use crate::chars::chars_to_string;
use crate::chars::strip_u_vec;
use crate::chars::trim_vec;
use crate::chars::lower_vec;
use crate::chars::strip_underscores_vec;
use crate::chars::strip_prefix_vec;

verus! {

/// The three supported numeral systems.
#[derive(Clone, Copy, PartialEq, Eq, Structural, Debug)]
pub enum Base {
    Bin,
    Dec,
    Hex,
}

/// Why a textual numeral failed to parse.
#[derive(Clone, Copy, PartialEq, Eq, Structural, Debug)]
pub enum ParseError {
    /// No digits were left after stripping prefixes, suffixes and separators.
    EmptyDigits,
    /// A character that is not a digit of the selected base.
    InvalidDigit,
    /// The value does not fit in 64 unsigned bits.
    Overflow,
}

impl ParseError {
    /// A human-readable description of the error.
    pub fn message(&self) -> (r: &'static str)
        ensures
            *self is EmptyDigits ==> r@ == "cannot parse integer from empty string"@,
            *self is InvalidDigit ==> r@ == "invalid digit found in string"@,
            *self is Overflow ==> r@ == "number too large to fit in target type"@,
    {
        match self {
            ParseError::EmptyDigits => "cannot parse integer from empty string",
            ParseError::InvalidDigit => "invalid digit found in string",
            ParseError::Overflow => "number too large to fit in target type",
        }
    }
}

/// The radix that each base parses and formats with.
pub open spec fn radix_of(b: Base) -> nat {
    match b {
        Base::Bin => 2,
        Base::Dec => 10,
        Base::Hex => 16,
    }
}

/// The digit string that parsing actually reads, after the uniform `u`
/// suffix stripping and the per-base normalization: hexadecimal input is
/// trimmed, lower-cased and loses an optional `0x` prefix; binary input is
/// trimmed, lower-cased, loses all underscores and an optional `0b` prefix;
/// decimal input is taken as is.
pub open spec fn normalized_digits(b: Base, s: Seq<char>) -> Seq<char> {
    let t = strip_suffix_u(s);
    match b {
        Base::Hex => strip_radix_prefix(lower_seq(trim(t)), 'x'),
        Base::Dec => t,
        Base::Bin => strip_radix_prefix(without_underscores(lower_seq(trim(t))), 'b'),
    }
}

/// The value of a normalized digit string: empty input and non-digit
/// characters are rejected, and so is any value above `u64::MAX`.
pub open spec fn digits_to_value(d: Seq<char>, radix: nat) -> Result<u64, ParseError> {
    if d.len() == 0 {
        Err(ParseError::EmptyDigits)
    } else if !all_digits(d, radix) {
        Err(ParseError::InvalidDigit)
    } else if seq_val(d, radix) > u64::MAX {
        Err(ParseError::Overflow)
    } else {
        Ok(seq_val(d, radix) as u64)
    }
}

/// What parsing returns for any input text, per base.
pub open spec fn parse_spec(b: Base, s: Seq<char>) -> Result<u64, ParseError> {
    digits_to_value(normalized_digits(b, s), radix_of(b))
}

/// The minimal digit string of `v`: empty for zero, otherwise the base-radix
/// digits of `v` with no leading zero.
pub open spec fn min_digits(v: nat, radix: nat) -> Seq<char>
    decreases v,
    when radix >= 2
    via min_digits_decreases
{
    if v == 0 {
        Seq::empty()
    } else {
        min_digits(v / radix, radix).push(digit_char(v % radix))
    }
}

#[via_fn]
proof fn min_digits_decreases(v: nat, radix: nat) {
    if v > 0 {
        vstd::arithmetic::div_mod::lemma_div_decreases(v as int, radix as int);
    }
}

/// The canonical digit string of `v`: `0` for zero, minimal digits otherwise.
pub open spec fn canonical_digits(v: nat, radix: nat) -> Seq<char> {
    if v == 0 {
        seq!['0']
    } else {
        min_digits(v, radix)
    }
}

/// The low `width` binary digits of `v`, zero-padded to exactly `width`
/// characters.
pub open spec fn fixed_bin_digits(v: nat, width: nat) -> Seq<char>
    decreases width,
{
    if width == 0 {
        Seq::empty()
    } else {
        fixed_bin_digits(v / 2, (width - 1) as nat).push(digit_char(v % 2))
    }
}

/// The grouped binary rendering used for values of 16 and above: 4-bit
/// groups from the least-significant end, each zero-padded to 4 digits, the
/// most-significant group included, joined with underscores.
pub open spec fn grouped_bin(v: nat) -> Seq<char>
    decreases v,
    via grouped_bin_decreases
{
    if v < 16 {
        fixed_bin_digits(v, 4)
    } else {
        grouped_bin(v / 16) + seq!['_'] + fixed_bin_digits(v % 16, 4)
    }
}

#[via_fn]
proof fn grouped_bin_decreases(v: nat) {
    if v >= 16 {
        vstd::arithmetic::div_mod::lemma_div_decreases(v as int, 16);
    }
}

/// What formatting returns, per base: hexadecimal is lower-case with a `0x`
/// prefix, decimal is plain digits, and binary is minimal digits below 16
/// and underscore-grouped nibbles from 16 upward.
pub open spec fn format_spec(b: Base, v: u64) -> Seq<char> {
    match b {
        Base::Hex => seq!['0', 'x'] + canonical_digits(v as nat, 16),
        Base::Dec => canonical_digits(v as nat, 10),
        Base::Bin => if v < 16 {
            canonical_digits(v as nat, 2)
        } else {
            grouped_bin(v as nat)
        },
    }
}

/// Appends the minimal digit string of `v` to `out`.
fn push_min_digits(v: u64, radix: u64, out: &mut Vec<char>)
    requires
        2 <= radix <= 16,
    ensures
        final(out)@ == old(out)@ + min_digits(v as nat, radix as nat),
    decreases v,
{
    if v == 0 {
        assert(old(out)@ + min_digits(0, radix as nat) =~= old(out)@);
    } else {
        proof {
            vstd::arithmetic::div_mod::lemma_div_decreases(v as int, radix as int);
        }
        push_min_digits(v / radix, radix, out);
        out.push(digit_char_of(v % radix));
        assert(final(out)@ =~= old(out)@ + min_digits(v as nat, radix as nat));
    }
}

/// Appends the canonical digit string of `v` to `out`.
fn push_canonical_digits(v: u64, radix: u64, out: &mut Vec<char>)
    requires
        2 <= radix <= 16,
    ensures
        final(out)@ == old(out)@ + canonical_digits(v as nat, radix as nat),
{
    if v == 0 {
        out.push('0');
        assert(final(out)@ =~= old(out)@ + canonical_digits(0, radix as nat));
    } else {
        push_min_digits(v, radix, out);
    }
}

/// Appends one zero-padded 4-digit binary group to `out`.
fn push_nibble(v: u64, out: &mut Vec<char>)
    requires
        v < 16,
    ensures
        final(out)@ == old(out)@ + fixed_bin_digits(v as nat, 4),
{
    let v1: u64 = v / 2;
    let v2: u64 = v1 / 2;
    let v3: u64 = v2 / 2;
    out.push(digit_char_of(v3 % 2));
    out.push(digit_char_of(v2 % 2));
    out.push(digit_char_of(v1 % 2));
    out.push(digit_char_of(v % 2));
    proof {
        reveal_with_fuel(fixed_bin_digits, 5);
        assert(final(out)@ =~= old(out)@ + fixed_bin_digits(v as nat, 4));
    }
}

/// Appends the grouped binary rendering of `v` to `out`.
fn push_grouped_bin(v: u64, out: &mut Vec<char>)
    ensures
        final(out)@ == old(out)@ + grouped_bin(v as nat),
    decreases v,
{
    if v < 16 {
        push_nibble(v, out);
    } else {
        proof {
            vstd::arithmetic::div_mod::lemma_div_decreases(v as int, 16);
        }
        push_grouped_bin(v / 16, out);
        out.push('_');
        push_nibble(v % 16, out);
        assert(final(out)@ =~= old(out)@ + grouped_bin(v as nat));
    }
}

/// The fixed-width binary digits of `v`: `width` binary digit characters
/// that read back as `v % 2^width`.
proof fn lemma_fixed_bin_digits(v: nat, width: nat)
    ensures
        fixed_bin_digits(v, width).len() == width,
        forall|i: int|
            0 <= i < width ==> #[trigger] fixed_bin_digits(v, width)[i] == '0'
                || fixed_bin_digits(v, width)[i] == '1',
        seq_val(fixed_bin_digits(v, width), 2) == (v as int) % vstd::arithmetic::power::pow(
            2,
            width,
        ),
    decreases width,
{
    if width == 0 {
        assert(vstd::arithmetic::power::pow(2, 0) == 1) by {
            vstd::arithmetic::power::lemma_pow0(2);
        }
        assert(v % 1 == 0) by (nonlinear_arith);
    } else {
        let w0 = (width - 1) as nat;
        lemma_fixed_bin_digits(v / 2, w0);
        let f0 = fixed_bin_digits(v / 2, w0);
        let c = digit_char(v % 2);
        let p0 = vstd::arithmetic::power::pow(2, w0);
        assert(v % 2 < 2);
        lemma_digit_char_props(v % 2);
        assert(c == '0' || c == '1');
        assert(f0.push(c).drop_last() =~= f0);
        assert(f0.push(c).last() == c);
        assert(seq_val(f0.push(c), 2) == seq_val(f0, 2) * 2 + (v % 2));
        assert(p0 > 0) by {
            vstd::arithmetic::power::lemma_pow_positive(2, w0);
        }
        assert((v as int) % (2 * p0) == 2 * (((v as int) / 2) % p0) + (v as int) % 2) by {
            vstd::arithmetic::div_mod::lemma_breakdown(v as int, 2, p0);
        }
        assert((v as int) / 2 == (v / 2) as int);
        assert((v as int) % 2 == (v % 2) as int);
        assert(vstd::arithmetic::power::pow(2, width) == 2 * p0) by {
            vstd::arithmetic::power::lemma_pow_adds(2, 1, w0);
            vstd::arithmetic::power::lemma_pow1(2);
        }
        assert(forall|i: int|
            0 <= i < width ==> #[trigger] fixed_bin_digits(v, width)[i] == '0'
                || fixed_bin_digits(v, width)[i] == '1') by {
            assert(forall|i: int| 0 <= i < w0 ==> f0.push(c)[i] == f0[i]);
            assert(f0.push(c)[w0 as int] == c);
        }
    }
}

/// The concatenation of the 4-bit groups of `v`, with no separators.
spec fn all_bits(v: nat) -> Seq<char>
    decreases v,
    via all_bits_decreases
{
    if v < 16 {
        fixed_bin_digits(v, 4)
    } else {
        all_bits(v / 16) + fixed_bin_digits(v % 16, 4)
    }
}

#[via_fn]
proof fn all_bits_decreases(v: nat) {
    if v >= 16 {
        vstd::arithmetic::div_mod::lemma_div_decreases(v as int, 16);
    }
}

/// The grouped binary rendering of `v` holds only binary digits and
/// underscores; removing the underscores leaves the 4-bit groups of `v`,
/// which read back as `v`.
proof fn lemma_grouped_bin(v: nat)
    ensures
        grouped_bin(v).len() > 0,
        forall|i: int|
            0 <= i < grouped_bin(v).len() ==> #[trigger] grouped_bin(v)[i] == '0'
                || grouped_bin(v)[i] == '1' || grouped_bin(v)[i] == '_',
        grouped_bin(v).last() != 'u',
        without_underscores(grouped_bin(v)) == all_bits(v),
        all_bits(v).len() > 0,
        forall|i: int|
            0 <= i < all_bits(v).len() ==> #[trigger] all_bits(v)[i] == '0' || all_bits(v)[i]
                == '1',
        seq_val(all_bits(v), 2) == v,
    decreases v,
{
    assert(vstd::arithmetic::power::pow(2, 4) == 16) by {
        reveal_with_fuel(vstd::arithmetic::power::pow, 5);
    }
    if v < 16 {
        lemma_fixed_bin_digits(v, 4);
        vstd::arithmetic::div_mod::lemma_small_mod(v, 16);
        crate::chars::lemma_without_underscores_id(grouped_bin(v));
    } else {
        vstd::arithmetic::div_mod::lemma_div_decreases(v as int, 16);
        lemma_grouped_bin(v / 16);
        let g0 = grouped_bin(v / 16);
        let f = fixed_bin_digits((v % 16) as nat, 4);
        lemma_fixed_bin_digits((v % 16) as nat, 4);
        assert(grouped_bin(v) == (g0 + seq!['_']) + f);
        crate::chars::lemma_without_underscores_add(g0 + seq!['_'], f);
        crate::chars::lemma_without_underscores_add(g0, seq!['_']);
        assert(seq!['_'].drop_last() =~= Seq::<char>::empty());
        assert(without_underscores(Seq::<char>::empty()) =~= Seq::<char>::empty());
        assert(without_underscores(seq!['_']) =~= Seq::<char>::empty());
        crate::chars::lemma_without_underscores_id(f);
        assert(without_underscores(g0) + Seq::<char>::empty() =~= without_underscores(g0));
        assert(without_underscores(grouped_bin(v)) == all_bits(v / 16) + f);
        assert(all_bits(v) == all_bits(v / 16) + f);
        crate::chars::lemma_seq_val_append(all_bits(v / 16), f, 2);
        assert((v % 16) % 16 == v % 16) by {
            vstd::arithmetic::div_mod::lemma_small_mod((v % 16) as nat, 16);
        }
        vstd::arithmetic::div_mod::lemma_fundamental_div_mod(v as int, 16);
        assert(seq_val(all_bits(v), 2) == v);
        assert(grouped_bin(v).last() == f.last());
        assert(f.last() == '0' || f.last() == '1');
        assert(forall|i: int|
            0 <= i < grouped_bin(v).len() ==> #[trigger] grouped_bin(v)[i] == '0'
                || grouped_bin(v)[i] == '1' || grouped_bin(v)[i] == '_') by {
            let g = grouped_bin(v);
            assert(forall|i: int| 0 <= i < g0.len() ==> g[i] == g0[i]);
            assert(g[g0.len() as int] == '_');
            assert(forall|i: int|
                g0.len() + 1 <= i < g.len() ==> g[i] == f[i - g0.len() - 1]);
        }
        assert(forall|i: int|
            0 <= i < all_bits(v).len() ==> #[trigger] all_bits(v)[i] == '0' || all_bits(v)[i]
                == '1') by {
            let a = all_bits(v);
            let a0 = all_bits(v / 16);
            assert(forall|i: int| 0 <= i < a0.len() ==> a[i] == a0[i]);
            assert(forall|i: int| a0.len() <= i < a.len() ==> a[i] == f[i - a0.len()]);
        }
    }
}

/// If the accumulator is at most `(u64::MAX - dig) / radix`, taking one more
/// digit stays within `u64`.
proof fn lemma_accum_fits(val: int, dig: int, radix: int)
    requires
        0 <= val,
        0 <= dig,
        1 <= radix,
        val <= (u64::MAX - dig) / radix,
    ensures
        val * radix + dig <= u64::MAX,
{
    let m = u64::MAX as int;
    let q = (m - dig) / radix;
    vstd::arithmetic::div_mod::lemma_fundamental_div_mod(m - dig, radix);
    vstd::arithmetic::mul::lemma_mul_inequality(val, q, radix);
    assert(q * radix <= m - dig) by {
        assert((m - dig) % radix >= 0) by {
            vstd::arithmetic::div_mod::lemma_mod_division_less_than_divisor(m - dig, radix);
        }
        assert(radix * q == q * radix) by (nonlinear_arith);
    }
}

/// If the accumulator exceeds `(u64::MAX - dig) / radix`, taking one more
/// digit overflows `u64`.
proof fn lemma_accum_overflows(val: int, dig: int, radix: int)
    requires
        0 <= dig,
        1 <= radix,
        val > (u64::MAX - dig) / radix,
    ensures
        val * radix + dig > u64::MAX,
{
    let m = u64::MAX as int;
    let q = (m - dig) / radix;
    vstd::arithmetic::div_mod::lemma_fundamental_div_mod(m - dig, radix);
    vstd::arithmetic::mul::lemma_mul_inequality(q + 1, val, radix);
    assert((q + 1) * radix >= m - dig + 1) by {
        assert((m - dig) % radix < radix) by {
            vstd::arithmetic::div_mod::lemma_mod_division_less_than_divisor(m - dig, radix);
        }
        assert((q + 1) * radix == q * radix + radix) by (nonlinear_arith);
        assert(radix * q == q * radix) by (nonlinear_arith);
    }
}

/// The value of a digit string, or the error that reading it produces.
fn parse_digits(d: &Vec<char>, radix: u64) -> (r: Result<u64, ParseError>)
    requires
        2 <= radix <= 16,
    ensures
        r == digits_to_value(d@, radix as nat),
{
    if d.len() == 0 {
        return Err(ParseError::EmptyDigits);
    }
    let mut i: usize = 0;
    while i < d.len()
        invariant
            i <= d.len(),
            2 <= radix <= 16,
            forall|j: int| 0 <= j < i ==> is_digit(d@[j], radix as nat),
        decreases d.len() - i,
    {
        if digit_of(d[i]) as u64 >= radix {
            assert(!is_digit(d@[i as int], radix as nat));
            return Err(ParseError::InvalidDigit);
        }
        i += 1;
    }
    assert(all_digits(d@, radix as nat));
    let mut val: u64 = 0;
    let mut k: usize = 0;
    while k < d.len()
        invariant
            k <= d.len(),
            2 <= radix <= 16,
            all_digits(d@, radix as nat),
            val == seq_val(d@.take(k as int), radix as nat),
        decreases d.len() - k,
    {
        let dig: u64 = digit_of(d[k]) as u64;
        assert(dig == digit_val(d@[k as int]) && dig < radix);
        if val > (u64::MAX - dig) / radix {
            proof {
                lemma_accum_overflows(val as int, dig as int, radix as int);
                crate::chars::lemma_seq_val_take_succ(d@, radix as nat, k as int);
                crate::chars::lemma_seq_val_prefix_le(d@, radix as nat, k + 1);
                assert(seq_val(d@, radix as nat) > u64::MAX);
            }
            return Err(ParseError::Overflow);
        }
        proof {
            lemma_accum_fits(val as int, dig as int, radix as int);
            crate::chars::lemma_seq_val_take_succ(d@, radix as nat, k as int);
        }
        val = val * radix + dig;
        k += 1;
    }
    assert(d@.take(d@.len() as int) =~= d@);
    Ok(val)
}

impl Base {
    /// Parse a textual numeral in this base into a `u64`, per the rules of
    /// [`parse_spec`]: a trailing `u` is stripped from any base's input;
    /// hexadecimal input is trimmed, lower-cased and may carry a `0x` prefix;
    /// binary input is trimmed, lower-cased, may carry underscores and a
    /// `0b` prefix; decimal input must be bare base-10 digits.
    pub fn to_num(&self, input: &str) -> (r: Result<u64, ParseError>)
        ensures
            r == parse_spec(*self, input@),
    {
        let chars = str_to_chars(input);
        let stripped = strip_u_vec(chars);
        match self {
            Base::Hex => {
                let t = lower_vec(&trim_vec(&stripped));
                let digits = strip_prefix_vec(t, 'x');
                parse_digits(&digits, 16)
            },
            Base::Dec => parse_digits(&stripped, 10),
            Base::Bin => {
                let t = strip_underscores_vec(&lower_vec(&trim_vec(&stripped)));
                let digits = strip_prefix_vec(t, 'b');
                parse_digits(&digits, 2)
            },
        }
    }

    /// Format a `u64` as text in this base, per [`format_spec`].
    pub fn from(&self, num: u64) -> (r: String)
        ensures
            r@ == format_spec(*self, num),
    {
        match self {
            Base::Hex => {
                let mut v: Vec<char> = Vec::new();
                v.push('0');
                v.push('x');
                assert(v@ =~= seq!['0', 'x']);
                push_canonical_digits(num, 16, &mut v);
                chars_to_string(&v)
            },
            Base::Dec => {
                let mut v: Vec<char> = Vec::new();
                assert(v@ =~= Seq::<char>::empty());
                push_canonical_digits(num, 10, &mut v);
                assert(v@ =~= canonical_digits(num as nat, 10));
                chars_to_string(&v)
            },
            Base::Bin => {
                let mut v: Vec<char> = Vec::new();
                assert(v@ =~= Seq::<char>::empty());
                if num < 16 {
                    push_canonical_digits(num, 2, &mut v);
                    assert(v@ =~= canonical_digits(num as nat, 2));
                } else {
                    push_grouped_bin(num, &mut v);
                    assert(v@ =~= grouped_bin(num as nat));
                }
                chars_to_string(&v)
            },
        }
    }

    /// The short lower-case display name of this base.
    pub fn label(&self) -> (r: &'static str)
        ensures
            r@ == label_spec(*self),
    {
        match self {
            Base::Bin => "bin",
            Base::Dec => "dec",
            Base::Hex => "hex",
        }
    }
}

/// Round trip: formatting any value in any base and parsing the result in
/// the same base gives the value back.
pub proof fn lemma_round_trip(b: Base, v: u64)
    ensures
        parse_spec(b, format_spec(b, v)) == Ok::<u64, ParseError>(v),
{
    match b {
        Base::Hex => {
            let cd = canonical_digits(v as nat, 16);
            lemma_canonical_digits(v as nat, 16);
            let s = seq!['0', 'x'] + cd;
            assert(s.last() == cd.last());
            assert(strip_suffix_u(s) == s);
            assert(s[0] == '0' && s[1] == 'x');
            assert(forall|i: int| 2 <= i < s.len() ==> s[i] == cd[i - 2]);
            assert(forall|i: int| 0 <= i < s.len() ==> !crate::chars::is_space(#[trigger] s[i]));
            crate::chars::lemma_trim_id(s);
            assert(forall|i: int|
                0 <= i < s.len() ==> crate::chars::lower_char(#[trigger] s[i]) == s[i]);
            crate::chars::lemma_lower_id(s);
            assert(s.skip(2) =~= cd);
            assert(normalized_digits(Base::Hex, s) == cd);
        },
        Base::Dec => {
            let cd = canonical_digits(v as nat, 10);
            lemma_canonical_digits(v as nat, 10);
            assert(normalized_digits(Base::Dec, cd) == cd);
        },
        Base::Bin => {
            if v < 16 {
                let cd = canonical_digits(v as nat, 2);
                lemma_canonical_digits(v as nat, 2);
                assert(forall|i: int|
                    0 <= i < cd.len() ==> #[trigger] cd[i] == '0' || cd[i] == '1') by {
                    assert(forall|i: int| 0 <= i < cd.len() ==> is_digit(#[trigger] cd[i], 2));
                }
                assert(strip_suffix_u(cd) == cd);
                crate::chars::lemma_trim_id(cd);
                crate::chars::lemma_lower_id(cd);
                crate::chars::lemma_without_underscores_id(cd);
                assert(cd.len() >= 2 ==> cd[1] != 'b');
                assert(strip_radix_prefix(cd, 'b') == cd);
                assert(normalized_digits(Base::Bin, cd) == cd);
            } else {
                let g = grouped_bin(v as nat);
                let ab = all_bits(v as nat);
                lemma_grouped_bin(v as nat);
                assert(strip_suffix_u(g) == g);
                assert(forall|i: int|
                    0 <= i < g.len() ==> !crate::chars::is_space(#[trigger] g[i]));
                crate::chars::lemma_trim_id(g);
                assert(forall|i: int|
                    0 <= i < g.len() ==> crate::chars::lower_char(#[trigger] g[i]) == g[i]);
                crate::chars::lemma_lower_id(g);
                assert(ab.len() >= 2 ==> ab[1] != 'b');
                assert(strip_radix_prefix(ab, 'b') == ab);
                assert(normalized_digits(Base::Bin, g) == ab);
                assert(all_digits(ab, 2)) by {
                    assert(forall|i: int|
                        0 <= i < ab.len() ==> digit_val(#[trigger] ab[i]) < 2);
                }
            }
        },
    }
}

/// Hexadecimal parsing is prefix-optional: a digit string parses to the
/// same result with or without a leading `0x`.
pub proof fn lemma_hex_prefix_optional(d: Seq<char>)
    requires
        d.len() > 0,
        all_digits(d, 16),
    ensures
        parse_spec(Base::Hex, seq!['0', 'x'] + d) == parse_spec(Base::Hex, d),
{
    assert forall|i: int| 0 <= i < d.len() implies !crate::chars::is_space(#[trigger] d[i])
        && crate::chars::lower_char(d[i]) == d[i] && d[i] != 'u' && d[i] != 'x' by {
        crate::chars::lemma_digit_not_special(d[i]);
    }
    let s = seq!['0', 'x'] + d;
    assert(s.last() == d.last());
    assert(strip_suffix_u(s) == s);
    assert(s[0] == '0' && s[1] == 'x');
    assert(forall|i: int| 2 <= i < s.len() ==> s[i] == d[i - 2]);
    assert(forall|i: int| 0 <= i < s.len() ==> !crate::chars::is_space(#[trigger] s[i]));
    crate::chars::lemma_trim_id(s);
    assert(forall|i: int|
        0 <= i < s.len() ==> crate::chars::lower_char(#[trigger] s[i]) == s[i]);
    crate::chars::lemma_lower_id(s);
    assert(s.skip(2) =~= d);
    assert(normalized_digits(Base::Hex, s) == d);
    assert(strip_suffix_u(d) == d);
    crate::chars::lemma_trim_id(d);
    crate::chars::lemma_lower_id(d);
    assert(d.len() >= 2 ==> d[1] != 'x');
    assert(normalized_digits(Base::Hex, d) == d);
}

/// Hexadecimal parsing is case-insensitive: lower-casing the input does not
/// change the result. (The one exception is an input whose last character is
/// `u` or `U`, which the `u`-suffix rule strips before lower-casing.)
pub proof fn lemma_hex_case_insensitive(s: Seq<char>)
    requires
        s.len() == 0 || (s.last() != 'u' && s.last() != 'U'),
    ensures
        parse_spec(Base::Hex, lower_seq(s)) == parse_spec(Base::Hex, s),
{
    let l = lower_seq(s);
    if s.len() > 0 {
        assert(l.last() == crate::chars::lower_char(s.last()));
        crate::chars::lemma_lower_to_u(s.last());
    }
    assert(strip_suffix_u(l) == l);
    assert(strip_suffix_u(s) == s);
    crate::chars::lemma_trim_lower_commute(s);
    crate::chars::lemma_lower_seq_idempotent(trim(s));
    assert(lower_seq(trim(l)) == lower_seq(trim(s)));
    assert(normalized_digits(Base::Hex, l) == normalized_digits(Base::Hex, s));
}

/// Binary parsing ignores underscores: an input made of binary digits and
/// underscores parses to the same result as the input with the underscores
/// removed.
pub proof fn lemma_bin_underscores_ignored(s: Seq<char>)
    requires
        forall|i: int| 0 <= i < s.len() ==> #[trigger] s[i] == '0' || s[i] == '1' || s[i] == '_',
    ensures
        parse_spec(Base::Bin, s) == parse_spec(Base::Bin, without_underscores(s)),
{
    let w = without_underscores(s);
    crate::chars::lemma_without_underscores_binary(s);
    assert(s.len() > 0 ==> s.last() != 'u');
    assert(strip_suffix_u(s) == s);
    assert(forall|i: int| 0 <= i < s.len() ==> !crate::chars::is_space(#[trigger] s[i]));
    crate::chars::lemma_trim_id(s);
    assert(forall|i: int|
        0 <= i < s.len() ==> crate::chars::lower_char(#[trigger] s[i]) == s[i]);
    crate::chars::lemma_lower_id(s);
    assert(w.len() >= 2 ==> w[1] != 'b');
    assert(normalized_digits(Base::Bin, s) == w);
    assert(w.len() > 0 ==> w.last() != 'u');
    assert(strip_suffix_u(w) == w);
    assert(forall|i: int| 0 <= i < w.len() ==> !crate::chars::is_space(#[trigger] w[i]));
    crate::chars::lemma_trim_id(w);
    assert(forall|i: int|
        0 <= i < w.len() ==> crate::chars::lower_char(#[trigger] w[i]) == w[i]);
    crate::chars::lemma_lower_id(w);
    assert(forall|i: int| 0 <= i < w.len() ==> #[trigger] w[i] != '_');
    crate::chars::lemma_without_underscores_id(w);
    assert(normalized_digits(Base::Bin, w) == w);
}

/// Binary parsing is prefix-optional: a digit string parses to the same
/// result with or without a leading `0b`.
pub proof fn lemma_bin_prefix_optional(d: Seq<char>)
    requires
        d.len() > 0,
        all_digits(d, 2),
    ensures
        parse_spec(Base::Bin, seq!['0', 'b'] + d) == parse_spec(Base::Bin, d),
{
    assert forall|i: int| 0 <= i < d.len() implies #[trigger] d[i] == '0' || d[i] == '1' by {
        assert(is_digit(d[i], 2));
    }
    let s = seq!['0', 'b'] + d;
    assert(s.last() == d.last());
    assert(strip_suffix_u(s) == s);
    assert(s[0] == '0' && s[1] == 'b');
    assert(forall|i: int| 2 <= i < s.len() ==> s[i] == d[i - 2]);
    assert(forall|i: int| 0 <= i < s.len() ==> !crate::chars::is_space(#[trigger] s[i]));
    crate::chars::lemma_trim_id(s);
    assert(forall|i: int|
        0 <= i < s.len() ==> crate::chars::lower_char(#[trigger] s[i]) == s[i]);
    crate::chars::lemma_lower_id(s);
    assert(forall|i: int| 0 <= i < s.len() ==> #[trigger] s[i] != '_');
    crate::chars::lemma_without_underscores_id(s);
    assert(s.skip(2) =~= d);
    assert(normalized_digits(Base::Bin, s) == d);
    assert(strip_suffix_u(d) == d);
    crate::chars::lemma_trim_id(d);
    crate::chars::lemma_lower_id(d);
    assert(forall|i: int| 0 <= i < d.len() ==> #[trigger] d[i] != '_');
    crate::chars::lemma_without_underscores_id(d);
    assert(d.len() >= 2 ==> d[1] != 'b');
    assert(normalized_digits(Base::Bin, d) == d);
}

/// Decimal parsing accepts nothing but base-10 digits: any other character
/// anywhere in the input (after the uniform `u`-suffix stripping) is
/// rejected. In particular a sign or a radix prefix is an error.
pub proof fn lemma_dec_rejects_non_digit(s: Seq<char>, i: int)
    requires
        0 <= i < strip_suffix_u(s).len(),
        !is_digit(strip_suffix_u(s)[i], 10),
    ensures
        parse_spec(Base::Dec, s) is Err,
{
    assert(!all_digits(strip_suffix_u(s), 10));
}

/// The display name of each base.
pub open spec fn label_spec(b: Base) -> Seq<char> {
    match b {
        Base::Bin => "bin"@,
        Base::Dec => "dec"@,
        Base::Hex => "hex"@,
    }
}

/// The canonical digit characters: they invert [`digit_val`], and none of
/// them is whitespace, upper-case, an underscore, `u` or `x`.
proof fn lemma_digit_char_props(u: nat)
    requires
        u < 16,
    ensures
        digit_val(digit_char(u)) == u,
        !crate::chars::is_space(digit_char(u)),
        crate::chars::lower_char(digit_char(u)) == digit_char(u),
        digit_char(u) != 'u',
        digit_char(u) != '_',
        digit_char(u) != 'x',
{
}

/// The minimal digit string of `v` consists of valid digits and reads back
/// as `v`.
proof fn lemma_min_digits_val(v: nat, radix: nat)
    requires
        2 <= radix <= 16,
    ensures
        all_digits(min_digits(v, radix), radix),
        seq_val(min_digits(v, radix), radix) == v,
        v > 0 ==> min_digits(v, radix).len() > 0,
        forall|i: int|
            0 <= i < min_digits(v, radix).len() ==> exists|u: nat|
                u < radix && #[trigger] min_digits(v, radix)[i] == digit_char(u),
    decreases v,
{
    if v > 0 {
        vstd::arithmetic::div_mod::lemma_div_decreases(v as int, radix as int);
        lemma_min_digits_val(v / radix, radix);
        let m = min_digits(v / radix, radix);
        let c = digit_char(v % radix);
        assert(v % radix < radix);
        lemma_digit_char_props(v % radix);
        assert(m.push(c).drop_last() =~= m);
        assert(m.push(c).last() == c);
        assert(seq_val(m.push(c), radix) == seq_val(m, radix) * radix + digit_val(c));
        vstd::arithmetic::div_mod::lemma_fundamental_div_mod(v as int, radix as int);
        assert(radix * (v / radix) == (v / radix) * radix) by (nonlinear_arith);
        assert(forall|i: int|
            0 <= i < m.push(c).len() ==> exists|u: nat|
                u < radix && #[trigger] m.push(c)[i] == digit_char(u)) by {
            assert(forall|i: int| 0 <= i < m.len() ==> m.push(c)[i] == m[i]);
            assert(exists|u: nat| u < radix && c == digit_char(u)) by {
                assert(c == digit_char(v % radix));
            }
        }
    }
}

/// The canonical digit string of `v` consists of valid digits, is never
/// empty, and reads back as `v`; none of its characters is whitespace,
/// upper-case, an underscore, `u` or `x`.
proof fn lemma_canonical_digits(v: nat, radix: nat)
    requires
        2 <= radix <= 16,
    ensures
        all_digits(canonical_digits(v, radix), radix),
        seq_val(canonical_digits(v, radix), radix) == v,
        canonical_digits(v, radix).len() > 0,
        forall|i: int|
            {
                let c = #[trigger] canonical_digits(v, radix)[i];
                0 <= i < canonical_digits(v, radix).len() ==> !crate::chars::is_space(c)
                    && crate::chars::lower_char(c) == c && c != 'u' && c != '_' && c != 'x'
            },
{
    let d = canonical_digits(v, radix);
    if v == 0 {
        assert(d.len() == 1 && d.last() == '0' && d[0] == '0');
        assert(seq_val(d, radix) == seq_val(d.drop_last(), radix) * radix + digit_val(d.last()));
        assert(d.drop_last() =~= Seq::<char>::empty());
        assert(seq_val(d.drop_last(), radix) == 0);
        lemma_digit_char_props(0);
        assert(d[0] == digit_char(0));
        assert(seq_val(d, radix) == 0) by (nonlinear_arith)
            requires
                seq_val(d, radix) == seq_val(d.drop_last(), radix) * radix + digit_val(d.last()),
                seq_val(d.drop_last(), radix) == 0,
                digit_val(d.last()) == 0,
        ;
    } else {
        lemma_min_digits_val(v, radix);
        assert forall|i: int| 0 <= i < d.len() implies {
            let c = #[trigger] d[i];
            !crate::chars::is_space(c) && crate::chars::lower_char(c) == c && c != 'u'
                && c != '_' && c != 'x'
        } by {
            let u = choose|u: nat| u < radix && d[i] == digit_char(u);
            lemma_digit_char_props(u);
        }
    }
}

} // verus!

